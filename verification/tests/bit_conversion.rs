use fakenet::bits_to_byte;
use fakenet::bits_to_bytes;
use fakenet::byte_to_bits;
use fakenet::bytes_to_bits;

#[test]
fn byte_expansion_is_msb_first() {
    assert_eq!(byte_to_bits(65), vec![0, 1, 0, 0, 0, 0, 0, 1]);
    assert_eq!(byte_to_bits(66), vec![0, 1, 0, 0, 0, 0, 1, 0]);
    assert_eq!(byte_to_bits(0), vec![0, 0, 0, 0, 0, 0, 0, 0]);
    assert_eq!(byte_to_bits(255), vec![1, 1, 1, 1, 1, 1, 1, 1]);
    assert_eq!(byte_to_bits(1), vec![0, 0, 0, 0, 0, 0, 0, 1]);
    assert_eq!(byte_to_bits(128), vec![1, 0, 0, 0, 0, 0, 0, 0]);
}

#[test]
fn byte_round_trips_through_bits() {
    for byte in [0u8, 1, 2, 65, 66, 127, 128, 200, 254, 255] {
        let bits = byte_to_bits(byte);
        assert_eq!(bits_to_byte(&bits), byte);
    }
}

#[test]
fn bits_to_byte_weights_lsb_last() {
    assert_eq!(bits_to_byte(&vec![0, 0, 0, 0, 0, 0, 1, 1]), 3);
    assert_eq!(bits_to_byte(&vec![1, 0, 0, 0, 0, 0, 0, 1]), 129);
}

#[test]
fn byte_sequence_expansion_concatenates() {
    let bits = bytes_to_bits(&vec![65, 66]);
    assert_eq!(bits, vec![0, 1, 0, 0, 0, 0, 0, 1, 0, 1, 0, 0, 0, 0, 1, 0]);
}

#[test]
fn bytes_round_trip_through_bits() {
    for bytes in [vec![], vec![0], vec![65, 66], vec![255, 0, 7], vec![1, 2, 3, 4, 5]] {
        let bits = bytes_to_bits(&bytes);
        assert_eq!(bits_to_bytes(&bits), bytes);
    }
}

#[test]
fn partial_final_byte_is_zero_padded() {
    // nine bits pad out to two bytes
    let bits = vec![0, 0, 0, 0, 0, 0, 0, 1, 1];
    assert_eq!(bits_to_bytes(&bits), vec![1, 128]);
}

#[test]
fn whole_byte_input_gets_no_spurious_padding() {
    let bits = vec![0, 1, 0, 0, 0, 0, 0, 1];
    assert_eq!(bits_to_bytes(&bits), vec![65]);
}

#[test]
fn empty_bits_make_no_bytes() {
    assert_eq!(bits_to_bytes(&vec![]), Vec::<u8>::new());
}
