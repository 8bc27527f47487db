use fakenet::append_crc_hash;
use fakenet::bytes_to_bits;
use fakenet::crc_generator;
use fakenet::generate_crc_hash;
use fakenet::recover_from_crc_hash;
use fakenet::xor;
use fakenet::xor_divide;
use fakenet::CodingError;

#[test]
fn generator_is_the_ieee_polynomial() {
    let expected = vec![
        1, 0, 0, 0, 0, 0, 1, 0, 0, 1, 1, 0, 0, 0, 0, 0, 1, 0, 0, 0, 1, 1, 1, 0, 1, 1, 0, 1, 1,
        0, 1, 1, 1,
    ];
    assert_eq!(crc_generator(), expected);
}

#[test]
fn xor_adds_on_the_common_prefix_and_copies_the_tail() {
    assert_eq!(xor(&vec![1, 0, 1], &vec![1, 1, 0]), vec![0, 1, 1]);
    assert_eq!(xor(&vec![1, 0, 1, 1], &vec![1, 1]), vec![0, 1, 1, 1]);
    assert_eq!(xor(&vec![1], &vec![0, 1, 1]), vec![1, 1, 1]);
    assert_eq!(xor(&vec![], &vec![1, 0]), vec![1, 0]);
}

#[test]
fn xor_divide_computes_the_remainder() {
    // x^4 + x^3 + x modulo x^2 + 1 is 1
    assert_eq!(xor_divide(&vec![1, 1, 0, 1, 0], &vec![1, 0, 1]), vec![1]);
}

#[test]
fn exact_division_collapses_to_a_single_zero() {
    assert_eq!(xor_divide(&vec![1, 0, 1], &vec![1, 0, 1]), vec![0]);
    assert_eq!(xor_divide(&vec![1, 1, 0], &vec![1, 1]), vec![0]);
}

#[test]
fn checksum_of_a_single_one_is_the_generator_tail() {
    // one leading bit reduces once against the generator, leaving its
    // lower 32 coefficients
    let expected = vec![
        0, 0, 0, 0, 0, 1, 0, 0, 1, 1, 0, 0, 0, 0, 0, 1, 0, 0, 0, 1, 1, 1, 0, 1, 1, 0, 1, 1, 0,
        1, 1, 1,
    ];
    assert_eq!(generate_crc_hash(&vec![1]), expected);
}

#[test]
fn checksum_is_always_32_bits() {
    for v in [vec![], vec![0], vec![1], bytes_to_bits(&vec![65, 66])] {
        let h = generate_crc_hash(&v);
        assert_eq!(h.len(), 32);
        assert!(h.iter().all(|b| *b == 0 || *b == 1));
    }
}

#[test]
fn crc_round_trip_returns_the_message() {
    for v in [
        vec![],
        vec![0],
        vec![1],
        vec![1, 0, 1, 1, 0, 0, 1],
        bytes_to_bits(&vec![65, 66]),
        bytes_to_bits(&vec![255, 0, 128]),
    ] {
        let sent = append_crc_hash(&v);
        assert_eq!(sent.len(), v.len() + 32);
        assert_eq!(recover_from_crc_hash(&sent), Ok(v));
    }
}

#[test]
fn any_single_flip_is_detected() {
    let v = bytes_to_bits(&vec![65, 66]);
    let sent = append_crc_hash(&v);
    for i in 0..sent.len() {
        let mut corrupted = sent.clone();
        corrupted[i] = 1 - corrupted[i];
        assert_eq!(
            recover_from_crc_hash(&corrupted),
            Err(CodingError::ChecksumMismatch),
            "flip at position {} went unnoticed",
            i
        );
    }
}

#[test]
fn stream_shorter_than_a_checksum_is_malformed() {
    assert_eq!(recover_from_crc_hash(&vec![]), Err(CodingError::MalformedInput));
    assert_eq!(recover_from_crc_hash(&vec![1, 0, 1]), Err(CodingError::MalformedInput));
    let thirty_one = vec![0; 31];
    assert_eq!(recover_from_crc_hash(&thirty_one), Err(CodingError::MalformedInput));
}

#[test]
fn empty_message_round_trips() {
    let sent = append_crc_hash(&vec![]);
    assert_eq!(sent.len(), 32);
    assert_eq!(recover_from_crc_hash(&sent), Ok(vec![]));
}
