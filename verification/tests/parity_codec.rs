use fakenet::add_parity_check;
use fakenet::bytes_to_bits;
use fakenet::check_parity;
use fakenet::col_mismatches;
use fakenet::row_mismatches;
use fakenet::CodingError;

fn ab_bits() -> Vec<u8> {
    bytes_to_bits(&vec![65, 66])
}

// The "AB" scenario with chunksize 5 and odd parity, worked by hand:
// four data rows of five bits each closed by a parity bit, the column
// parity row, and the corner bit.
fn ab_encoded() -> Vec<u8> {
    vec![
        0, 1, 0, 0, 0, 0, // row 0 and its parity bit
        0, 0, 1, 0, 1, 1, // row 1
        0, 0, 0, 0, 1, 0, // row 2
        0, 0, 0, 0, 0, 1, // row 3 (all padding)
        1, 0, 0, 1, 1, // column parity row
        0, // corner bit
    ]
}

#[test]
fn encoding_ab_matches_the_hand_computation() {
    let encoded = add_parity_check(&ab_bits(), 5, 1);
    assert_eq!(encoded.len(), 30);
    assert_eq!(encoded, ab_encoded());
}

#[test]
fn decoding_the_clean_ab_stream_returns_the_data_bits() {
    let decoded = check_parity(&ab_encoded(), 5, 1).unwrap();
    assert_eq!(decoded.len(), 20);
    assert_eq!(&decoded[..16], &ab_bits()[..]);
    assert!(decoded[16..].iter().all(|b| *b == 0));
}

#[test]
fn round_trip_on_whole_rows_is_the_identity() {
    for (v, c, p) in [
        (vec![1, 0, 1, 1, 0, 0], 3, 0),
        (vec![1, 0, 1, 1, 0, 0], 3, 1),
        (vec![1, 1, 1, 1], 2, 0),
        (vec![0, 1], 1, 1),
        (vec![], 5, 1),
        (vec![], 5, 0),
    ] {
        let encoded = add_parity_check(&v, c, p);
        assert_eq!(check_parity(&encoded, c, p), Ok(v));
    }
}

#[test]
fn every_single_data_bit_flip_is_corrected() {
    let v = ab_bits();
    let encoded = add_parity_check(&v, 5, 1);
    let expected = check_parity(&encoded, 5, 1).unwrap();
    // the data region: the first four rows of six bits, final bit of
    // each row excluded
    for i in 0..24 {
        if i % 6 == 5 {
            continue;
        }
        let mut corrupted = encoded.clone();
        corrupted[i] = 1 - corrupted[i];
        assert_eq!(
            check_parity(&corrupted, 5, 1),
            Ok(expected.clone()),
            "flip at data position {} was not corrected",
            i
        );
    }
}

#[test]
fn a_flipped_row_parity_bit_is_a_control_bit_error() {
    for i in [5, 11, 17, 23] {
        let mut corrupted = ab_encoded();
        corrupted[i] = 1 - corrupted[i];
        assert_eq!(check_parity(&corrupted, 5, 1), Err(CodingError::ControlBitError));
    }
}

#[test]
fn a_flipped_column_parity_bit_is_a_control_bit_error() {
    for i in 24..29 {
        let mut corrupted = ab_encoded();
        corrupted[i] = 1 - corrupted[i];
        assert_eq!(check_parity(&corrupted, 5, 1), Err(CodingError::ControlBitError));
    }
}

#[test]
fn a_flipped_corner_bit_is_a_control_bit_error() {
    let mut corrupted = ab_encoded();
    corrupted[29] = 1 - corrupted[29];
    assert_eq!(check_parity(&corrupted, 5, 1), Err(CodingError::ControlBitError));
}

#[test]
fn two_flips_in_different_rows_and_columns_are_uncorrectable() {
    // positions 0 (row 0, column 0) and 8 (row 1, column 2)
    let mut corrupted = ab_encoded();
    corrupted[0] = 1 - corrupted[0];
    corrupted[8] = 1 - corrupted[8];
    assert_eq!(check_parity(&corrupted, 5, 1), Err(CodingError::UncorrectableError));
}

#[test]
fn two_flips_in_one_row_hide_from_the_row_check() {
    // both flips in row 0: its sum is unchanged, only two columns
    // disagree, so the syndrome is one-sided
    let mut corrupted = ab_encoded();
    corrupted[0] = 1 - corrupted[0];
    corrupted[2] = 1 - corrupted[2];
    assert_eq!(check_parity(&corrupted, 5, 1), Err(CodingError::ControlBitError));
}

#[test]
fn a_stream_of_the_wrong_shape_is_malformed() {
    assert_eq!(check_parity(&vec![], 5, 1), Err(CodingError::MalformedInput));
    assert_eq!(check_parity(&vec![1, 0, 1], 5, 1), Err(CodingError::MalformedInput));
    let twenty_nine = vec![0; 29];
    assert_eq!(check_parity(&twenty_nine, 5, 1), Err(CodingError::MalformedInput));
}

#[test]
fn mismatch_scans_locate_the_flipped_bit() {
    // flipping position 8 (row 1, column 2) upsets exactly that row and
    // that column
    let mut corrupted = ab_encoded();
    corrupted[8] = 1 - corrupted[8];
    assert_eq!(row_mismatches(&corrupted, 5, 1), vec![1]);
    assert_eq!(col_mismatches(&corrupted, 5, 1), vec![2]);
}

#[test]
fn clean_streams_show_no_mismatches() {
    let encoded = ab_encoded();
    assert_eq!(row_mismatches(&encoded, 5, 1), Vec::<usize>::new());
    assert_eq!(col_mismatches(&encoded, 5, 1), Vec::<usize>::new());
}

#[test]
fn chunksize_one_round_trips() {
    let v = vec![1, 0];
    let encoded = add_parity_check(&v, 1, 0);
    assert_eq!(encoded, vec![1, 1, 0, 0, 1, 1]);
    assert_eq!(check_parity(&encoded, 1, 0), Ok(v));
}

#[test]
fn encoding_the_empty_stream_yields_only_parity_bits() {
    let encoded = add_parity_check(&vec![], 5, 1);
    assert_eq!(encoded, vec![1, 1, 1, 1, 1, 0]);
    assert_eq!(check_parity(&encoded, 5, 1), Ok(vec![]));
}

#[test]
fn padding_appears_in_the_decoded_stream() {
    // a one-bit input is padded to a whole row; the decoder returns the
    // padded row, not the original single bit
    let encoded = add_parity_check(&vec![1], 5, 1);
    assert_eq!(check_parity(&encoded, 5, 1), Ok(vec![1, 0, 0, 0, 0]));
}
