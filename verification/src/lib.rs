//! Bit-level error-control coding: a two-dimensional parity code with
//! single-error correction, and a CRC checksum built on GF(2) polynomial
//! division, together with the byte/bit conversions they rest on.

pub mod bits;
pub mod crc;
pub mod crc_laws;
pub mod errors;
pub mod gf2;
pub mod parity;
pub mod parity_laws;

pub use bits::bits_to_byte;
pub use bits::bits_to_bytes;
pub use bits::byte_to_bits;
pub use bits::bytes_to_bits;
pub use bits::lemma_bytes_round_trip;
pub use crc::append_crc_hash;
pub use crc::crc_generator;
pub use crc::generate_crc_hash;
pub use crc::recover_from_crc_hash;
pub use crc_laws::lemma_crc_flip_in_checksum_detected;
pub use crc_laws::lemma_crc_round_trip;
pub use errors::CodingError;
pub use gf2::xor;
pub use gf2::xor_divide;
pub use parity::add_parity_check;
pub use parity::check_parity;
pub use parity::col_mismatches;
pub use parity::row_mismatches;
pub use parity_laws::lemma_parity_double_error;
pub use parity_laws::lemma_parity_round_trip;
pub use parity_laws::lemma_parity_single_correction;
