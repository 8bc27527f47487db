//! The CRC codec: a 32-bit frame check sequence computed by GF(2)
//! division against the degree-32 generator polynomial of IEEE 802.3.
//!
//! Encoding appends 32 zero bits, divides by the generator, left-pads the
//! remainder back to 32 bits and appends it to the message. Decoding
//! divides the received stream by the generator and accepts exactly when
//! the remainder collapses to `[0]`; the 32 checksum bits are then
//! stripped, so a round trip returns the message unchanged.

use crate::bits::bits01;
use crate::errors::CodingError;
use crate::gf2::strip_spec;
use crate::gf2::xdiv_run;
use crate::gf2::xor_divide;
use vstd::prelude::*;

verus! {

/// Coefficient `i` of the IEEE 802.3 generator polynomial, highest
/// degree first.
pub open spec fn gen_bit(i: int) -> u8 {
    (((0x104C11DB7u64 >> ((32 - i) as u64)) & 1) as u8)
}

/// The generator polynomial as a 33-bit vector.
pub open spec fn crc_generator_spec() -> Seq<u8> {
    Seq::new(33, |i: int| gen_bit(i))
}

/// A run of zero bits.
pub open spec fn zeros(n: nat) -> Seq<u8> {
    Seq::new(n, |i: int| 0u8)
}

/// The 32-bit checksum of `s`: the division window left after feeding
/// `s` and 32 zero bits through the generator.
pub open spec fn crc_hash_spec(s: Seq<u8>) -> Seq<u8> {
    xdiv_run(Seq::empty(), crc_generator_spec(), s + zeros(32))
}

/// The division window left by the received stream alone; it is all
/// zeros exactly when the stream is a multiple of the generator.
pub open spec fn crc_residual(s: Seq<u8>) -> Seq<u8> {
    xdiv_run(Seq::empty(), crc_generator_spec(), s)
}

/// What decoding returns: the stream without its 32 checksum bits when
/// the residual vanishes, an error otherwise.
pub open spec fn recover_crc_spec(s: Seq<u8>) -> Result<Seq<u8>, CodingError> {
    if s.len() < 32 {
        Err(CodingError::MalformedInput)
    } else if strip_spec(crc_residual(s)) == seq![0u8] {
        Ok(s.subrange(0, s.len() - 32))
    } else {
        Err(CodingError::ChecksumMismatch)
    }
}

/// The generator polynomial, materialized.
#[verifier::loop_isolation(false)]
pub fn crc_generator() -> (r: Vec<u8>)
    ensures
        r@ == crc_generator_spec(),
        r@.len() == 33,
        r@[0] == 1,
        bits01(r@),
{
    let g: u64 = 0x104C11DB7;
    let mut r: Vec<u8> = Vec::new();
    for i in 0..33usize
        invariant
            r@.len() == i,
            forall|k: int| 0 <= k < i ==> r@[k] == gen_bit(k),
            bits01(r@),
    {
        let k: u64 = (32 - i) as u64;
        let b = ((g >> k) & 1) as u8;
        r.push(b);
        proof {
            assert(forall|x: u64, s: u64| #[trigger] ((x >> s) & 1) < 2) by (bit_vector);
        }
    }
    proof {
        assert(r@ =~= crc_generator_spec());
        assert(gen_bit(0) == 1) by (bit_vector);
    }
    r
}

/// Generate the 32-bit frame check sequence for `bits`.
#[verifier::loop_isolation(false)]
pub fn generate_crc_hash(bits: &Vec<u8>) -> (r: Vec<u8>)
    requires
        bits01(bits@),
        bits@.len() + 32 <= usize::MAX,
    ensures
        r@ == crc_hash_spec(bits@),
        r@.len() == 32,
        bits01(r@),
{
    let ghost s = bits@;
    let generator = crc_generator();
    let n = bits.len();
    let mut work: Vec<u8> = Vec::new();
    for i in 0..n
        invariant
            work@ == s.subrange(0, i as int),
    {
        let b = bits[i];
        work.push(b);
        proof {
            assert(work@ =~= s.subrange(0, i + 1));
        }
    }
    proof {
        assert(s.subrange(0, n as int) =~= s);
    }
    for i in 0..32usize
        invariant
            work@.len() == n + i,
            work@.subrange(0, n as int) =~= s,
            forall|k: int| n <= k < work@.len() ==> work@[k] == 0,
    {
        work.push(0);
    }
    proof {
        assert(work@ =~= s + zeros(32));
        assert(bits01(work@));
    }
    let remainder = xor_divide(&work, &generator);
    proof {
        crate::crc_laws::lemma_hash_window(s);
        crate::crc_laws::lemma_strip_structure(crc_hash_spec(s));
    }
    pad_to_checksum(remainder, Ghost(s))
}

/// Left-pad a remainder with zero bits back to the full 32-bit checksum.
#[verifier::loop_isolation(false)]
fn pad_to_checksum(remainder: Vec<u8>, Ghost(s): Ghost<Seq<u8>>) -> (r: Vec<u8>)
    requires
        remainder@.len() <= 32,
        bits01(remainder@),
        zeros((32 - remainder@.len()) as nat) + remainder@ == crc_hash_spec(s),
    ensures
        r@ == crc_hash_spec(s),
        r@.len() == 32,
        bits01(r@),
{
    let mut rem = remainder;
    while rem.len() < 32
        invariant
            rem@.len() <= 32,
            bits01(rem@),
            zeros((32 - rem@.len()) as nat) + rem@ == crc_hash_spec(s),
        decreases 32 - rem@.len(),
    {
        let ghost pre = rem@;
        rem.insert(0, 0);
        proof {
            assert(rem@ =~= pre.insert(0, 0u8));
            assert(zeros((32 - rem@.len()) as nat) + rem@ =~= zeros((32 - pre.len()) as nat)
                + pre);
        }
    }
    proof {
        assert(zeros(0) + rem@ =~= rem@);
    }
    rem
}

/// Append the 32-bit frame check sequence to the message.
#[verifier::loop_isolation(false)]
pub fn append_crc_hash(bits: &Vec<u8>) -> (r: Vec<u8>)
    requires
        bits01(bits@),
        bits@.len() + 32 <= usize::MAX,
    ensures
        r@ == bits@ + crc_hash_spec(bits@),
        bits01(r@),
{
    let ghost s = bits@;
    let mut hash = generate_crc_hash(bits);
    let n = bits.len();
    let mut out: Vec<u8> = Vec::new();
    for i in 0..n
        invariant
            out@ == s.subrange(0, i as int),
    {
        let b = bits[i];
        out.push(b);
        proof {
            assert(out@ =~= s.subrange(0, i + 1));
        }
    }
    proof {
        assert(s.subrange(0, n as int) =~= s);
    }
    out.append(&mut hash);
    proof {
        assert(out@ == s + crc_hash_spec(s));
    }
    out
}

/// Verify the received stream against the generator and strip the
/// checksum; a nonzero remainder is a checksum mismatch, a stream too
/// short to hold a checksum is malformed.
#[verifier::loop_isolation(false)]
pub fn recover_from_crc_hash(bits: &Vec<u8>) -> (r: Result<Vec<u8>, CodingError>)
    requires
        bits01(bits@),
    ensures
        (match r {
            Ok(v) => recover_crc_spec(bits@) == Result::<Seq<u8>, CodingError>::Ok(v@) && bits01(
                v@,
            ),
            Err(e) => recover_crc_spec(bits@) == Result::<Seq<u8>, CodingError>::Err(e),
        }),
{
    let ghost s = bits@;
    if bits.len() < 32 {
        return Err(CodingError::MalformedInput);
    }
    let generator = crc_generator();
    let verify = xor_divide(bits, &generator);
    if verify.len() == 1 && verify[0] == 0 {
        proof {
            assert(verify@ =~= seq![0u8]);
        }
        let n = bits.len() - 32;
        let mut out: Vec<u8> = Vec::new();
        for i in 0..n
            invariant
                out@ == s.subrange(0, i as int),
        {
            let b = bits[i];
            out.push(b);
            proof {
                assert(out@ =~= s.subrange(0, i + 1));
            }
        }
        Ok(out)
    } else {
        proof {
            if strip_spec(crc_residual(s)) == seq![0u8] {
                assert(verify@.len() == 1 && verify@[0] == 0);
            }
        }
        Err(CodingError::ChecksumMismatch)
    }
}

} // verus!
