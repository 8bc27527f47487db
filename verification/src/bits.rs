//! Lossless conversion between byte sequences and their big-endian
//! (most-significant-bit first) bit sequences.
//!
//! A bit is carried as a `u8` that is `0` or `1`; `bits01` states that
//! convention. `bits_to_bytes` zero-pads on the right up to the next
//! multiple of eight, and adds no padding when the length is already a
//! multiple of eight, so converting bytes to bits and back is the identity.

use vstd::prelude::*;

verus! {

/// Every element of `s` is a binary digit.
pub open spec fn bits01(s: Seq<u8>) -> bool {
    forall|i: int| 0 <= i < s.len() ==> s[i] == 0 || s[i] == 1
}

/// Bit `i` of byte `b`, counting from the most significant bit.
pub open spec fn bit_at(b: u8, i: int) -> u8 {
    (b >> ((7 - i) as u8)) & 1
}

/// The eight bits of `b`, most significant first.
pub open spec fn byte_bits(b: u8) -> Seq<u8> {
    Seq::new(8, |i: int| bit_at(b, i))
}

/// The value of a bit sequence read most-significant-bit first.
pub open spec fn bits_value(s: Seq<u8>) -> nat
    decreases s.len(),
{
    if s.len() == 0 {
        0
    } else {
        bits_value(s.drop_last()) * 2 + s.last() as nat
    }
}

/// Extending a prefix by one bit doubles its value and adds that bit.
proof fn lemma_bits_value_snoc(s: Seq<u8>, k: int)
    requires
        0 <= k < s.len(),
    ensures
        bits_value(s.subrange(0, k + 1)) == bits_value(s.subrange(0, k)) * 2 + s[k],
{
    assert(s.subrange(0, k + 1).drop_last() =~= s.subrange(0, k));
    assert(s.subrange(0, k + 1).last() == s[k]);
}

/// A byte's bits, weighted by descending powers of two, give the byte back.
proof fn lemma_byte_bits_value(b: u8)
    ensures
        bits_value(byte_bits(b)) == b,
{
    let s = byte_bits(b);
    assert(s =~= s.subrange(0, 8));
    lemma_bits_value_snoc(s, 0);
    lemma_bits_value_snoc(s, 1);
    lemma_bits_value_snoc(s, 2);
    lemma_bits_value_snoc(s, 3);
    lemma_bits_value_snoc(s, 4);
    lemma_bits_value_snoc(s, 5);
    lemma_bits_value_snoc(s, 6);
    lemma_bits_value_snoc(s, 7);
    assert(s.subrange(0, 0) =~= Seq::<u8>::empty());
    assert(bits_value(s.subrange(0, 0)) == 0);
    assert(b == ((b >> 7) & 1) * 128 + ((b >> 6) & 1) * 64 + ((b >> 5) & 1) * 32 + ((b >> 4)
        & 1) * 16 + ((b >> 3) & 1) * 8 + ((b >> 2) & 1) * 4 + ((b >> 1) & 1) * 2 + ((b >> 0)
        & 1)) by (bit_vector);
}

/// The most-significant-bit-first binary expansion of a single byte.
pub fn byte_to_bits(byte: u8) -> (r: Vec<u8>)
    ensures
        r@ == byte_bits(byte),
        r@.len() == 8,
        bits01(r@),
{
    let mut r: Vec<u8> = Vec::new();
    r.push((byte >> 7) & 1);
    r.push((byte >> 6) & 1);
    r.push((byte >> 5) & 1);
    r.push((byte >> 4) & 1);
    r.push((byte >> 3) & 1);
    r.push((byte >> 2) & 1);
    r.push((byte >> 1) & 1);
    r.push(byte & 1);
    proof {
        assert(byte & 1 == (byte >> 0) & 1) by (bit_vector);
        assert(forall|b: u8| #[trigger] ((b >> 7) & 1) < 2) by (bit_vector);
        assert(forall|b: u8| #[trigger] ((b >> 6) & 1) < 2) by (bit_vector);
        assert(forall|b: u8| #[trigger] ((b >> 5) & 1) < 2) by (bit_vector);
        assert(forall|b: u8| #[trigger] ((b >> 4) & 1) < 2) by (bit_vector);
        assert(forall|b: u8| #[trigger] ((b >> 3) & 1) < 2) by (bit_vector);
        assert(forall|b: u8| #[trigger] ((b >> 2) & 1) < 2) by (bit_vector);
        assert(forall|b: u8| #[trigger] ((b >> 1) & 1) < 2) by (bit_vector);
        assert(forall|b: u8| #[trigger] ((b >> 0) & 1) < 2) by (bit_vector);
        assert(r@ =~= byte_bits(byte));
    }
    r
}

/// The byte whose most-significant-bit-first expansion is the given
/// eight bits.
pub fn bits_to_byte(bits: &Vec<u8>) -> (r: u8)
    requires
        bits@.len() == 8,
        bits01(bits@),
    ensures
        r as nat == bits_value(bits@),
{
    let mut acc: u8 = 0;
    acc = acc * 2 + bits[0];
    acc = acc * 2 + bits[1];
    acc = acc * 2 + bits[2];
    acc = acc * 2 + bits[3];
    acc = acc * 2 + bits[4];
    acc = acc * 2 + bits[5];
    acc = acc * 2 + bits[6];
    acc = acc * 2 + bits[7];
    proof {
        let s = bits@;
        assert(s =~= s.subrange(0, 8));
        assert(s.subrange(0, 0) =~= Seq::<u8>::empty());
        lemma_bits_value_snoc(s, 0);
        lemma_bits_value_snoc(s, 1);
        lemma_bits_value_snoc(s, 2);
        lemma_bits_value_snoc(s, 3);
        lemma_bits_value_snoc(s, 4);
        lemma_bits_value_snoc(s, 5);
        lemma_bits_value_snoc(s, 6);
        lemma_bits_value_snoc(s, 7);
    }
    acc
}


/// The bits of a whole byte sequence, each byte expanded most
/// significant bit first.
pub open spec fn bytes_bits(bs: Seq<u8>) -> Seq<u8>
    decreases bs.len(),
{
    if bs.len() == 0 {
        Seq::empty()
    } else {
        bytes_bits(bs.drop_last()) + byte_bits(bs.last())
    }
}

/// Zero bits bringing a length up to the next multiple of eight;
/// nothing when it already is one.
pub open spec fn pad8_len(n: nat) -> nat {
    (((8 - n % 8) % 8) as nat)
}

/// The input with zero bits appended up to a multiple of eight.
pub open spec fn padded8(s: Seq<u8>) -> Seq<u8> {
    s + Seq::new(pad8_len(s.len()), |i: int| 0u8)
}

/// The bytes read off the padded bit sequence, eight bits at a time.
pub open spec fn bits_bytes(s: Seq<u8>) -> Seq<u8> {
    Seq::new(
        padded8(s).len() / 8,
        |j: int| (bits_value(padded8(s).subrange(8 * j, 8 * j + 8)) as u8),
    )
}

/// Bit `i` of a byte sequence's expansion is bit `i % 8` of byte `i / 8`.
pub proof fn lemma_bytes_bits_index(bs: Seq<u8>)
    ensures
        bytes_bits(bs).len() == 8 * bs.len(),
        forall|i: int|
            0 <= i < 8 * bs.len() ==> bytes_bits(bs)[i] == bit_at(bs[i / 8], i % 8),
        bits01(bytes_bits(bs)),
    decreases bs.len(),
{
    if bs.len() > 0 {
        lemma_bytes_bits_index(bs.drop_last());
        let n = bs.len() as int;
        assert forall|i: int| 0 <= i < 8 * n implies bytes_bits(bs)[i] == bit_at(
            bs[i / 8],
            i % 8,
        ) by {
            if i < 8 * (n - 1) {
                assert(bytes_bits(bs)[i] == bytes_bits(bs.drop_last())[i]);
                assert(bs.drop_last()[i / 8] == bs[i / 8]) by {
                    vstd::arithmetic::div_mod::lemma_fundamental_div_mod(i, 8);
                    if i / 8 >= n - 1 {
                        assert(false);
                    }
                    if i / 8 < 0 {
                        assert(false);
                    }
                }
            } else {
                assert(bytes_bits(bs)[i] == byte_bits(bs.last())[i - 8 * (n - 1)]);
                vstd::arithmetic::div_mod::lemma_fundamental_div_mod_converse(
                    i,
                    8,
                    n - 1,
                    i - 8 * (n - 1),
                );
                assert(bit_at(bs[n - 1], i % 8) == byte_bits(bs.last())[i - 8 * (n - 1)]);
            }
        }
        assert forall|i: int| 0 <= i < bytes_bits(bs).len() implies bytes_bits(bs)[i] == 0
            || bytes_bits(bs)[i] == 1 by {
            assert(bit_at(bs[i / 8], i % 8) < 2) by {
                let b = bs[i / 8];
                let k = (7 - i % 8) as u8;
                assert(((b >> k) & 1) < 2) by (bit_vector);
            }
        }
    }
}

/// Converting bytes to bits and back returns the original bytes: the
/// expansion's length is a multiple of eight, so no padding intervenes.
pub proof fn lemma_bytes_round_trip(bs: Seq<u8>)
    ensures
        bits_bytes(bytes_bits(bs)) == bs,
{
    lemma_bytes_bits_index(bs);
    let s = bytes_bits(bs);
    let n = bs.len() as int;
    vstd::arithmetic::div_mod::lemma_mod_multiples_vanish(n, 0, 8);
    assert(s.len() as int % 8 == 0);
    assert(pad8_len(s.len()) == 0);
    assert(padded8(s) =~= s);
    vstd::arithmetic::div_mod::lemma_fundamental_div_mod_converse(8 * n, 8, n, 0);
    assert(padded8(s).len() / 8 == n);
    assert forall|j: int| 0 <= j < n implies bits_bytes(s)[j] == bs[j] by {
        assert(s.subrange(8 * j, 8 * j + 8) =~= byte_bits(bs[j])) by {
            assert forall|k: int| 0 <= k < 8 implies s.subrange(8 * j, 8 * j + 8)[k] == byte_bits(
                bs[j],
            )[k] by {
                let i = 8 * j + k;
                vstd::arithmetic::div_mod::lemma_fundamental_div_mod_converse(i, 8, j, k);
                assert(s[i] == bit_at(bs[i / 8], i % 8));
            }
        }
        lemma_byte_bits_value(bs[j]);
    }
    assert(bits_bytes(s) =~= bs);
}

/// The elementwise extension of `byte_to_bits` to a byte sequence.
#[verifier::loop_isolation(false)]
pub fn bytes_to_bits(bytes: &Vec<u8>) -> (r: Vec<u8>)
    requires
        bytes@.len() * 8 <= usize::MAX,
    ensures
        r@ == bytes_bits(bytes@),
        r@.len() == 8 * bytes@.len(),
        bits01(r@),
{
    proof {
        lemma_bytes_bits_index(bytes@);
    }
    let mut r: Vec<u8> = Vec::new();
    for i in 0..bytes.len()
        invariant
            r@ == bytes_bits(bytes@.subrange(0, i as int)),
            bits01(r@),
    {
        let mut bb = byte_to_bits(bytes[i]);
        r.append(&mut bb);
        proof {
            assert(bytes@.subrange(0, i + 1).drop_last() =~= bytes@.subrange(0, i as int));
            assert(bytes@.subrange(0, i + 1).last() == bytes@[i as int]);
        }
    }
    proof {
        assert(bytes@.subrange(0, bytes@.len() as int) =~= bytes@);
    }
    r
}

/// The inverse extension: pad with zero bits to whole bytes, then read
/// each group of eight back into a byte. A length that is already a
/// multiple of eight receives no padding.
#[verifier::loop_isolation(false)]
#[verifier::rlimit(60)]
pub fn bits_to_bytes(bits: &Vec<u8>) -> (r: Vec<u8>)
    requires
        bits01(bits@),
        bits@.len() + 8 <= usize::MAX,
    ensures
        r@ == bits_bytes(bits@),
{
    let ghost s = bits@;
    let n = bits.len();
    let padl = (8 - n % 8) % 8;
    proof {
        assert(padl == pad8_len(s.len()));
        vstd::arithmetic::div_mod::lemma_fundamental_div_mod(n as int, 8);
        if n % 8 != 0 {
            vstd::arithmetic::div_mod::lemma_fundamental_div_mod_converse(
                (n + padl) as int,
                8,
                (n as int) / 8 + 1,
                0,
            );
        } else {
            vstd::arithmetic::div_mod::lemma_fundamental_div_mod_converse(
                (n + padl) as int,
                8,
                (n as int) / 8,
                0,
            );
        }
    }
    let mut work: Vec<u8> = Vec::new();
    for i in 0..n
        invariant
            work@ == s.subrange(0, i as int),
    {
        let b = bits[i];
        work.push(b);
        proof {
            assert(work@ =~= s.subrange(0, i + 1));
        }
    }
    proof {
        assert(s.subrange(0, n as int) =~= s);
    }
    for i in 0..padl
        invariant
            work@.len() == n + i,
            work@.subrange(0, n as int) =~= s,
            forall|k: int| n <= k < work@.len() ==> work@[k] == 0,
    {
        work.push(0);
    }
    proof {
        assert(work@ =~= padded8(s));
    }
    let groups = (n + padl) / 8;
    let mut out: Vec<u8> = Vec::new();
    for j in 0..groups
        invariant
            work@ == padded8(s),
            work@.len() == n + padl,
            (n + padl) as int == 8 * (groups as int),
            out@.len() == j,
            forall|m: int| 0 <= m < j ==> out@[m] == bits_bytes(s)[m],
    {
        let mut chunk: Vec<u8> = Vec::new();
        proof {
            assert(8 * (j as int + 1) <= 8 * (groups as int));
        }
        for t in 0..8
            invariant
                chunk@ =~= work@.subrange(8 * (j as int), 8 * (j as int) + t),
        {
            let b = work[8 * j + t];
            chunk.push(b);
            proof {
                assert(chunk@ =~= work@.subrange(8 * (j as int), 8 * (j as int) + t + 1));
            }
        }
        proof {
            assert(bits01(chunk@));
        }
        let byte = bits_to_byte(&chunk);
        out.push(byte);
        proof {
            assert(bits_bytes(s)[j as int] == (bits_value(
                padded8(s).subrange(8 * (j as int), 8 * (j as int) + 8),
            ) as u8));
        }
    }
    proof {
        assert(out@ =~= bits_bytes(s));
    }
    out
}

} // verus!