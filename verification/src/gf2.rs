//! Arithmetic over GF(2): XOR addition of two bit vectors of possibly
//! unequal length, and binary long division of a bit vector by a divisor,
//! the engine under CRC generation and verification.
//!
//! Division keeps a working window of at most the divisor's length: each
//! dividend bit is appended to the window while it is short; once the
//! window is full, a leading `1` is cleared by XOR with the divisor, and a
//! leading `0` is dropped so the window shrinks for the next bit. The
//! final window, with leading zeros removed down to a single last bit, is
//! the remainder; an exact division leaves exactly `[0]`.

use crate::bits::bits01;
use vstd::prelude::*;

verus! {

/// XOR of `a` and `b` on their overlapping prefix; beyond the shorter
/// operand, the longer operand's bits pass through unchanged.
pub open spec fn xor_spec(a: Seq<u8>, b: Seq<u8>) -> Seq<u8> {
    Seq::new(
        if a.len() >= b.len() {
            a.len()
        } else {
            b.len()
        },
        |i: int|
            if i < a.len() && i < b.len() {
                ((a[i] + b[i]) % 2) as u8
            } else if i < a.len() {
                a[i]
            } else {
                b[i]
            },
    )
}

/// One step of binary long division: feed the next dividend bit `b` into
/// the working window `w` for divisor `d`.
pub open spec fn xdiv_step(w: Seq<u8>, d: Seq<u8>, b: u8) -> Seq<u8> {
    let w2 = if w.len() < d.len() {
        w.push(b)
    } else {
        w
    };
    if w2.len() == d.len() {
        let w3 = if w2[0] != 0 {
            xor_spec(w2, d)
        } else {
            w2
        };
        if w3[0] == 0 {
            w3.subrange(1, w3.len() as int)
        } else {
            w3
        }
    } else {
        w2
    }
}

/// The working window after feeding every bit of `s` into window `w`.
pub open spec fn xdiv_run(w: Seq<u8>, d: Seq<u8>, s: Seq<u8>) -> Seq<u8>
    decreases s.len(),
{
    if s.len() == 0 {
        w
    } else {
        xdiv_run(xdiv_step(w, d, s[0]), d, s.subrange(1, s.len() as int))
    }
}

/// Leading zeros removed, but never the last bit: an all-zero window
/// collapses to `[0]`.
pub open spec fn strip_spec(s: Seq<u8>) -> Seq<u8>
    decreases s.len(),
{
    if s.len() <= 1 {
        s
    } else if s[0] == 0 {
        strip_spec(s.subrange(1, s.len() as int))
    } else {
        s
    }
}

/// The remainder of dividing `s` by `d`, as `xor_divide` returns it.
pub open spec fn xdiv_spec(s: Seq<u8>, d: Seq<u8>) -> Seq<u8> {
    strip_spec(xdiv_run(Seq::empty(), d, s))
}

/// Feeding the bits of `s` and then one more bit `b` is one step past
/// feeding `s` alone.
pub proof fn lemma_xdiv_run_push(w: Seq<u8>, d: Seq<u8>, s: Seq<u8>, b: u8)
    ensures
        xdiv_run(w, d, s.push(b)) == xdiv_step(xdiv_run(w, d, s), d, b),
    decreases s.len(),
{
    if s.len() == 0 {
        assert(s.push(b)[0] == b);
        assert(s.push(b).subrange(1, 1) =~= Seq::<u8>::empty());
        assert(xdiv_run(w, d, s.push(b)) == xdiv_run(xdiv_step(w, d, b), d, Seq::empty()));
        assert(xdiv_run(xdiv_step(w, d, b), d, Seq::empty()) == xdiv_step(w, d, b));
        assert(xdiv_run(w, d, s) == w);
    } else {
        assert(s.push(b)[0] == s[0]);
        assert(s.push(b).subrange(1, s.len() as int + 1) =~= s.subrange(1, s.len() as int).push(b));
        assert(xdiv_run(w, d, s.push(b)) == xdiv_run(
            xdiv_step(w, d, s[0]),
            d,
            s.subrange(1, s.len() as int).push(b),
        ));
        lemma_xdiv_run_push(xdiv_step(w, d, s[0]), d, s.subrange(1, s.len() as int), b);
        assert(xdiv_run(w, d, s) == xdiv_run(xdiv_step(w, d, s[0]), d, s.subrange(1, s.len() as int)));
    }
}

/// XOR addition of two binary vectors: XOR on the common prefix, the
/// longer vector's tail copied through.
pub fn xor(a: &Vec<u8>, b: &Vec<u8>) -> (r: Vec<u8>)
    requires
        bits01(a@),
        bits01(b@),
    ensures
        r@ == xor_spec(a@, b@),
        bits01(r@),
{
    let n = if a.len() >= b.len() {
        a.len()
    } else {
        b.len()
    };
    let mut r: Vec<u8> = Vec::new();
    for i in 0..n
        invariant
            n == xor_spec(a@, b@).len(),
            bits01(a@),
            bits01(b@),
            r@ =~= xor_spec(a@, b@).subrange(0, i as int),
            bits01(r@),
    {
        let v: u8 = if i < a.len() && i < b.len() {
            (a[i] + b[i]) % 2
        } else if i < a.len() {
            a[i]
        } else {
            b[i]
        };
        r.push(v);
        proof {
            assert(r@ =~= xor_spec(a@, b@).subrange(0, i + 1));
        }
    }
    proof {
        assert(r@ =~= xor_spec(a@, b@));
    }
    r
}

/// Binary long division of `dividend` by `divisor`, returning the
/// remainder with leading zeros stripped down to at least one bit.
pub fn xor_divide(dividend: &Vec<u8>, divisor: &Vec<u8>) -> (r: Vec<u8>)
    requires
        dividend@.len() >= 1,
        divisor@.len() >= 2,
        bits01(dividend@),
        bits01(divisor@),
    ensures
        r@ == xdiv_spec(dividend@, divisor@),
        bits01(r@),
        r@.len() >= 1,
{
    let length = divisor.len();
    let mut current: Vec<u8> = Vec::new();
    let n = dividend.len();
    for k in 0..n
        invariant
            n == dividend@.len(),
            length == divisor@.len(),
            divisor@.len() >= 2,
            bits01(dividend@),
            bits01(divisor@),
            current@ == xdiv_run(Seq::empty(), divisor@, dividend@.subrange(0, k as int)),
            bits01(current@),
            current@.len() <= divisor@.len(),
            k >= 1 ==> current@.len() >= 1,
    {
        let ghost pre = current@;
        let x = dividend[k];
        if current.len() < length {
            current.push(x);
        }
        if current.len() == length {
            if current[0] != 0 {
                current = xor(&current, divisor);
            }
            if current[0] == 0 {
                current.remove(0);
            }
        }
        proof {
            assert(dividend@.subrange(0, k + 1) =~= dividend@.subrange(0, k as int).push(
                dividend@[k as int],
            ));
            lemma_xdiv_run_push(Seq::empty(), divisor@, dividend@.subrange(0, k as int), x);
            assert(xdiv_step(pre, divisor@, x).len() <= divisor@.len());
            assert(current@ =~= xdiv_step(pre, divisor@, x));
        }
    }
    proof {
        assert(dividend@.subrange(0, n as int) =~= dividend@);
    }
    let ghost target = xdiv_run(Seq::empty(), divisor@, dividend@);
    while current.len() > 1 && current[0] == 0
        invariant
            current@.len() >= 1,
            bits01(current@),
            strip_spec(current@) == strip_spec(target),
        decreases current@.len(),
    {
        let ghost pre = current@;
        current.remove(0);
        proof {
            assert(current@ =~= pre.subrange(1, pre.len() as int));
        }
    }
    proof {
        assert(strip_spec(current@) == current@);
    }
    current
}

} // verus!
