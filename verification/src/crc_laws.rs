//! Laws of the GF(2) division window and the CRC codec, ending in the
//! round trip: appending a message's checksum and decoding returns the
//! message.
//!
//! The key facts: the window after a full run has a fixed length and is
//! a GF(2)-linear function of the dividend, and a dividend of zeros
//! followed by a 32-bit tail leaves exactly that tail in the window. The
//! round trip follows: the stream `message ++ checksum` is the XOR of
//! `message ++ zeros` with `zeros ++ checksum`, so its window is the
//! checksum XORed with itself, which vanishes.

use crate::bits::bits01;
use crate::crc::crc_generator_spec;
use crate::crc::crc_hash_spec;
use crate::crc::crc_residual;
use crate::crc::recover_crc_spec;
use crate::crc::zeros;
use crate::errors::CodingError;
use crate::gf2::lemma_xdiv_run_push;
use crate::gf2::strip_spec;
use crate::gf2::xdiv_run;
use crate::gf2::xdiv_step;
use crate::gf2::xor_spec;
use vstd::prelude::*;

verus! {

/// One division step keeps the bits binary and grows the window up to
/// its resting width of one less than the divisor.
proof fn lemma_step_props(w: Seq<u8>, d: Seq<u8>, b: u8)
    requires
        d.len() >= 2,
        d[0] == 1,
        bits01(w),
        bits01(d),
        b == 0 || b == 1,
        w.len() <= d.len() - 1,
    ensures
        xdiv_step(w, d, b).len() == (if w.len() + 1 <= d.len() - 1 {
            w.len() + 1
        } else {
            (d.len() - 1) as nat
        }),
        bits01(xdiv_step(w, d, b)),
{
    let w2 = w.push(b);
    assert(bits01(w2));
    if w2.len() == d.len() {
        let w3 = if w2[0] != 0 {
            xor_spec(w2, d)
        } else {
            w2
        };
        assert(bits01(w3));
        assert(w3[0] == 0);
        assert(bits01(w3.subrange(1, w3.len() as int)));
    }
}

/// After a full run the window holds the last `divisor - 1` positions'
/// worth of reduction state, binary throughout.
proof fn lemma_run_props(w: Seq<u8>, d: Seq<u8>, s: Seq<u8>)
    requires
        d.len() >= 2,
        d[0] == 1,
        bits01(w),
        bits01(d),
        bits01(s),
        w.len() <= d.len() - 1,
    ensures
        xdiv_run(w, d, s).len() == (if w.len() + s.len() <= d.len() - 1 {
            w.len() + s.len()
        } else {
            (d.len() - 1) as nat
        }),
        bits01(xdiv_run(w, d, s)),
    decreases s.len(),
{
    if s.len() > 0 {
        lemma_step_props(w, d, s[0]);
        assert(bits01(s.subrange(1, s.len() as int)));
        lemma_run_props(xdiv_step(w, d, s[0]), d, s.subrange(1, s.len() as int));
    }
}

/// The generator is 33 binary bits with a leading one.
proof fn lemma_generator_facts()
    ensures
        crc_generator_spec().len() == 33,
        crc_generator_spec()[0] == 1,
        bits01(crc_generator_spec()),
{
    assert(crc_generator_spec()[0] == 1) by {
        assert(((0x104C11DB7u64 >> 32u64) & 1) == 1) by (bit_vector);
    }
    assert forall|i: int| 0 <= i < 33 implies crc_generator_spec()[i] == 0
        || crc_generator_spec()[i] == 1 by {
        let k = (32 - i) as u64;
        assert(((0x104C11DB7u64 >> k) & 1) < 2) by (bit_vector);
    }
}

/// A message's checksum window is exactly 32 binary bits.
pub proof fn lemma_hash_window(s: Seq<u8>)
    requires
        bits01(s),
    ensures
        crc_hash_spec(s).len() == 32,
        bits01(crc_hash_spec(s)),
{
    lemma_generator_facts();
    assert(bits01(s + zeros(32)));
    lemma_run_props(Seq::empty(), crc_generator_spec(), s + zeros(32));
}

/// Stripping removes only leading zeros, and never the last bit: the
/// stripped remainder put back behind its zeros is the original window.
pub proof fn lemma_strip_structure(s: Seq<u8>)
    requires
        s.len() >= 1,
        bits01(s),
    ensures
        1 <= strip_spec(s).len() <= s.len(),
        bits01(strip_spec(s)),
        zeros((s.len() - strip_spec(s).len()) as nat) + strip_spec(s) == s,
    decreases s.len(),
{
    if s.len() <= 1 {
        assert(zeros(0) + s =~= s);
    } else if s[0] == 0 {
        let tail = s.subrange(1, s.len() as int);
        assert(bits01(tail));
        lemma_strip_structure(tail);
        assert(strip_spec(s) == strip_spec(tail));
        let k = (tail.len() - strip_spec(tail).len()) as nat;
        assert(zeros(k) + strip_spec(tail) == tail);
        assert forall|i: int|
            0 <= i < s.len() implies (zeros((k + 1) as nat) + strip_spec(s))[i] == s[i] by {
            if i >= 1 {
                assert(s[i] == tail[i - 1]);
                assert((zeros(k) + strip_spec(tail))[i - 1] == tail[i - 1]);
            }
        }
        assert(zeros((s.len() - strip_spec(s).len()) as nat) + strip_spec(s) =~= s);
    } else {
        assert(zeros(0) + s =~= s);
    }
}

/// An all-zero window strips to exactly `[0]`.
proof fn lemma_strip_zeros(n: nat)
    requires
        n >= 1,
    ensures
        strip_spec(zeros(n)) == seq![0u8],
    decreases n,
{
    if n == 1 {
        assert(zeros(1) =~= seq![0u8]);
    } else {
        assert(zeros(n).subrange(1, n as int) =~= zeros((n - 1) as nat));
        lemma_strip_zeros((n - 1) as nat);
    }
}

/// One step is GF(2)-linear in the window and the incoming bit.
proof fn lemma_step_linear(w1: Seq<u8>, w2: Seq<u8>, d: Seq<u8>, b1: u8, b2: u8)
    requires
        d.len() >= 2,
        d[0] == 1,
        w1.len() == w2.len(),
        w1.len() <= d.len() - 1,
        bits01(w1),
        bits01(w2),
        bits01(d),
        b1 == 0 || b1 == 1,
        b2 == 0 || b2 == 1,
    ensures
        xdiv_step(xor_spec(w1, w2), d, (((b1 + b2) % 2) as u8)) == xor_spec(
            xdiv_step(w1, d, b1),
            xdiv_step(w2, d, b2),
        ),
{
    let bx = ((b1 + b2) % 2) as u8;
    let wx = xor_spec(w1, w2);
    let u1 = w1.push(b1);
    let u2 = w2.push(b2);
    let ux = wx.push(bx);
    assert(ux =~= xor_spec(u1, u2));
    if u1.len() < d.len() {
        assert(xdiv_step(wx, d, bx) == ux);
        assert(xdiv_step(w1, d, b1) == u1);
        assert(xdiv_step(w2, d, b2) == u2);
    } else {
        let L = d.len() as int;
        let c1 = if u1[0] != 0 {
            xor_spec(u1, d)
        } else {
            u1
        };
        let c2 = if u2[0] != 0 {
            xor_spec(u2, d)
        } else {
            u2
        };
        let cx = if ux[0] != 0 {
            xor_spec(ux, d)
        } else {
            ux
        };
        assert(c1[0] == 0);
        assert(c2[0] == 0);
        assert(cx[0] == 0);
        assert(xdiv_step(w1, d, b1) == c1.subrange(1, L));
        assert(xdiv_step(w2, d, b2) == c2.subrange(1, L));
        assert(xdiv_step(wx, d, bx) == cx.subrange(1, L));
        assert forall|k: int| 0 <= k < L - 1 implies cx.subrange(1, L)[k] == xor_spec(
            c1.subrange(1, L),
            c2.subrange(1, L),
        )[k] by {
            let a1 = u1[k + 1];
            let a2 = u2[k + 1];
            let dd = d[k + 1];
            assert(a1 == 0 || a1 == 1);
            assert(a2 == 0 || a2 == 1);
            assert(dd == 0 || dd == 1);
            assert(ux[k + 1] == ((a1 + a2) % 2) as u8);
            assert(ux[0] == ((u1[0] + u2[0]) % 2) as u8);
        }
        assert(cx.subrange(1, L) =~= xor_spec(c1.subrange(1, L), c2.subrange(1, L)));
    }
}

/// A full run is GF(2)-linear in the initial window and the dividend.
proof fn lemma_run_linear(w1: Seq<u8>, w2: Seq<u8>, d: Seq<u8>, s1: Seq<u8>, s2: Seq<u8>)
    requires
        d.len() >= 2,
        d[0] == 1,
        w1.len() == w2.len(),
        w1.len() <= d.len() - 1,
        s1.len() == s2.len(),
        bits01(w1),
        bits01(w2),
        bits01(d),
        bits01(s1),
        bits01(s2),
    ensures
        xdiv_run(xor_spec(w1, w2), d, xor_spec(s1, s2)) == xor_spec(
            xdiv_run(w1, d, s1),
            xdiv_run(w2, d, s2),
        ),
    decreases s1.len(),
{
    let sx = xor_spec(s1, s2);
    if s1.len() == 0 {
        assert(sx.len() == 0);
    } else {
        assert(sx[0] == ((s1[0] + s2[0]) % 2) as u8);
        lemma_step_linear(w1, w2, d, s1[0], s2[0]);
        lemma_step_props(w1, d, s1[0]);
        lemma_step_props(w2, d, s2[0]);
        assert(sx.subrange(1, sx.len() as int) =~= xor_spec(
            s1.subrange(1, s1.len() as int),
            s2.subrange(1, s2.len() as int),
        ));
        assert(bits01(s1.subrange(1, s1.len() as int)));
        assert(bits01(s2.subrange(1, s2.len() as int)));
        lemma_run_linear(
            xdiv_step(w1, d, s1[0]),
            xdiv_step(w2, d, s2[0]),
            d,
            s1.subrange(1, s1.len() as int),
            s2.subrange(1, s2.len() as int),
        );
        assert(xdiv_run(xor_spec(w1, w2), d, sx) == xdiv_run(
            xdiv_step(xor_spec(w1, w2), d, sx[0]),
            d,
            sx.subrange(1, sx.len() as int),
        ));
    }
}

/// Feeding only zeros leaves an all-zero window.
proof fn lemma_run_zeros(d: Seq<u8>, m: nat)
    requires
        d.len() >= 2,
        bits01(d),
    ensures
        xdiv_run(Seq::empty(), d, zeros(m)) == zeros(
            if m <= d.len() - 1 {
                m
            } else {
                (d.len() - 1) as nat
            },
        ),
    decreases m,
{
    if m == 0 {
        assert(zeros(0) =~= Seq::<u8>::empty());
        assert(xdiv_run(Seq::empty(), d, zeros(0)) == Seq::<u8>::empty());
    } else {
        lemma_run_zeros(d, (m - 1) as nat);
        assert(zeros(m) =~= zeros((m - 1) as nat).push(0u8));
        lemma_xdiv_run_push(Seq::empty(), d, zeros((m - 1) as nat), 0u8);
        let k: nat = if m - 1 <= d.len() - 1 {
            (m - 1) as nat
        } else {
            (d.len() - 1) as nat
        };
        let w2 = zeros(k).push(0u8);
        assert(w2 =~= zeros(k + 1));
        if k + 1 == d.len() {
            assert(w2[0] == 0);
            assert(xdiv_step(zeros(k), d, 0u8) =~= zeros((d.len() - 1) as nat));
        } else {
            assert(xdiv_step(zeros(k), d, 0u8) =~= zeros(k + 1));
        }
    }
}

/// A short dividend is only appended: no reduction happens.
proof fn lemma_run_short(w: Seq<u8>, d: Seq<u8>, s: Seq<u8>)
    requires
        d.len() >= 2,
        w.len() + s.len() <= d.len() - 1,
    ensures
        xdiv_run(w, d, s) == w + s,
    decreases s.len(),
{
    if s.len() == 0 {
        assert(w + s =~= w);
    } else {
        assert(xdiv_step(w, d, s[0]) == w.push(s[0]));
        lemma_run_short(w.push(s[0]), d, s.subrange(1, s.len() as int));
        assert(w.push(s[0]) + s.subrange(1, s.len() as int) =~= w + s);
    }
}

/// Zeros followed by a resting-width tail leave exactly that tail.
proof fn lemma_run_absorb(d: Seq<u8>, m: nat, t: Seq<u8>, j: int)
    requires
        d.len() >= 2,
        bits01(d),
        bits01(t),
        m >= 1,
        t.len() == d.len() - 1,
        0 <= j <= t.len(),
    ensures
        xdiv_run(Seq::empty(), d, zeros(m) + t.subrange(0, j)) == zeros(
            (if m + j <= d.len() - 1 {
                m as int
            } else {
                d.len() - 1 - j
            }) as nat,
        ) + t.subrange(0, j),
    decreases j,
{
    let L = d.len() as int;
    if j == 0 {
        assert(zeros(m) + t.subrange(0, 0) =~= zeros(m));
        lemma_run_zeros(d, m);
        let z: nat = if m <= L - 1 {
            m
        } else {
            (L - 1) as nat
        };
        assert(zeros(z) + t.subrange(0, 0) =~= zeros(z));
    } else {
        lemma_run_absorb(d, m, t, j - 1);
        let zprev: nat = (if m + j - 1 <= L - 1 {
            m as int
        } else {
            L - 1 - (j - 1)
        }) as nat;
        let prev = zeros(zprev) + t.subrange(0, j - 1);
        assert(zeros(m) + t.subrange(0, j) =~= (zeros(m) + t.subrange(0, j - 1)).push(t[j - 1]));
        lemma_xdiv_run_push(Seq::empty(), d, zeros(m) + t.subrange(0, j - 1), t[j - 1]);
        assert(zprev >= 1);
        let w2 = prev.push(t[j - 1]);
        assert(w2.len() == zprev + j);
        assert(w2[0] == 0);
        if w2.len() == L {
            assert(xdiv_step(prev, d, t[j - 1]) == w2.subrange(1, L));
            assert(w2.subrange(1, L) =~= zeros((zprev - 1) as nat) + t.subrange(0, j));
        } else {
            assert(xdiv_step(prev, d, t[j - 1]) == w2);
            assert(w2 =~= zeros(zprev) + t.subrange(0, j));
        }
    }
}

/// A dividend of zeros followed by any 32-bit tail leaves that tail as
/// the window.
proof fn lemma_residual_of_padded_tail(m: nat, t: Seq<u8>)
    requires
        bits01(t),
        t.len() == 32,
    ensures
        xdiv_run(Seq::empty(), crc_generator_spec(), zeros(m) + t) == t,
{
    lemma_generator_facts();
    let d = crc_generator_spec();
    if m == 0 {
        assert(zeros(0) + t =~= t);
        lemma_run_short(Seq::empty(), d, t);
        assert(Seq::<u8>::empty() + t =~= t);
    } else {
        lemma_run_absorb(d, m, t, 32);
        assert(t.subrange(0, 32) =~= t);
        assert(zeros(0) + t =~= t);
    }
}

/// A freshly encoded stream divides out exactly: its residual window is
/// all zeros.
proof fn lemma_sent_residual(v: Seq<u8>)
    requires
        bits01(v),
    ensures
        crc_residual(v + crc_hash_spec(v)) == zeros(32),
{
    lemma_generator_facts();
    lemma_hash_window(v);
    let d = crc_generator_spec();
    let hash = crc_hash_spec(v);
    let d1 = v + zeros(32);
    let d2 = zeros(v.len()) + hash;
    assert(bits01(d1));
    assert(bits01(d2));
    assert(xor_spec(d1, d2) =~= v + hash);
    assert(xor_spec(Seq::empty(), Seq::empty()) =~= Seq::<u8>::empty());
    lemma_run_linear(Seq::empty(), Seq::empty(), d, d1, d2);
    lemma_residual_of_padded_tail(v.len(), hash);
    assert(crc_residual(v + hash) == xor_spec(hash, hash));
    assert(xor_spec(hash, hash) =~= zeros(32));
}

/// Appending a message's checksum and decoding returns the message
/// unchanged, with no error, for every binary message.
pub proof fn lemma_crc_round_trip(v: Seq<u8>)
    requires
        bits01(v),
    ensures
        recover_crc_spec(v + crc_hash_spec(v)) == Result::<Seq<u8>, CodingError>::Ok(v),
{
    lemma_hash_window(v);
    lemma_sent_residual(v);
    let hash = crc_hash_spec(v);
    let n = v.len() as int;
    lemma_strip_zeros(32);
    assert(strip_spec(crc_residual(v + hash)) == seq![0u8]);
    assert((v + hash).subrange(0, n) =~= v);
}

/// Flipping any single bit among the last 32 bits of a freshly encoded
/// stream is caught: decoding fails with a checksum mismatch.
pub proof fn lemma_crc_flip_in_checksum_detected(v: Seq<u8>, i: int)
    requires
        bits01(v),
        v.len() <= i < v.len() + 32,
    ensures
        recover_crc_spec(
            (v + crc_hash_spec(v)).update(
                i,
                crate::parity::flip_bit((v + crc_hash_spec(v))[i]),
            ),
        ) == Result::<Seq<u8>, CodingError>::Err(CodingError::ChecksumMismatch),
{
    lemma_generator_facts();
    lemma_hash_window(v);
    lemma_sent_residual(v);
    let d = crc_generator_spec();
    let hash = crc_hash_spec(v);
    let sent = v + hash;
    let n = sent.len() as int;
    let j = i - v.len();
    let t = Seq::new(32, |k: int| if k == j {
        1u8
    } else {
        0u8
    });
    assert(bits01(t));
    let u = zeros(v.len()) + t;
    assert(bits01(sent));
    assert(bits01(u));
    let corrupted = sent.update(i, crate::parity::flip_bit(sent[i]));
    assert(corrupted =~= xor_spec(sent, u));
    assert(xor_spec(Seq::empty(), Seq::empty()) =~= Seq::<u8>::empty());
    lemma_run_linear(Seq::empty(), Seq::empty(), d, sent, u);
    lemma_residual_of_padded_tail(v.len(), t);
    assert(crc_residual(corrupted) == xor_spec(zeros(32), t));
    assert(xor_spec(zeros(32), t) =~= t);
    lemma_strip_structure(t);
    if strip_spec(crc_residual(corrupted)) == seq![0u8] {
        let k = (t.len() - strip_spec(t).len()) as nat;
        assert(strip_spec(t) == seq![0u8]);
        assert(k == 31);
        assert(t[j] == (zeros(31) + seq![0u8])[j]);
        assert(false);
    }
    assert(corrupted.len() == n);
}

} // verus!
