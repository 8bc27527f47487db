//! Laws of the 2D parity code: a clean encoded stream decodes to the
//! original bits, one flipped data bit is corrected, and two flipped bits
//! in different rows and columns are reported as uncorrectable.

use crate::bits::bits01;
use crate::errors::CodingError;
use crate::parity::add_parity_spec;
use crate::parity::bit_sum;
use crate::parity::check_parity_spec;
use crate::parity::col_bad;
use crate::parity::col_bits;
use crate::parity::col_flags;
use crate::parity::col_parity_bit;
use crate::parity::col_parity_row;
use crate::parity::corner_bit;
use crate::parity::count_true;
use crate::parity::data_rows;
use crate::parity::enc_bit;
use crate::parity::enc_row;
use crate::parity::encoded_len;
use crate::parity::flip_bit;
use crate::parity::lemma_count_true_one;
use crate::parity::lemma_count_true_pos;
use crate::parity::lemma_count_true_two;
use crate::parity::lemma_count_true_zero;
use crate::parity::lemma_geometry;
use crate::parity::num_bad_cols;
use crate::parity::num_bad_rows;
use crate::parity::pad_len;
use crate::parity::padded;
use crate::parity::parity_shape;
use crate::parity::recovered;
use crate::parity::recv_col;
use crate::parity::recv_row;
use crate::parity::recv_rows;
use crate::parity::row_bad;
use crate::parity::row_flags;
use crate::parity::row_parity_bit;
use crate::parity::the_bad_col;
use crate::parity::the_bad_row;
use vstd::arithmetic::div_mod::lemma_fundamental_div_mod;
use vstd::arithmetic::div_mod::lemma_fundamental_div_mod_converse;
use vstd::arithmetic::div_mod::lemma_mod_multiples_vanish;
use vstd::arithmetic::div_mod::lemma_mod_self_0;
use vstd::arithmetic::mul::lemma_mul_inequality;
use vstd::prelude::*;

verus! {

broadcast use vstd::arithmetic::mul::group_mul_basics;

/// A group whose last bit is the group's own parity bit sums to the
/// configured parity.
proof fn lemma_par_cancel(a: nat, p2: nat)
    requires
        p2 < 2,
    ensures
        ((a + (a + p2) % 2) % 2) == p2,
{
    lemma_fundamental_div_mod((a + p2) as int, 2);
    let q = (a + p2) as int / 2;
    let r = (a + p2) as int % 2;
    assert((a + r) as int == 2 * (q + r) + (-(p2 as int)));
    lemma_mod_multiples_vanish(q + r, -(p2 as int), 2);
}

/// A nonnegative number below `r * m` divides by `m` to below `r`.
proof fn lemma_div_below(i: int, m: int, r: int)
    requires
        m >= 1,
        0 <= i,
        i < r * m,
    ensures
        0 <= i / m < r,
{
    lemma_fundamental_div_mod(i, m);
    if i / m >= r {
        lemma_mul_inequality(r, i / m, m);
        assert((i / m) * m == m * (i / m)) by (nonlinear_arith);
        assert(false);
    }
    if i / m < 0 {
        assert(m * (i / m) <= i / m) by (nonlinear_arith)
            requires
                m >= 1,
                i / m < 0,
        ;
        assert(false);
    }
}

/// The product of two nonnegative numbers is nonnegative.
proof fn lemma_mul_nonneg(a: int, b: int)
    requires
        a >= 0,
        b >= 0,
    ensures
        a * b >= 0,
{
    assert(a * b >= 0) by (nonlinear_arith)
        requires
            a >= 0,
            b >= 0,
    ;
}

/// The encoded stream is a whole number of rows: the data rows and one
/// parity row, each `c + 1` bits wide.
proof fn lemma_encoded_shape(v: Seq<u8>, c: nat, p: u8)
    requires
        c >= 1,
    ensures
        add_parity_spec(v, c, p).len() == (data_rows(v, c) as int + 1) * (c as int + 1),
        parity_shape(add_parity_spec(v, c, p), c),
        recv_rows(add_parity_spec(v, c, p), c) == data_rows(v, c) + 1,
        padded(v, c).len() == (data_rows(v, c) as int) * (c as int),
{
    lemma_geometry(v.len(), c);
    let e = add_parity_spec(v, c, p);
    let ri = data_rows(v, c) as int;
    let ci = c as int;
    assert(e.len() == ri * (ci + 1) + c + 1);
    assert((ri + 1) * (ci + 1) == ri * (ci + 1) + (ci + 1)) by (nonlinear_arith);
    lemma_fundamental_div_mod_converse(e.len() as int, ci + 1, ri + 1, 0);
    lemma_mul_inequality(1, ri + 1, ci + 1);
}

/// Row `y` of a clean encoded stream, as received: the data row followed
/// by its parity bit, or the column parity row followed by the corner.
proof fn lemma_encoded_row(v: Seq<u8>, c: nat, p: u8, y: int)
    requires
        c >= 1,
        0 <= y <= data_rows(v, c),
    ensures
        y < data_rows(v, c) ==> recv_row(add_parity_spec(v, c, p), c, y) == enc_row(v, c, y).push(
            row_parity_bit(v, c, p, y),
        ),
        y == data_rows(v, c) ==> recv_row(add_parity_spec(v, c, p), c, y) == col_parity_row(
            v,
            c,
            p,
        ).push(corner_bit(v, c, p)),
{
    lemma_encoded_shape(v, c, p);
    lemma_geometry(v.len(), c);
    let e = add_parity_spec(v, c, p);
    let ri = data_rows(v, c) as int;
    let ci = c as int;
    assert((y + 1) * (ci + 1) == y * (ci + 1) + (ci + 1)) by (nonlinear_arith);
    assert((ri + 1) * (ci + 1) == ri * (ci + 1) + (ci + 1)) by (nonlinear_arith);
    assert((y + 1) * ci == y * ci + ci) by (nonlinear_arith);
    lemma_mul_nonneg(y, ci + 1);
    lemma_mul_nonneg(y, ci);
    lemma_mul_inequality(y + 1, ri + 1, ci + 1);
    if y < ri {
        lemma_mul_inequality(y + 1, ri, ci);
    }
    assert forall|k: int| 0 <= k < ci + 1 implies recv_row(e, c, y)[k] == enc_bit(
        v,
        c,
        p,
        y * (ci + 1) + k,
    ) by {
        assert(e[y * (ci + 1) + k] == enc_bit(v, c, p, y * (ci + 1) + k));
    }
    if y < ri {
        lemma_mul_inequality(y + 1, ri, ci + 1);
        assert forall|k: int| 0 <= k < ci + 1 implies recv_row(e, c, y)[k] == enc_row(
            v,
            c,
            y,
        ).push(row_parity_bit(v, c, p, y))[k] by {
            let i = y * (ci + 1) + k;
            lemma_fundamental_div_mod_converse(i, ci + 1, y, k);
            assert(i < ri * (ci + 1));
        }
        assert(recv_row(e, c, y) =~= enc_row(v, c, y).push(row_parity_bit(v, c, p, y)));
    } else {
        assert forall|k: int| 0 <= k < ci + 1 implies recv_row(e, c, y)[k] == col_parity_row(
            v,
            c,
            p,
        ).push(corner_bit(v, c, p))[k] by {
            let i = y * (ci + 1) + k;
            assert(i == ri * (ci + 1) + k);
        }
        assert(recv_row(e, c, y) =~= col_parity_row(v, c, p).push(corner_bit(v, c, p)));
    }
}

/// Column `x` of a clean encoded stream, as received: the data column
/// followed by its parity bit.
proof fn lemma_encoded_col(v: Seq<u8>, c: nat, p: u8, x: int)
    requires
        c >= 1,
        0 <= x < c,
    ensures
        recv_col(add_parity_spec(v, c, p), c, x) == col_bits(v, c, x).push(
            col_parity_bit(v, c, p, x),
        ),
{
    lemma_encoded_shape(v, c, p);
    lemma_geometry(v.len(), c);
    let e = add_parity_spec(v, c, p);
    let ri = data_rows(v, c) as int;
    let ci = c as int;
    assert((ri + 1) * (ci + 1) == ri * (ci + 1) + (ci + 1)) by (nonlinear_arith);
    assert forall|y: int| 0 <= y < ri + 1 implies recv_col(e, c, x)[y] == col_bits(v, c, x).push(
        col_parity_bit(v, c, p, x),
    )[y] by {
        let i = y * (ci + 1) + x;
        assert((y + 1) * (ci + 1) == y * (ci + 1) + (ci + 1)) by (nonlinear_arith);
        lemma_mul_inequality(y + 1, ri + 1, ci + 1);
        assert(e[i] == enc_bit(v, c, p, i));
        if y < ri {
            lemma_mul_inequality(y + 1, ri, ci + 1);
            lemma_mul_nonneg(y, ci + 1);
            lemma_fundamental_div_mod_converse(i, ci + 1, y, x);
            assert(enc_bit(v, c, p, i) == padded(v, c)[y * ci + x]);
        } else {
            assert(i == ri * (ci + 1) + x);
        }
    }
    assert(recv_col(e, c, x) =~= col_bits(v, c, x).push(col_parity_bit(v, c, p, x)));
}

/// A clean encoded stream shows no mismatch on either axis.
proof fn lemma_clean_syndrome(v: Seq<u8>, c: nat, p: u8)
    requires
        c >= 1,
    ensures
        num_bad_rows(add_parity_spec(v, c, p), c, p) == 0,
        num_bad_cols(add_parity_spec(v, c, p), c, p) == 0,
{
    lemma_encoded_shape(v, c, p);
    let e = add_parity_spec(v, c, p);
    let ri = data_rows(v, c) as int;
    let p2 = (p % 2) as nat;
    assert forall|y: int| 0 <= y < ri + 1 implies !row_bad(e, c, p, y) by {
        lemma_encoded_row(v, c, p, y);
        if y < ri {
            let row = enc_row(v, c, y);
            assert(row.push(row_parity_bit(v, c, p, y)).drop_last() =~= row);
            lemma_par_cancel(bit_sum(row), p2);
        } else {
            let row = col_parity_row(v, c, p);
            assert(row.push(corner_bit(v, c, p)).drop_last() =~= row);
            lemma_par_cancel(bit_sum(row), p2);
        }
    }
    lemma_count_true_zero(row_flags(e, c, p));
    assert forall|x: int| 0 <= x < c implies !col_bad(e, c, p, x) by {
        lemma_encoded_col(v, c, p, x);
        let col = col_bits(v, c, x);
        assert(col.push(col_parity_bit(v, c, p, x)).drop_last() =~= col);
        lemma_par_cancel(bit_sum(col), p2);
    }
    lemma_count_true_zero(col_flags(e, c, p));
}

/// Stripping the parity bits from a clean encoded stream leaves the
/// padded input.
proof fn lemma_recovered_encoded(v: Seq<u8>, c: nat, p: u8)
    requires
        c >= 1,
    ensures
        recovered(add_parity_spec(v, c, p), c) == padded(v, c),
{
    lemma_encoded_shape(v, c, p);
    lemma_geometry(v.len(), c);
    let e = add_parity_spec(v, c, p);
    let ri = data_rows(v, c) as int;
    let ci = c as int;
    lemma_mul_nonneg(ri, ci);
    assert forall|i: int| 0 <= i < ri * ci implies recovered(e, c)[i] == padded(v, c)[i] by {
        lemma_fundamental_div_mod(i, ci);
        lemma_div_below(i, ci, ri);
        let y = i / ci;
        let j = i % ci;
        assert((ci as int) * y == y * ci) by (nonlinear_arith);
        let ii = y * (ci + 1) + j;
        assert((y + 1) * (ci + 1) == y * (ci + 1) + (ci + 1)) by (nonlinear_arith);
        lemma_mul_inequality(y + 1, ri, ci + 1);
        lemma_mul_inequality(y + 1, ri + 1, ci + 1);
        assert((ri + 1) * (ci + 1) == ri * (ci + 1) + (ci + 1)) by (nonlinear_arith);
        lemma_fundamental_div_mod_converse(ii, ci + 1, y, j);
        assert(e[ii] == enc_bit(v, c, p, ii));
        assert(enc_bit(v, c, p, ii) == padded(v, c)[y * ci + j]);
        assert(recovered(e, c)[i] == e[ii]);
    }
    assert(recovered(e, c) =~= padded(v, c));
}

/// Decoding a freshly encoded stream returns the input unchanged, for
/// inputs that fill whole rows; no error is reported.
pub proof fn lemma_parity_round_trip(v: Seq<u8>, c: nat, p: u8)
    requires
        c >= 1,
        bits01(v),
        (v.len() as int) % (c as int) == 0,
    ensures
        check_parity_spec(add_parity_spec(v, c, p), c, p) == Result::<Seq<u8>, CodingError>::Ok(v),
{
    lemma_encoded_shape(v, c, p);
    lemma_clean_syndrome(v, c, p);
    lemma_recovered_encoded(v, c, p);
    lemma_mod_self_0(c as int);
    assert(pad_len(v.len(), c) == 0);
    assert(padded(v, c) =~= v);
}


/// Every bit of an encoded stream is a binary digit.
proof fn lemma_encoded_bits01(v: Seq<u8>, c: nat, p: u8)
    requires
        c >= 1,
        bits01(v),
    ensures
        bits01(add_parity_spec(v, c, p)),
{
    lemma_encoded_shape(v, c, p);
    let e = add_parity_spec(v, c, p);
    let ri = data_rows(v, c) as int;
    let ci = c as int;
    assert(bits01(padded(v, c)));
    assert forall|i: int| 0 <= i < e.len() implies e[i] == 0 || e[i] == 1 by {
        assert(e[i] == enc_bit(v, c, p, i));
        if i < ri * (ci + 1) && i % (ci + 1) < ci {
            lemma_div_below(i, ci + 1, ri);
            let y = i / (ci + 1);
            let j = i % (ci + 1);
            lemma_mul_inequality(y + 1, ri, ci);
            assert((y + 1) * ci == y * ci + ci) by (nonlinear_arith);
            lemma_mul_nonneg(y, ci);
            assert(0 <= y * ci + j < ri * ci);
        }
    }
}

/// Rewriting one entry trades its old bit for the new one in the sum.
proof fn lemma_bit_sum_update(s: Seq<u8>, k: int, b: u8)
    requires
        0 <= k < s.len(),
    ensures
        bit_sum(s.update(k, b)) + s[k] == bit_sum(s) + b,
    decreases s.len(),
{
    if k == s.len() - 1 {
        assert(s.update(k, b).drop_last() =~= s.drop_last());
    } else {
        assert(s.update(k, b).drop_last() =~= s.drop_last().update(k, b));
        lemma_bit_sum_update(s.drop_last(), k, b);
    }
}

/// Adding one flips a number's parity.
proof fn lemma_mod2_flip(a: nat)
    ensures
        (a + 1) % 2 != a % 2,
{
    lemma_fundamental_div_mod(a as int, 2);
    let q = (a as int) / 2;
    let r = (a as int) % 2;
    if r == 0 {
        lemma_fundamental_div_mod_converse(a as int + 1, 2, q, 1);
    } else {
        lemma_fundamental_div_mod_converse(a as int + 1, 2, q + 1, 0);
    }
}

/// Flipping one bit of a binary vector flips the parity of its sum.
proof fn lemma_parity_flip(s: Seq<u8>, k: int)
    requires
        0 <= k < s.len(),
        bits01(s),
    ensures
        bit_sum(s.update(k, flip_bit(s[k]))) % 2 != bit_sum(s) % 2,
{
    lemma_bit_sum_update(s, k, flip_bit(s[k]));
    if s[k] == 0 {
        lemma_mod2_flip(bit_sum(s));
    } else {
        lemma_mod2_flip(bit_sum(s.update(k, flip_bit(s[k]))));
    }
}

/// When exactly the entry at `j` holds, the count is one.
proof fn lemma_count_true_single(s: Seq<bool>, j: int)
    requires
        0 <= j < s.len(),
        s[j],
        forall|k: int| 0 <= k < s.len() && k != j ==> !s[k],
    ensures
        count_true(s) == 1,
    decreases s.len(),
{
    if j == s.len() - 1 {
        lemma_count_true_zero(s.drop_last());
        assert(forall|k: int| 0 <= k < s.len() - 1 ==> s.drop_last()[k] == s[k]);
        assert(count_true(s.drop_last()) == 0);
    } else {
        assert(!s.last());
        assert(forall|k: int| 0 <= k < s.len() - 1 ==> s.drop_last()[k] == s[k]);
        lemma_count_true_single(s.drop_last(), j);
    }
}

/// Flipping the data bit in row `y0` and column `x0` leaves every other
/// received row as it was and rewrites position `x0` of row `y0`.
proof fn lemma_flip_rows(v: Seq<u8>, c: nat, p: u8, i: int, y: int)
    requires
        c >= 1,
        0 <= i < (data_rows(v, c) as int) * (c as int + 1),
        i % (c as int + 1) < c,
        0 <= y <= data_rows(v, c),
    ensures
        y != i / (c as int + 1) ==> recv_row(
            add_parity_spec(v, c, p).update(i, flip_bit(add_parity_spec(v, c, p)[i])),
            c,
            y,
        ) == recv_row(add_parity_spec(v, c, p), c, y),
        y == i / (c as int + 1) ==> recv_row(
            add_parity_spec(v, c, p).update(i, flip_bit(add_parity_spec(v, c, p)[i])),
            c,
            y,
        ) == recv_row(add_parity_spec(v, c, p), c, y).update(
            i % (c as int + 1),
            flip_bit(add_parity_spec(v, c, p)[i]),
        ),
{
    lemma_encoded_shape(v, c, p);
    let e = add_parity_spec(v, c, p);
    let e2 = e.update(i, flip_bit(e[i]));
    let ri = data_rows(v, c) as int;
    let ci = c as int;
    lemma_fundamental_div_mod(i, ci + 1);
    lemma_div_below(i, ci + 1, ri);
    let y0 = i / (ci + 1);
    let x0 = i % (ci + 1);
    assert((ci + 1) * y0 == y0 * (ci + 1)) by (nonlinear_arith);
    assert(i == y0 * (ci + 1) + x0);
    assert((y + 1) * (ci + 1) == y * (ci + 1) + (ci + 1)) by (nonlinear_arith);
    assert((ri + 1) * (ci + 1) == ri * (ci + 1) + (ci + 1)) by (nonlinear_arith);
    lemma_mul_nonneg(y, ci + 1);
    lemma_mul_inequality(y + 1, ri + 1, ci + 1);
    lemma_mul_inequality(ri, ri + 1, ci + 1);
    assert forall|k: int| 0 <= k < ci + 1 implies #[trigger] recv_row(e2, c, y)[k] == (if y == y0
        && k == x0 {
        flip_bit(e[i])
    } else {
        recv_row(e, c, y)[k]
    }) by {
        let ii = y * (ci + 1) + k;
        lemma_fundamental_div_mod_converse(ii, ci + 1, y, k);
        if ii == i {
            assert(y == y0 && k == x0);
        } else {
            assert(e2[ii] == e[ii]);
        }
    }
    if y != y0 {
        assert(recv_row(e2, c, y) =~= recv_row(e, c, y));
    } else {
        assert(recv_row(e2, c, y) =~= recv_row(e, c, y).update(x0, flip_bit(e[i])));
    }
}

/// The same, for the received columns.
proof fn lemma_flip_cols(v: Seq<u8>, c: nat, p: u8, i: int, x: int)
    requires
        c >= 1,
        0 <= i < (data_rows(v, c) as int) * (c as int + 1),
        i % (c as int + 1) < c,
        0 <= x < c,
    ensures
        x != i % (c as int + 1) ==> recv_col(
            add_parity_spec(v, c, p).update(i, flip_bit(add_parity_spec(v, c, p)[i])),
            c,
            x,
        ) == recv_col(add_parity_spec(v, c, p), c, x),
        x == i % (c as int + 1) ==> recv_col(
            add_parity_spec(v, c, p).update(i, flip_bit(add_parity_spec(v, c, p)[i])),
            c,
            x,
        ) == recv_col(add_parity_spec(v, c, p), c, x).update(
            i / (c as int + 1),
            flip_bit(add_parity_spec(v, c, p)[i]),
        ),
{
    lemma_encoded_shape(v, c, p);
    let e = add_parity_spec(v, c, p);
    let e2 = e.update(i, flip_bit(e[i]));
    let ri = data_rows(v, c) as int;
    let ci = c as int;
    lemma_fundamental_div_mod(i, ci + 1);
    lemma_div_below(i, ci + 1, ri);
    let y0 = i / (ci + 1);
    let x0 = i % (ci + 1);
    assert((ci + 1) * y0 == y0 * (ci + 1)) by (nonlinear_arith);
    assert(i == y0 * (ci + 1) + x0);
    assert((ri + 1) * (ci + 1) == ri * (ci + 1) + (ci + 1)) by (nonlinear_arith);
    assert forall|y: int| 0 <= y < ri + 1 implies #[trigger] recv_col(e2, c, x)[y] == (if x == x0
        && y == y0 {
        flip_bit(e[i])
    } else {
        recv_col(e, c, x)[y]
    }) by {
        let ii = y * (ci + 1) + x;
        assert((y + 1) * (ci + 1) == y * (ci + 1) + (ci + 1)) by (nonlinear_arith);
        lemma_mul_nonneg(y, ci + 1);
        lemma_mul_inequality(y + 1, ri + 1, ci + 1);
        lemma_fundamental_div_mod_converse(ii, ci + 1, y, x);
        if ii == i {
            assert(y == y0 && x == x0);
        } else {
            assert(e2[ii] == e[ii]);
        }
    }
    if x != x0 {
        assert(recv_col(e2, c, x) =~= recv_col(e, c, x));
    } else {
        assert(recv_col(e2, c, x) =~= recv_col(e, c, x).update(y0, flip_bit(e[i])));
    }
}


/// Every received bit of a clean encoded stream is a binary digit, row-
/// and column-wise.
proof fn lemma_received_bits01(v: Seq<u8>, c: nat, p: u8, y: int, x: int)
    requires
        c >= 1,
        bits01(v),
        0 <= y <= data_rows(v, c),
        0 <= x < c,
    ensures
        bits01(recv_row(add_parity_spec(v, c, p), c, y)),
        bits01(recv_col(add_parity_spec(v, c, p), c, x)),
{
    lemma_encoded_shape(v, c, p);
    lemma_encoded_bits01(v, c, p);
    let e = add_parity_spec(v, c, p);
    let ri = data_rows(v, c) as int;
    let ci = c as int;
    assert((ri + 1) * (ci + 1) == ri * (ci + 1) + (ci + 1)) by (nonlinear_arith);
    assert((y + 1) * (ci + 1) == y * (ci + 1) + (ci + 1)) by (nonlinear_arith);
    lemma_mul_nonneg(y, ci + 1);
    lemma_mul_inequality(y + 1, ri + 1, ci + 1);
    assert forall|k: int| 0 <= k < ci + 1 implies recv_row(e, c, y)[k] == 0 || recv_row(e, c, y)[k]
        == 1 by {
        assert(recv_row(e, c, y)[k] == e[y * (ci + 1) + k]);
    }
    assert forall|yy: int| 0 <= yy < ri + 1 implies recv_col(e, c, x)[yy] == 0 || recv_col(
        e,
        c,
        x,
    )[yy] == 1 by {
        assert((yy + 1) * (ci + 1) == yy * (ci + 1) + (ci + 1)) by (nonlinear_arith);
        lemma_mul_nonneg(yy, ci + 1);
        lemma_mul_inequality(yy + 1, ri + 1, ci + 1);
        assert(recv_col(e, c, x)[yy] == e[yy * (ci + 1) + x]);
    }
}

/// Flipping exactly one bit in the data region of an encoded stream is
/// corrected by the decoder: it returns the original input unchanged,
/// for inputs that fill whole rows.
pub proof fn lemma_parity_single_correction(v: Seq<u8>, c: nat, p: u8, i: int)
    requires
        c >= 1,
        bits01(v),
        (v.len() as int) % (c as int) == 0,
        0 <= i < (data_rows(v, c) as int) * (c as int + 1),
        i % (c as int + 1) < c,
    ensures
        check_parity_spec(
            add_parity_spec(v, c, p).update(i, flip_bit(add_parity_spec(v, c, p)[i])),
            c,
            p,
        ) == Result::<Seq<u8>, CodingError>::Ok(v),
{
    lemma_encoded_shape(v, c, p);
    lemma_clean_syndrome(v, c, p);
    lemma_recovered_encoded(v, c, p);
    lemma_encoded_bits01(v, c, p);
    lemma_count_true_zero(row_flags(add_parity_spec(v, c, p), c, p));
    lemma_count_true_zero(col_flags(add_parity_spec(v, c, p), c, p));
    let e = add_parity_spec(v, c, p);
    let e2 = e.update(i, flip_bit(e[i]));
    let ri = data_rows(v, c) as int;
    let ci = c as int;
    lemma_fundamental_div_mod(i, ci + 1);
    lemma_div_below(i, ci + 1, ri);
    let y0 = i / (ci + 1);
    let x0 = i % (ci + 1);
    assert((ci + 1) * y0 == y0 * (ci + 1)) by (nonlinear_arith);
    assert(i == y0 * (ci + 1) + x0);
    assert((ri + 1) * (ci + 1) == ri * (ci + 1) + (ci + 1)) by (nonlinear_arith);
    assert(e2.len() == e.len());
    assert(parity_shape(e2, c));
    assert(recv_rows(e2, c) == ri + 1);
    lemma_received_bits01(v, c, p, y0, x0);
    lemma_mul_inequality(y0 + 1, ri + 1, ci + 1);
    assert((y0 + 1) * (ci + 1) == y0 * (ci + 1) + (ci + 1)) by (nonlinear_arith);
    lemma_mul_nonneg(y0, ci + 1);
    assert(recv_row(e, c, y0).len() == ci + 1);
    assert(recv_row(e, c, y0)[x0] == e[i]);
    assert(recv_col(e, c, x0)[y0] == e[i]);
    assert forall|y: int| 0 <= y < ri + 1 implies row_flags(e2, c, p)[y] == (y == y0) by {
        lemma_flip_rows(v, c, p, i, y);
        assert(!row_flags(e, c, p)[y]);
        assert(!row_bad(e, c, p, y));
        if y == y0 {
            lemma_parity_flip(recv_row(e, c, y0), x0);
            assert(recv_row(e2, c, y0) == recv_row(e, c, y0).update(
                x0,
                flip_bit(recv_row(e, c, y0)[x0]),
            ));
            assert(row_bad(e2, c, p, y0));
        } else {
            assert(recv_row(e2, c, y) == recv_row(e, c, y));
            assert(!row_bad(e2, c, p, y));
        }
    }
    lemma_count_true_single(row_flags(e2, c, p), y0);
    assert forall|x: int| 0 <= x < ci implies col_flags(e2, c, p)[x] == (x == x0) by {
        lemma_flip_cols(v, c, p, i, x);
        assert(!col_flags(e, c, p)[x]);
        assert(!col_bad(e, c, p, x));
        if x == x0 {
            lemma_parity_flip(recv_col(e, c, x0), y0);
            assert(recv_col(e2, c, x0) == recv_col(e, c, x0).update(
                y0,
                flip_bit(recv_col(e, c, x0)[y0]),
            ));
            assert(col_bad(e2, c, p, x0));
        } else {
            assert(recv_col(e2, c, x) == recv_col(e, c, x));
            assert(!col_bad(e2, c, p, x));
        }
    }
    lemma_count_true_single(col_flags(e2, c, p), x0);
    assert(num_bad_rows(e2, c, p) == 1);
    assert(num_bad_cols(e2, c, p) == 1);
    assert(row_flags(e2, c, p)[y0]);
    assert(row_bad(e2, c, p, y0));
    assert(exists|yy: int| 0 <= yy < recv_rows(e2, c) && row_bad(e2, c, p, yy)) by {
        assert(0 <= y0 && y0 < recv_rows(e2, c) && row_bad(e2, c, p, y0));
    }
    let tb = the_bad_row(e2, c, p);
    assert(0 <= tb < recv_rows(e2, c) && row_bad(e2, c, p, tb));
    if tb != y0 {
        assert(!row_flags(e2, c, p)[tb]);
        assert(false);
    }
    assert(col_flags(e2, c, p)[x0]);
    assert(col_bad(e2, c, p, x0));
    assert(exists|xx: int| 0 <= xx < c && col_bad(e2, c, p, xx)) by {
        assert(0 <= x0 && x0 < c && col_bad(e2, c, p, x0));
    }
    let tc = the_bad_col(e2, c, p);
    assert(0 <= tc < c && col_bad(e2, c, p, tc));
    if tc != x0 {
        assert(!col_flags(e2, c, p)[tc]);
        assert(false);
    }
    let pos = y0 * ci + x0;
    lemma_mul_nonneg(y0, ci);
    lemma_mul_inequality(y0 + 1, ri, ci);
    assert((y0 + 1) * ci == y0 * ci + ci) by (nonlinear_arith);
    lemma_fundamental_div_mod_converse(pos, ci, y0, x0);
    lemma_mul_nonneg(ri, ci);
    assert forall|m: int| 0 <= m < ri * ci implies #[trigger] recovered(e2, c)[m] == (if m == pos {
        flip_bit(e[i])
    } else {
        recovered(e, c)[m]
    }) by {
        lemma_fundamental_div_mod(m, ci);
        lemma_div_below(m, ci, ri);
        let ym = m / ci;
        let xm = m % ci;
        assert(ci * ym == ym * ci) by (nonlinear_arith);
        assert(m == ym * ci + xm);
        let ii = ym * (ci + 1) + xm;
        assert((ym + 1) * (ci + 1) == ym * (ci + 1) + (ci + 1)) by (nonlinear_arith);
        lemma_mul_nonneg(ym, ci + 1);
        lemma_mul_inequality(ym + 1, ri, ci + 1);
        lemma_mul_inequality(ri, ri + 1, ci + 1);
        lemma_fundamental_div_mod_converse(ii, ci + 1, ym, xm);
        assert(recovered(e2, c)[m] == e2[ii]);
        assert(recovered(e, c)[m] == e[ii]);
        if ii == i {
            assert(ym == y0 && xm == x0);
            assert(m == pos);
        } else {
            assert(e2[ii] == e[ii]);
            if m == pos {
                assert(ym == y0 && xm == x0);
                assert(false);
            }
        }
    }
    lemma_mod_self_0(ci);
    assert(pad_len(v.len(), c) == 0);
    assert(padded(v, c) =~= v);
    assert(recovered(e2, c) =~= recovered(e, c).update(pos, flip_bit(e[i])));
    assert(e[i] == enc_bit(v, c, p, i));
    assert(e[i] == v[pos]);
    let w = recovered(e2, c);
    assert(w == v.update(pos, flip_bit(v[pos])));
    assert(w[pos] == flip_bit(v[pos]));
    assert(flip_bit(flip_bit(v[pos])) == v[pos]);
    assert(w.update(pos, flip_bit(w[pos])) =~= v);
}

/// Flipping two bits that land in different rows and different columns
/// of the data region is reported as an uncorrectable error.
pub proof fn lemma_parity_double_error(v: Seq<u8>, c: nat, p: u8, i1: int, i2: int)
    requires
        c >= 1,
        bits01(v),
        0 <= i1 < (data_rows(v, c) as int) * (c as int + 1),
        0 <= i2 < (data_rows(v, c) as int) * (c as int + 1),
        i1 % (c as int + 1) < c,
        i2 % (c as int + 1) < c,
        i1 / (c as int + 1) != i2 / (c as int + 1),
        i1 % (c as int + 1) != i2 % (c as int + 1),
    ensures
        check_parity_spec(
            add_parity_spec(v, c, p).update(i1, flip_bit(add_parity_spec(v, c, p)[i1])).update(
                i2,
                flip_bit(add_parity_spec(v, c, p)[i2]),
            ),
            c,
            p,
        ) == Result::<Seq<u8>, CodingError>::Err(CodingError::UncorrectableError),
{
    lemma_encoded_shape(v, c, p);
    lemma_clean_syndrome(v, c, p);
    lemma_encoded_bits01(v, c, p);
    lemma_count_true_zero(row_flags(add_parity_spec(v, c, p), c, p));
    lemma_count_true_zero(col_flags(add_parity_spec(v, c, p), c, p));
    let e = add_parity_spec(v, c, p);
    let ri = data_rows(v, c) as int;
    let ci = c as int;
    let e3 = e.update(i1, flip_bit(e[i1])).update(i2, flip_bit(e[i2]));
    lemma_fundamental_div_mod(i1, ci + 1);
    lemma_fundamental_div_mod(i2, ci + 1);
    lemma_div_below(i1, ci + 1, ri);
    lemma_div_below(i2, ci + 1, ri);
    let y1 = i1 / (ci + 1);
    let x1 = i1 % (ci + 1);
    let y2 = i2 / (ci + 1);
    let x2 = i2 % (ci + 1);
    assert((ci + 1) * y1 == y1 * (ci + 1)) by (nonlinear_arith);
    assert((ci + 1) * y2 == y2 * (ci + 1)) by (nonlinear_arith);
    assert(i1 == y1 * (ci + 1) + x1);
    assert(i2 == y2 * (ci + 1) + x2);
    assert((ri + 1) * (ci + 1) == ri * (ci + 1) + (ci + 1)) by (nonlinear_arith);
    assert(e3.len() == e.len());
    assert(parity_shape(e3, c));
    assert(recv_rows(e3, c) == ri + 1);
    lemma_received_bits01(v, c, p, y1, x1);
    lemma_received_bits01(v, c, p, y2, x2);
    lemma_mul_inequality(y1 + 1, ri + 1, ci + 1);
    assert((y1 + 1) * (ci + 1) == y1 * (ci + 1) + (ci + 1)) by (nonlinear_arith);
    lemma_mul_nonneg(y1, ci + 1);
    assert(recv_row(e, c, y1).len() == ci + 1);
    assert(recv_row(e, c, y1)[x1] == e[i1]);
    lemma_mul_inequality(y2 + 1, ri + 1, ci + 1);
    assert((y2 + 1) * (ci + 1) == y2 * (ci + 1) + (ci + 1)) by (nonlinear_arith);
    lemma_mul_nonneg(y2, ci + 1);
    assert(recv_row(e, c, y2).len() == ci + 1);
    assert(recv_row(e, c, y2)[x2] == e[i2]);
    assert(recv_col(e, c, x1)[y1] == e[i1]);
    assert forall|y: int| 0 <= y < ri + 1 implies #[trigger] recv_row(e3, c, y) == (if y == y1 {
        recv_row(e, c, y1).update(x1, flip_bit(e[i1]))
    } else if y == y2 {
        recv_row(e, c, y2).update(x2, flip_bit(e[i2]))
    } else {
        recv_row(e, c, y)
    }) by {
        assert((y + 1) * (ci + 1) == y * (ci + 1) + (ci + 1)) by (nonlinear_arith);
        lemma_mul_nonneg(y, ci + 1);
        lemma_mul_inequality(y + 1, ri + 1, ci + 1);
        assert forall|k: int| 0 <= k < ci + 1 implies #[trigger] recv_row(e3, c, y)[k] == (if y
            == y1 && k == x1 {
            flip_bit(e[i1])
        } else if y == y2 && k == x2 {
            flip_bit(e[i2])
        } else {
            recv_row(e, c, y)[k]
        }) by {
            let ii = y * (ci + 1) + k;
            lemma_fundamental_div_mod_converse(ii, ci + 1, y, k);
            if ii == i1 {
                assert(y == y1 && k == x1);
            } else if ii == i2 {
                assert(y == y2 && k == x2);
            } else {
                assert(e3[ii] == e[ii]);
            }
        }
        if y == y1 {
            assert(recv_row(e3, c, y) =~= recv_row(e, c, y1).update(x1, flip_bit(e[i1])));
        } else if y == y2 {
            assert(recv_row(e3, c, y) =~= recv_row(e, c, y2).update(x2, flip_bit(e[i2])));
        } else {
            assert(recv_row(e3, c, y) =~= recv_row(e, c, y));
        }
    }
    lemma_parity_flip(recv_row(e, c, y1), x1);
    lemma_parity_flip(recv_row(e, c, y2), x2);
    assert(!row_flags(e, c, p)[y1]);
    assert(!row_bad(e, c, p, y1));
    assert(!row_flags(e, c, p)[y2]);
    assert(!row_bad(e, c, p, y2));
    assert(recv_row(e3, c, y1) == recv_row(e, c, y1).update(
        x1,
        flip_bit(recv_row(e, c, y1)[x1]),
    ));
    assert(recv_row(e3, c, y2) == recv_row(e, c, y2).update(
        x2,
        flip_bit(recv_row(e, c, y2)[x2]),
    ));
    assert(row_bad(e3, c, p, y1));
    assert(row_bad(e3, c, p, y2));
    assert(row_flags(e3, c, p)[y1]);
    assert(row_flags(e3, c, p)[y2]);
    lemma_count_true_two(row_flags(e3, c, p), y1, y2);
    assert forall|yy: int| 0 <= yy < ri + 1 implies #[trigger] recv_col(e3, c, x1)[yy] == (if yy
        == y1 {
        flip_bit(e[i1])
    } else {
        recv_col(e, c, x1)[yy]
    }) by {
        let ii = yy * (ci + 1) + x1;
        assert((yy + 1) * (ci + 1) == yy * (ci + 1) + (ci + 1)) by (nonlinear_arith);
        lemma_mul_nonneg(yy, ci + 1);
        lemma_mul_inequality(yy + 1, ri + 1, ci + 1);
        lemma_fundamental_div_mod_converse(ii, ci + 1, yy, x1);
        if ii == i1 {
            assert(yy == y1);
        } else {
            assert(ii != i2);
            assert(e3[ii] == e[ii]);
        }
    }
    assert(recv_col(e3, c, x1) =~= recv_col(e, c, x1).update(y1, flip_bit(e[i1])));
    lemma_parity_flip(recv_col(e, c, x1), y1);
    assert(!col_flags(e, c, p)[x1]);
    assert(!col_bad(e, c, p, x1));
    assert(recv_col(e3, c, x1) == recv_col(e, c, x1).update(
        y1,
        flip_bit(recv_col(e, c, x1)[y1]),
    ));
    assert(col_bad(e3, c, p, x1));
    assert(col_flags(e3, c, p)[x1]);
    lemma_count_true_pos(col_flags(e3, c, p), x1);
    assert(num_bad_rows(e3, c, p) >= 2);
    assert(num_bad_cols(e3, c, p) >= 1);
}

} // verus!