//! Two-dimensional parity coding with single-error correction.
//!
//! The encoder pads the input with zero bits up to a multiple of
//! `chunksize` (adding nothing when the length already is one), lays the
//! padded bits out as rows of `chunksize` bits, appends to each row a
//! parity bit making the row sum match the configured parity, then a row
//! of column parity bits, and finally one corner bit covering that row.
//!
//! The decoder recomputes both axes: rows of `chunksize + 1` received
//! bits, and columns read at stride `chunksize + 1`. A single mismatching
//! row together with a single mismatching column locates one flipped data
//! bit, which is corrected; no mismatch at all means no error; every
//! other syndrome is reported as a failure.

use crate::bits::bits01;
use crate::errors::CodingError;
use vstd::arithmetic::div_mod::lemma_fundamental_div_mod;
use vstd::arithmetic::div_mod::lemma_small_mod;
use vstd::arithmetic::div_mod::lemma_mod_self_0;
use vstd::arithmetic::div_mod::lemma_fundamental_div_mod_converse;
use vstd::arithmetic::mul::lemma_mul_inequality;
use vstd::prelude::*;

verus! {

broadcast use vstd::arithmetic::mul::group_mul_basics;

/// The number of set bits is the bit sum of a binary vector.
pub open spec fn bit_sum(s: Seq<u8>) -> nat
    decreases s.len(),
{
    if s.len() == 0 {
        0
    } else {
        bit_sum(s.drop_last()) + s.last() as nat
    }
}

/// Extending a prefix by one bit adds that bit to the sum.
pub proof fn lemma_bit_sum_snoc(s: Seq<u8>, k: int)
    requires
        0 <= k < s.len(),
    ensures
        bit_sum(s.subrange(0, k + 1)) == bit_sum(s.subrange(0, k)) + s[k],
{
    assert(s.subrange(0, k + 1).drop_last() =~= s.subrange(0, k));
    assert(s.subrange(0, k + 1).last() == s[k]);
}

/// How many entries of a boolean vector hold.
pub open spec fn count_true(s: Seq<bool>) -> nat
    decreases s.len(),
{
    if s.len() == 0 {
        0
    } else {
        count_true(s.drop_last()) + if s.last() {
            1nat
        } else {
            0nat
        }
    }
}

proof fn lemma_count_true_snoc(s: Seq<bool>, k: int)
    requires
        0 <= k < s.len(),
    ensures
        count_true(s.subrange(0, k + 1)) == count_true(s.subrange(0, k)) + if s[k] {
            1nat
        } else {
            0nat
        },
{
    assert(s.subrange(0, k + 1).drop_last() =~= s.subrange(0, k));
    assert(s.subrange(0, k + 1).last() == s[k]);
}

/// The count is zero exactly when no entry holds.
pub proof fn lemma_count_true_zero(s: Seq<bool>)
    ensures
        count_true(s) == 0 <==> (forall|i: int| 0 <= i < s.len() ==> !s[i]),
    decreases s.len(),
{
    if s.len() > 0 {
        lemma_count_true_zero(s.drop_last());
        assert(forall|i: int| 0 <= i < s.len() - 1 ==> s.drop_last()[i] == s[i]);
        if count_true(s) == 0 {
            assert(forall|i: int| 0 <= i < s.len() ==> !s[i]) by {
                assert(!s.last());
                assert(forall|i: int| 0 <= i < s.len() - 1 ==> !s.drop_last()[i]);
            }
        }
    }
}

/// An entry that holds puts the count at one or more.
pub proof fn lemma_count_true_pos(s: Seq<bool>, j: int)
    requires
        0 <= j < s.len(),
        s[j],
    ensures
        count_true(s) >= 1,
    decreases s.len(),
{
    if j < s.len() - 1 {
        assert(s.drop_last()[j] == s[j]);
        lemma_count_true_pos(s.drop_last(), j);
    }
}

/// Two distinct entries that hold put the count at two or more.
pub proof fn lemma_count_true_two(s: Seq<bool>, j1: int, j2: int)
    requires
        0 <= j1 < s.len(),
        0 <= j2 < s.len(),
        j1 != j2,
        s[j1],
        s[j2],
    ensures
        count_true(s) >= 2,
    decreases s.len(),
{
    if j1 < s.len() - 1 && j2 < s.len() - 1 {
        assert(s.drop_last()[j1] == s[j1]);
        assert(s.drop_last()[j2] == s[j2]);
        lemma_count_true_two(s.drop_last(), j1, j2);
    } else {
        let j = if j1 < s.len() - 1 {
            j1
        } else {
            j2
        };
        assert(s.last());
        assert(s.drop_last()[j] == s[j]);
        lemma_count_true_pos(s.drop_last(), j);
    }
}

/// When the count is one, the entry that holds is unique.
pub proof fn lemma_count_true_one(s: Seq<bool>, j: int)
    requires
        count_true(s) == 1,
        0 <= j < s.len(),
        s[j],
    ensures
        forall|k: int| 0 <= k < s.len() && k != j ==> !s[k],
{
    assert forall|k: int| 0 <= k < s.len() && k != j implies !s[k] by {
        if s[k] {
            lemma_count_true_two(s, j, k);
        }
    }
}

/// Zero bits appended on the right up to the next multiple of `c`;
/// none when the length already is such a multiple.
pub open spec fn pad_len(n: nat, c: nat) -> nat {
    (((c - n % c) % (c as int)) as nat)
}

pub open spec fn padded(s: Seq<u8>, c: nat) -> Seq<u8> {
    s + Seq::new(pad_len(s.len(), c), |i: int| 0u8)
}

/// How many data rows the padded input fills.
pub open spec fn data_rows(s: Seq<u8>, c: nat) -> nat {
    padded(s, c).len() / c
}

/// Data row `y` of the padded input.
pub open spec fn enc_row(s: Seq<u8>, c: nat, y: int) -> Seq<u8> {
    padded(s, c).subrange(y * (c as int), y * (c as int) + (c as int))
}

/// The parity bit closing data row `y`.
pub open spec fn row_parity_bit(s: Seq<u8>, c: nat, p: u8, y: int) -> u8 {
    (((bit_sum(enc_row(s, c, y)) + (p % 2)) % 2) as u8)
}

/// Column `x` of the padded input, read across all data rows.
pub open spec fn col_bits(s: Seq<u8>, c: nat, x: int) -> Seq<u8> {
    Seq::new(data_rows(s, c), |y: int| padded(s, c)[y * (c as int) + x])
}

/// The parity bit closing column `x`.
pub open spec fn col_parity_bit(s: Seq<u8>, c: nat, p: u8, x: int) -> u8 {
    (((bit_sum(col_bits(s, c, x)) + (p % 2)) % 2) as u8)
}

/// The trailing row of column parity bits.
pub open spec fn col_parity_row(s: Seq<u8>, c: nat, p: u8) -> Seq<u8> {
    Seq::new(c, |x: int| col_parity_bit(s, c, p, x))
}

/// The corner bit covering the trailing row itself.
pub open spec fn corner_bit(s: Seq<u8>, c: nat, p: u8) -> u8 {
    (((bit_sum(col_parity_row(s, c, p)) + (p % 2)) % 2) as u8)
}

/// Length of the encoded stream for an input of `n` bits: the padded
/// data plus one parity bit per row, the column parity row, and the
/// corner bit.
pub open spec fn encoded_len(n: nat, c: nat) -> nat {
    (n + pad_len(n, c)) + (n + pad_len(n, c)) / c + c + 1
}

/// Bit `i` of the encoded stream.
pub open spec fn enc_bit(s: Seq<u8>, c: nat, p: u8, i: int) -> u8 {
    let ci = c as int;
    let rows = data_rows(s, c) as int;
    if i < rows * (ci + 1) {
        if i % (ci + 1) < ci {
            padded(s, c)[(i / (ci + 1)) * ci + (i % (ci + 1))]
        } else {
            row_parity_bit(s, c, p, i / (ci + 1))
        }
    } else if i < rows * (ci + 1) + ci {
        col_parity_bit(s, c, p, i - rows * (ci + 1))
    } else {
        corner_bit(s, c, p)
    }
}

/// The encoded stream: each data row closed by its parity bit, then the
/// column parity row, then the corner bit.
pub open spec fn add_parity_spec(s: Seq<u8>, c: nat, p: u8) -> Seq<u8> {
    Seq::new(encoded_len(s.len(), c), |i: int| enc_bit(s, c, p, i))
}

/// A received stream shaped as whole rows of `c + 1` bits, at least one.
pub open spec fn parity_shape(t: Seq<u8>, c: nat) -> bool {
    t.len() % (c + 1) == 0 && t.len() >= c + 1
}

/// How many rows of `c + 1` bits the received stream holds, the trailing
/// parity row included.
pub open spec fn recv_rows(t: Seq<u8>, c: nat) -> nat {
    t.len() / (c + 1)
}

/// Received row `y`, its closing parity bit included.
pub open spec fn recv_row(t: Seq<u8>, c: nat, y: int) -> Seq<u8> {
    t.subrange(y * (c as int + 1), (y + 1) * (c as int + 1))
}

/// Does received row `y` disagree with the configured parity?
pub open spec fn row_bad(t: Seq<u8>, c: nat, p: u8, y: int) -> bool {
    bit_sum(recv_row(t, c, y)) % 2 != (p % 2)
}

/// Received column `x`: the bits at offset `x` of every received row,
/// the trailing parity row included.
pub open spec fn recv_col(t: Seq<u8>, c: nat, x: int) -> Seq<u8> {
    Seq::new(recv_rows(t, c), |y: int| t[y * (c as int + 1) + x])
}

/// Does received column `x` disagree with the configured parity?
pub open spec fn col_bad(t: Seq<u8>, c: nat, p: u8, x: int) -> bool {
    bit_sum(recv_col(t, c, x)) % 2 != (p % 2)
}

/// One flag per received row: does it disagree?
pub open spec fn row_flags(t: Seq<u8>, c: nat, p: u8) -> Seq<bool> {
    Seq::new(recv_rows(t, c), |y: int| row_bad(t, c, p, y))
}

/// One flag per column: does it disagree?
pub open spec fn col_flags(t: Seq<u8>, c: nat, p: u8) -> Seq<bool> {
    Seq::new(c, |x: int| col_bad(t, c, p, x))
}

pub open spec fn num_bad_rows(t: Seq<u8>, c: nat, p: u8) -> nat {
    count_true(row_flags(t, c, p))
}

pub open spec fn num_bad_cols(t: Seq<u8>, c: nat, p: u8) -> nat {
    count_true(col_flags(t, c, p))
}

/// The index of the one mismatching row, meaningful when exactly one row
/// mismatches.
pub open spec fn the_bad_row(t: Seq<u8>, c: nat, p: u8) -> int {
    choose|y: int| 0 <= y < recv_rows(t, c) && row_bad(t, c, p, y)
}

/// The index of the one mismatching column, meaningful when exactly one
/// column mismatches.
pub open spec fn the_bad_col(t: Seq<u8>, c: nat, p: u8) -> int {
    choose|x: int| 0 <= x < c && col_bad(t, c, p, x)
}

/// The candidate content: every parity position dropped, that is the last
/// bit of each data row and the whole trailing row.
pub open spec fn recovered(t: Seq<u8>, c: nat) -> Seq<u8> {
    Seq::new(
        (((recv_rows(t, c) - 1) * (c as int)) as nat),
        |i: int| t[(i / (c as int)) * (c as int + 1) + (i % (c as int))],
    )
}

/// A bit flipped, as the corrector writes it.
pub open spec fn flip_bit(b: u8) -> u8 {
    (((1 + b) % 2) as u8)
}

/// The decode decision table over the two syndromes.
pub open spec fn check_parity_spec(t: Seq<u8>, c: nat, p: u8) -> Result<Seq<u8>, CodingError> {
    if !parity_shape(t, c) {
        Err(CodingError::MalformedInput)
    } else {
        let h = num_bad_rows(t, c, p);
        let v = num_bad_cols(t, c, p);
        if h == 0 && v == 0 {
            Ok(recovered(t, c))
        } else if h == 1 && v == 1 {
            let y = the_bad_row(t, c, p);
            let x = the_bad_col(t, c, p);
            if y < recv_rows(t, c) - 1 {
                let pos = y * (c as int) + x;
                Ok(recovered(t, c).update(pos, flip_bit(recovered(t, c)[pos])))
            } else {
                Err(CodingError::ControlBitError)
            }
        } else if h == 0 || v == 0 {
            Err(CodingError::ControlBitError)
        } else {
            Err(CodingError::UncorrectableError)
        }
    }
}

/// The padded length is a whole number of rows, and the encoded stream
/// is longer still; the row count times the row widths tie together.
pub proof fn lemma_geometry(n: nat, c: nat)
    requires
        c >= 1,
    ensures
        pad_len(n, c) < c,
        ((n + pad_len(n, c)) as int) % (c as int) == 0,
        (n + pad_len(n, c)) as int == (((n + pad_len(n, c)) / c) as int) * (c as int),
        (((n + pad_len(n, c)) / c) as int) * (c as int + 1) == (((n + pad_len(n, c)) / c) as int)
            * (c as int) + ((n + pad_len(n, c)) / c),
        encoded_len(n, c) == (((n + pad_len(n, c)) / c) as int) * (c as int + 1) + c + 1,
        n + pad_len(n, c) <= encoded_len(n, c),
{
    lemma_fundamental_div_mod(n as int, c as int);
    let q = (n as int) / (c as int);
    let r = (n as int) % (c as int);
    assert(n as int == (c as int) * q + r);
    let padl = pad_len(n, c);
    if r != 0 {
        lemma_small_mod((c - r) as nat, c);
        assert(padl as int == c - r);
        assert((n as int) + (padl as int) == (q + 1) * (c as int)) by (nonlinear_arith)
            requires
                n as int == (c as int) * q + r,
                padl as int == (c as int) - r,
        ;
        lemma_fundamental_div_mod_converse((n as int) + (padl as int), c as int, q + 1, 0);
    } else {
        lemma_mod_self_0(c as int);
        assert(padl == 0);
        assert((n as int) + (padl as int) == q * (c as int) + 0) by (nonlinear_arith)
            requires
                n as int == (c as int) * q + r,
                r == 0,
                padl == 0,
        ;
        lemma_fundamental_div_mod_converse((n as int) + (padl as int), c as int, q, 0);
    }
    let pl = (n + padl) as int;
    lemma_fundamental_div_mod(pl, c as int);
    let rws = pl / (c as int);
    assert(pl == rws * (c as int)) by (nonlinear_arith)
        requires
            pl % (c as int) == 0,
            c >= 1,
            pl >= 0,
            rws == pl / (c as int),
            pl == (c as int) * (pl / (c as int)) + pl % (c as int),
    ;
    assert(rws * (c as int + 1) == rws * (c as int) + rws) by (nonlinear_arith);
}

/// The input with zero bits appended up to the next multiple of `c`.
#[verifier::loop_isolation(false)]
fn build_padded(bits: &Vec<u8>, c: usize) -> (r: Vec<u8>)
    requires
        c >= 1,
        bits@.len() + c <= usize::MAX,
        bits01(bits@),
    ensures
        r@ == padded(bits@, c as nat),
        bits01(r@),
{
    let ghost s = bits@;
    let n = bits.len();
    let padl = (c - n % c) % c;
    proof {
        assert(padl == pad_len(s.len(), c as nat));
    }
    let mut work: Vec<u8> = Vec::new();
    for i in 0..n
        invariant
            work@ == s.subrange(0, i as int),
    {
        let b = bits[i];
        work.push(b);
        proof {
            assert(work@ =~= s.subrange(0, i + 1));
        }
    }
    proof {
        assert(s.subrange(0, n as int) =~= s);
    }
    for i in 0..padl
        invariant
            work@.len() == n + i,
            work@.subrange(0, n as int) =~= s,
            forall|k: int| n <= k < work@.len() ==> work@[k] == 0,
    {
        work.push(0);
    }
    proof {
        assert(work@ =~= padded(s, c as nat));
    }
    work
}

/// The data rows of the padded input, each closed by its parity bit.
#[verifier::loop_isolation(false)]
fn encode_rows(work: &Vec<u8>, c: usize, rows: usize, parity: u8, Ghost(s): Ghost<Seq<u8>>) -> (out: Vec<
    u8,
>)
    requires
        c >= 1,
        work@ == padded(s, c as nat),
        bits01(work@),
        rows == data_rows(s, c as nat),
        work@.len() == (rows as int) * (c as int),
        (rows as int) * (c as int) + rows <= usize::MAX,
    ensures
        out@.len() == (rows as int) * (c as int + 1),
        forall|i: int| 0 <= i < out@.len() ==> out@[i] == enc_bit(s, c as nat, parity, i),
        bits01(out@),
{
    let ghost cn = c as nat;
    let p = parity % 2;
    let mut out: Vec<u8> = Vec::new();
    proof {
        assert((rows as int) * (c as int + 1) == (rows as int) * (c as int) + rows)
            by (nonlinear_arith);
    }
    for y in 0..rows
        invariant
            out@.len() == (y as int) * (c as int + 1),
            forall|i: int| 0 <= i < out@.len() ==> out@[i] == enc_bit(s, cn, parity, i),
            bits01(out@),
    {
        let mut rsum: u8 = 0;
        proof {
            lemma_mul_inequality(y as int + 1, rows as int, c as int + 1);
            lemma_mul_inequality(y as int + 1, rows as int, c as int);
            assert((y as int + 1) * (c as int) == (y as int) * (c as int) + c)
                by (nonlinear_arith);
            assert((y as int + 1) * (c as int + 1) == (y as int) * (c as int + 1) + c + 1)
                by (nonlinear_arith);
        }
        for j in 0..c
            invariant
                out@.len() == (y as int) * (c as int + 1) + j,
                forall|i: int| 0 <= i < out@.len() ==> out@[i] == enc_bit(s, cn, parity, i),
                bits01(out@),
                rsum as nat == bit_sum(enc_row(s, cn, y as int).subrange(0, j as int)) % 2,
                rsum <= 1,
        {
            let b = work[y * c + j];
            out.push(b);
            rsum = (rsum + b) % 2;
            proof {
                let i = (y as int) * (c as int + 1) + j;
                lemma_fundamental_div_mod_converse(i, c as int + 1, y as int, j as int);
                assert(enc_row(s, cn, y as int)[j as int] == padded(s, cn)[(y as int) * (c as int)
                    + j]);
                lemma_bit_sum_snoc(enc_row(s, cn, y as int), j as int);
                assert(enc_bit(s, cn, parity, i) == b);
            }
        }
        let rp = (rsum + p) % 2;
        out.push(rp);
        proof {
            let i = (y as int) * (c as int + 1) + c;
            lemma_fundamental_div_mod_converse(i, c as int + 1, y as int, c as int);
            assert(enc_row(s, cn, y as int).subrange(0, c as int) =~= enc_row(s, cn, y as int));
            assert(enc_bit(s, cn, parity, i) == row_parity_bit(s, cn, parity, y as int));
        }
    }
    out
}

/// The trailing row of column parity bits over the padded input.
#[verifier::loop_isolation(false)]
fn column_parities(work: &Vec<u8>, c: usize, rows: usize, parity: u8, Ghost(s): Ghost<Seq<u8>>) -> (out: Vec<
    u8,
>)
    requires
        c >= 1,
        work@ == padded(s, c as nat),
        bits01(work@),
        rows == data_rows(s, c as nat),
        work@.len() == (rows as int) * (c as int),
        (rows as int) * (c as int) <= usize::MAX,
    ensures
        out@ == col_parity_row(s, c as nat, parity),
        bits01(out@),
{
    let ghost cn = c as nat;
    let p = parity % 2;
    let mut colrow: Vec<u8> = Vec::new();
    for x in 0..c
        invariant
            colrow@.len() == x,
            forall|k: int| 0 <= k < x ==> colrow@[k] == col_parity_bit(s, cn, parity, k),
            bits01(colrow@),
    {
        let mut csum: u8 = 0;
        for y in 0..rows
            invariant
                csum as nat == bit_sum(col_bits(s, cn, x as int).subrange(0, y as int)) % 2,
                csum <= 1,
        {
            proof {
                lemma_mul_inequality(y as int + 1, rows as int, c as int);
                assert((y as int + 1) * (c as int) == (y as int) * (c as int) + c)
                    by (nonlinear_arith);
            }
            let b = work[y * c + x];
            csum = (csum + b) % 2;
            proof {
                lemma_bit_sum_snoc(col_bits(s, cn, x as int), y as int);
                assert(col_bits(s, cn, x as int)[y as int] == padded(s, cn)[(y as int) * (c as int)
                    + x]);
            }
        }
        proof {
            assert(col_bits(s, cn, x as int).subrange(0, rows as int) =~= col_bits(
                s,
                cn,
                x as int,
            ));
        }
        colrow.push((csum + p) % 2);
    }
    proof {
        assert(colrow@ =~= col_parity_row(s, cn, parity));
    }
    colrow
}

/// Encode `bits` under the 2D parity scheme: pad to whole rows of
/// `chunksize`, close each row with its parity bit, append the column
/// parity row and the corner bit.
#[verifier::loop_isolation(false)]
pub fn add_parity_check(bits: &Vec<u8>, chunksize: usize, parity: u8) -> (r: Vec<u8>)
    requires
        chunksize >= 1,
        bits01(bits@),
        encoded_len(bits@.len() as nat, chunksize as nat) <= usize::MAX,
    ensures
        r@ == add_parity_spec(bits@, chunksize as nat, parity),
        bits01(r@),
{
    let ghost s = bits@;
    let ghost cn = chunksize as nat;
    let c = chunksize;
    let p = parity % 2;
    proof {
        lemma_geometry(s.len(), cn);
    }
    let work = build_padded(bits, c);
    let rows = work.len() / c;
    proof {
        assert(rows == data_rows(s, cn));
        assert(work@.len() == (rows as int) * (c as int));
        assert((rows as int) * (c as int + 1) == (rows as int) * (c as int) + rows);
        assert((rows as int) * (c as int) + rows <= usize::MAX);
    }
    let mut out = encode_rows(&work, c, rows, parity, Ghost(s));
    let colrow = column_parities(&work, c, rows, parity, Ghost(s));
    let mut crsum: u8 = 0;
    for x in 0..c
        invariant
            out@.len() == (rows as int) * (c as int + 1) + x,
            forall|i: int| 0 <= i < out@.len() ==> out@[i] == enc_bit(s, cn, parity, i),
            bits01(out@),
            crsum as nat == bit_sum(col_parity_row(s, cn, parity).subrange(0, x as int)) % 2,
            crsum <= 1,
    {
        let b = colrow[x];
        out.push(b);
        crsum = (crsum + b) % 2;
        proof {
            let i = (rows as int) * (c as int + 1) + x;
            assert(enc_bit(s, cn, parity, i) == col_parity_bit(s, cn, parity, x as int));
            lemma_bit_sum_snoc(col_parity_row(s, cn, parity), x as int);
        }
    }
    proof {
        assert(col_parity_row(s, cn, parity).subrange(0, c as int) =~= col_parity_row(
            s,
            cn,
            parity,
        ));
    }
    out.push((crsum + p) % 2);
    proof {
        let i = (rows as int) * (c as int + 1) + c;
        assert(enc_bit(s, cn, parity, i) == corner_bit(s, cn, parity));
        assert(out@ =~= add_parity_spec(s, cn, parity));
    }
    out
}


/// The indices of the received rows whose bit sum disagrees with the
/// configured parity, in increasing order.
#[verifier::loop_isolation(false)]
pub fn row_mismatches(bits: &Vec<u8>, chunksize: usize, parity: u8) -> (r: Vec<usize>)
    requires
        chunksize >= 1,
        chunksize < usize::MAX,
        bits01(bits@),
        (bits@.len() as int) % (chunksize as int + 1) == 0,
    ensures
        r@.len() == num_bad_rows(bits@, chunksize as nat, parity),
        forall|k: int|
            0 <= k < r@.len() ==> 0 <= r@[k] < recv_rows(bits@, chunksize as nat) && row_bad(
                bits@,
                chunksize as nat,
                parity,
                r@[k] as int,
            ),
        forall|k1: int, k2: int| 0 <= k1 < k2 < r@.len() ==> r@[k1] < r@[k2],
{
    let ghost t = bits@;
    let ghost cn = chunksize as nat;
    let stride = chunksize + 1;
    let nrows = bits.len() / stride;
    proof {
        lemma_fundamental_div_mod(t.len() as int, stride as int);
        assert((stride as int) * (nrows as int) == (nrows as int) * (stride as int))
            by (nonlinear_arith);
        assert(t.len() == (nrows as int) * (stride as int));
    }
    let mut bad: Vec<usize> = Vec::new();
    for y in 0..nrows
        invariant
            bad@.len() == count_true(row_flags(t, cn, parity).subrange(0, y as int)),
            forall|k: int|
                0 <= k < bad@.len() ==> 0 <= bad@[k] < y && row_bad(t, cn, parity, bad@[k] as int),
            forall|k1: int, k2: int| 0 <= k1 < k2 < bad@.len() ==> bad@[k1] < bad@[k2],
    {
        let mut sum: u8 = 0;
        proof {
            lemma_mul_inequality(y as int + 1, nrows as int, stride as int);
            assert((y as int + 1) * (stride as int) == (y as int) * (stride as int) + stride)
                by (nonlinear_arith);
        }
        for j in 0..stride
            invariant
                sum as nat == bit_sum(recv_row(t, cn, y as int).subrange(0, j as int)) % 2,
                sum <= 1,
        {
            let b = bits[y * stride + j];
            sum = (sum + b) % 2;
            proof {
                lemma_bit_sum_snoc(recv_row(t, cn, y as int), j as int);
                assert(recv_row(t, cn, y as int)[j as int] == t[(y as int) * (stride as int) + j]);
            }
        }
        proof {
            assert(recv_row(t, cn, y as int).subrange(0, stride as int) =~= recv_row(
                t,
                cn,
                y as int,
            ));
        }
        if sum != parity % 2 {
            bad.push(y);
        }
        proof {
            lemma_count_true_snoc(row_flags(t, cn, parity), y as int);
            assert(row_flags(t, cn, parity).subrange(0, y as int + 1).len() == y + 1);
        }
    }
    proof {
        assert(row_flags(t, cn, parity).subrange(0, nrows as int) =~= row_flags(t, cn, parity));
    }
    bad
}

/// The indices of the columns whose bit sum disagrees with the
/// configured parity, in increasing order.
#[verifier::loop_isolation(false)]
pub fn col_mismatches(bits: &Vec<u8>, chunksize: usize, parity: u8) -> (r: Vec<usize>)
    requires
        chunksize >= 1,
        chunksize < usize::MAX,
        bits01(bits@),
        (bits@.len() as int) % (chunksize as int + 1) == 0,
    ensures
        r@.len() == num_bad_cols(bits@, chunksize as nat, parity),
        forall|k: int|
            0 <= k < r@.len() ==> 0 <= r@[k] < chunksize && col_bad(
                bits@,
                chunksize as nat,
                parity,
                r@[k] as int,
            ),
        forall|k1: int, k2: int| 0 <= k1 < k2 < r@.len() ==> r@[k1] < r@[k2],
{
    let ghost t = bits@;
    let ghost cn = chunksize as nat;
    let stride = chunksize + 1;
    let nrows = bits.len() / stride;
    proof {
        lemma_fundamental_div_mod(t.len() as int, stride as int);
        assert((stride as int) * (nrows as int) == (nrows as int) * (stride as int))
            by (nonlinear_arith);
        assert(t.len() == (nrows as int) * (stride as int));
    }
    let mut bad: Vec<usize> = Vec::new();
    for x in 0..chunksize
        invariant
            bad@.len() == count_true(col_flags(t, cn, parity).subrange(0, x as int)),
            forall|k: int|
                0 <= k < bad@.len() ==> 0 <= bad@[k] < x && col_bad(t, cn, parity, bad@[k] as int),
            forall|k1: int, k2: int| 0 <= k1 < k2 < bad@.len() ==> bad@[k1] < bad@[k2],
    {
        let mut sum: u8 = 0;
        for y in 0..nrows
            invariant
                sum as nat == bit_sum(recv_col(t, cn, x as int).subrange(0, y as int)) % 2,
                sum <= 1,
        {
            proof {
                lemma_mul_inequality(y as int + 1, nrows as int, stride as int);
                assert((y as int + 1) * (stride as int) == (y as int) * (stride as int) + stride)
                    by (nonlinear_arith);
            }
            let b = bits[y * stride + x];
            sum = (sum + b) % 2;
            proof {
                lemma_bit_sum_snoc(recv_col(t, cn, x as int), y as int);
                assert(recv_col(t, cn, x as int)[y as int] == t[(y as int) * (stride as int) + x]);
            }
        }
        proof {
            assert(recv_col(t, cn, x as int).subrange(0, nrows as int) =~= recv_col(
                t,
                cn,
                x as int,
            ));
        }
        if sum != parity % 2 {
            bad.push(x);
        }
        proof {
            lemma_count_true_snoc(col_flags(t, cn, parity), x as int);
        }
    }
    proof {
        assert(col_flags(t, cn, parity).subrange(0, chunksize as int) =~= col_flags(
            t,
            cn,
            parity,
        ));
    }
    bad
}


/// Decode a received 2D-parity stream: verify both axes, strip every
/// parity bit, correct a single located bit flip, and report any other
/// syndrome as the error it signals. A single mismatch located in the
/// trailing parity row means a parity bit itself flipped: the data is
/// intact but unprovable, and a control bit error is reported.
#[verifier::loop_isolation(false)]
#[verifier::rlimit(60)]
pub fn check_parity(bits: &Vec<u8>, chunksize: usize, parity: u8) -> (r: Result<
    Vec<u8>,
    CodingError,
>)
    requires
        chunksize >= 1,
        chunksize < usize::MAX,
        bits01(bits@),
    ensures
        (match r {
            Ok(v) => check_parity_spec(bits@, chunksize as nat, parity) == Result::<
                Seq<u8>,
                CodingError,
            >::Ok(v@) && bits01(v@),
            Err(e) => check_parity_spec(bits@, chunksize as nat, parity) == Result::<
                Seq<u8>,
                CodingError,
            >::Err(e),
        }),
{
    let ghost t = bits@;
    let ghost cn = chunksize as nat;
    let c = chunksize;
    let stride = c + 1;
    if bits.len() % stride != 0 || bits.len() == 0 {
        proof {
            if bits.len() % stride == 0 && bits.len() == 0 {
                assert(!parity_shape(t, cn));
            }
        }
        return Err(CodingError::MalformedInput);
    }
    let nrows = bits.len() / stride;
    proof {
        lemma_fundamental_div_mod(t.len() as int, stride as int);
        assert((stride as int) * (nrows as int) == (nrows as int) * (stride as int))
            by (nonlinear_arith);
        assert(t.len() == (nrows as int) * (stride as int));
        assert(nrows >= 1);
        lemma_mul_inequality(1, nrows as int, stride as int);
        assert(parity_shape(t, cn));
        assert(nrows == recv_rows(t, cn));
        assert((nrows as int) * (stride as int) == (nrows as int) * (c as int) + nrows)
            by (nonlinear_arith)
            requires
                stride == c + 1,
        ;
    }
    let hbad = row_mismatches(bits, c, parity);
    let vbad = col_mismatches(bits, c, parity);
    let mut rec: Vec<u8> = Vec::new();
    for y in 0..(nrows - 1)
        invariant
            rec@.len() == (y as int) * (c as int),
            forall|i: int| 0 <= i < rec@.len() ==> rec@[i] == recovered(t, cn)[i],
            bits01(rec@),
    {
        proof {
            lemma_mul_inequality(y as int + 1, nrows as int - 1, c as int);
            lemma_mul_inequality(y as int + 1, nrows as int, stride as int);
            assert((y as int + 1) * (c as int) == (y as int) * (c as int) + c)
                by (nonlinear_arith);
            assert((y as int + 1) * (stride as int) == (y as int) * (stride as int) + stride)
                by (nonlinear_arith);
            assert((nrows as int - 1) * (c as int) <= (nrows as int) * (c as int))
                by (nonlinear_arith);
        }
        for j in 0..c
            invariant
                rec@.len() == (y as int) * (c as int) + j,
                forall|i: int| 0 <= i < rec@.len() ==> rec@[i] == recovered(t, cn)[i],
                bits01(rec@),
        {
            let b = bits[y * stride + j];
            rec.push(b);
            proof {
                let i = (y as int) * (c as int) + j;
                lemma_fundamental_div_mod_converse(i, c as int, y as int, j as int);
                assert(recovered(t, cn)[i] == t[(y as int) * (stride as int) + j]);
            }
        }
    }
    proof {
        assert((nrows as int - 1) * (c as int) >= 0) by (nonlinear_arith)
            requires
                nrows >= 1,
                c >= 1,
        ;
        assert(rec@ =~= recovered(t, cn));
    }
    if hbad.len() == 0 && vbad.len() == 0 {
        Ok(rec)
    } else if hbad.len() == 1 && vbad.len() == 1 {
        let y = hbad[0];
        let x = vbad[0];
        proof {
            assert(row_bad(t, cn, parity, y as int));
            assert(exists|yy: int| 0 <= yy < recv_rows(t, cn) && row_bad(t, cn, parity, yy)) by {
                assert(0 <= (y as int) && (y as int) < recv_rows(t, cn) && row_bad(t, cn, parity, y as int));
            }
            let tb = the_bad_row(t, cn, parity);
            assert(0 <= tb < recv_rows(t, cn) && row_bad(t, cn, parity, tb));
            lemma_count_true_one(row_flags(t, cn, parity), y as int);
            if tb != y as int {
                assert(!row_flags(t, cn, parity)[tb]);
                assert(false);
            }
            assert(the_bad_row(t, cn, parity) == y);
            assert(col_bad(t, cn, parity, x as int));
            assert(exists|xx: int| 0 <= xx < cn && col_bad(t, cn, parity, xx)) by {
                assert(0 <= (x as int) && (x as int) < cn && col_bad(t, cn, parity, x as int));
            }
            let tc = the_bad_col(t, cn, parity);
            assert(0 <= tc < cn && col_bad(t, cn, parity, tc));
            lemma_count_true_one(col_flags(t, cn, parity), x as int);
            if tc != x as int {
                assert(!col_flags(t, cn, parity)[tc]);
                assert(false);
            }
            assert(the_bad_col(t, cn, parity) == x);
        }
        if y < nrows - 1 {
            let rl = rec.len();
            proof {
                assert(rl == rec@.len() && rl <= usize::MAX);
                lemma_mul_inequality(y as int + 1, nrows as int - 1, c as int);
                assert((y as int + 1) * (c as int) == (y as int) * (c as int) + c)
                    by (nonlinear_arith);
                assert((c as int) * (y as int) == (y as int) * (c as int)) by (nonlinear_arith);
            }
            let pos = c * y + x;
            proof {
                assert(pos < rec@.len());
            }
            let cur = rec[pos];
            rec[pos] = (1 + cur) % 2;
            proof {
                assert(rec@ =~= recovered(t, cn).update(
                    the_bad_row(t, cn, parity) * (cn as int) + the_bad_col(t, cn, parity),
                    flip_bit(
                        recovered(t, cn)[the_bad_row(t, cn, parity) * (cn as int) + the_bad_col(
                            t,
                            cn,
                            parity,
                        )],
                    ),
                ));
            }
            Ok(rec)
        } else {
            Err(CodingError::ControlBitError)
        }
    } else if hbad.len() == 0 || vbad.len() == 0 {
        Err(CodingError::ControlBitError)
    } else {
        Err(CodingError::UncorrectableError)
    }
}

} // verus!