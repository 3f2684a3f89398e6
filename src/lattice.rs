//! The mathematical model of the lattice: cells, windows, scores and counts.
use vstd::prelude::*;

verus! {

/// Number of occupied (non-zero) cells.
pub open spec fn occupied(s: Seq<u8>) -> nat
    decreases s.len(),
{
    if s.len() == 0 {
        0
    } else {
        occupied(s.drop_last()) + if s.last() != 0 { 1nat } else { 0nat }
    }
}

pub proof fn lemma_occupied_update(s: Seq<u8>, k: int, v: u8)
    requires
        0 <= k < s.len(),
    ensures
        occupied(s.update(k, v)) == occupied(s) - (if s[k] != 0 { 1int } else { 0int }) + (
        if v != 0 { 1int } else { 0int }),
    decreases s.len(),
{
    if k == s.len() - 1 {
        assert(s.update(k, v).drop_last() =~= s.drop_last());
    } else {
        assert(s.update(k, v).drop_last() =~= s.drop_last().update(k, v));
        lemma_occupied_update(s.drop_last(), k, v);
    }
}

pub proof fn lemma_occupied_same_pattern(a: Seq<u8>, b: Seq<u8>)
    requires
        a.len() == b.len(),
        forall|k: int| 0 <= k < a.len() ==> (a[k] == 0) == (b[k] == 0),
    ensures
        occupied(a) == occupied(b),
    decreases a.len(),
{
    if a.len() > 0 {
        lemma_occupied_same_pattern(a.drop_last(), b.drop_last());
    }
}

pub proof fn lemma_occupied_take(s: Seq<u8>, k: int)
    requires
        0 <= k < s.len(),
    ensures
        occupied(s.take(k + 1)) == occupied(s.take(k)) + if s[k] != 0 { 1nat } else { 0nat },
{
    assert(s.take(k + 1).drop_last() =~= s.take(k));
}

/// Flat position of column `x`, row `y`.
pub open spec fn idx(size: int, x: int, y: int) -> int {
    y * size + x
}

pub proof fn lemma_idx(size: int, x: int, y: int)
    requires
        0 <= x < size,
        0 <= y < size,
    ensures
        0 <= idx(size, x, y) < size * size,
        idx(size, x, y) % size == x,
        idx(size, x, y) / size == y,
{
    assert(0 <= y * size + x < size * size) by (nonlinear_arith)
        requires
            0 <= x < size,
            0 <= y < size,
    ;
    vstd::arithmetic::div_mod::lemma_fundamental_div_mod_converse(y * size + x, size, y, x);
}

pub proof fn lemma_mul_le(a: int, b: int, c: int, d: int)
    requires
        0 <= a <= c,
        0 <= b <= d,
    ensures
        0 <= a * b <= c * d,
{
    assert(0 <= a * b <= c * d) by (nonlinear_arith)
        requires
            0 <= a <= c,
            0 <= b <= d,
    ;
}

/// Lower end of the window of half-width `r` around `c`, clamped at zero.
pub open spec fn lo(c: int, r: int) -> int {
    if c >= r { c - r } else { 0 }
}

/// Upper end of the window of half-width `r` around `c`, clamped at the last line.
pub open spec fn hi(c: int, r: int, size: int) -> int {
    if c + r <= size - 1 { c + r } else { size - 1 }
}

/// Whether flat position `k` lies in the clamped 3x3 neighbourhood of `(x, y)`.
pub open spec fn in_moore(size: int, x: int, y: int, k: int) -> bool {
    lo(x, 1) <= k % size <= hi(x, 1, size) && lo(y, 1) <= k / size <= hi(y, 1, size)
}

} // verus!

verus! {

/// Whether some cell of the 3x3 neighbourhood of `(x, y)` holds type `t`.
pub open spec fn has_type_near(cells: Seq<u8>, size: int, x: int, y: int, t: u8) -> bool {
    exists|k: int| 0 <= k < cells.len() && in_moore(size, x, y, k) && #[trigger] cells[k] == t
}

/// The cells with every `from` of the neighbourhood of `(x, y)` turned into `to`.
pub open spec fn relabel(cells: Seq<u8>, size: int, x: int, y: int, from: u8, to: u8) -> Seq<u8> {
    Seq::new(
        cells.len(),
        |k: int|
            if in_moore(size, x, y, k) && cells[k] == from {
                to
            } else {
                cells[k]
            },
    )
}

/// Score of one neighbour type for a particle whose affinity row is `row`.
pub open spec fn cell_score(row: Seq<i8>, t: u8) -> int {
    if t == 0 {
        0
    } else if row[t as int] == 1 {
        1
    } else {
        -1
    }
}

/// Sum of the scores of the cells `x0..=x1` of row `y`.
pub open spec fn row_sum(cells: Seq<u8>, size: int, row: Seq<i8>, y: int, x0: int, x1: int) -> int
    decreases x1 - x0 + 1,
{
    if x1 < x0 {
        0
    } else {
        row_sum(cells, size, row, y, x0, x1 - 1) + cell_score(row, cells[idx(size, x1, y)])
    }
}

/// Sum of the scores of the rectangle `x0..=x1` by `y0..=y1`.
pub open spec fn win_sum(
    cells: Seq<u8>,
    size: int,
    row: Seq<i8>,
    x0: int,
    x1: int,
    y0: int,
    y1: int,
) -> int
    decreases y1 - y0 + 1,
{
    if y1 < y0 {
        0
    } else {
        win_sum(cells, size, row, x0, x1, y0, y1 - 1) + row_sum(cells, size, row, y1, x0, x1)
    }
}

pub proof fn lemma_row_bound(cells: Seq<u8>, size: int, row: Seq<i8>, y: int, x0: int, x1: int)
    requires
        x0 <= x1 + 1,
    ensures
        -(x1 - x0 + 1) <= row_sum(cells, size, row, y, x0, x1) <= x1 - x0 + 1,
    decreases x1 - x0 + 1,
{
    if x1 >= x0 {
        lemma_row_bound(cells, size, row, y, x0, x1 - 1);
    }
}

pub proof fn lemma_win_bound(
    cells: Seq<u8>,
    size: int,
    row: Seq<i8>,
    x0: int,
    x1: int,
    y0: int,
    y1: int,
)
    requires
        x0 <= x1 + 1,
        y0 <= y1 + 1,
    ensures
        -((y1 - y0 + 1) * (x1 - x0 + 1)) <= win_sum(cells, size, row, x0, x1, y0, y1) <= (y1 - y0
            + 1) * (x1 - x0 + 1),
    decreases y1 - y0 + 1,
{
    if y1 >= y0 {
        lemma_win_bound(cells, size, row, x0, x1, y0, y1 - 1);
        lemma_row_bound(cells, size, row, y1, x0, x1);
        let w = x1 - x0 + 1;
        assert((y1 - y0) * w + w == (y1 - y0 + 1) * w) by (nonlinear_arith);
    }
}

/// `s1 / c1 >= s2 / c2`, for positive counts, without division.
pub open spec fn ratio_ge(s1: int, c1: int, s2: int, c2: int) -> bool {
    s1 * c2 >= s2 * c1
}

pub proof fn lemma_ratio_trans(s1: int, c1: int, s2: int, c2: int, s3: int, c3: int)
    requires
        c1 > 0,
        c2 > 0,
        c3 > 0,
        ratio_ge(s1, c1, s2, c2),
        ratio_ge(s2, c2, s3, c3),
    ensures
        ratio_ge(s1, c1, s3, c3),
{
    assert(s1 * c3 >= s3 * c1) by (nonlinear_arith)
        requires
            c1 > 0,
            c2 > 0,
            c3 > 0,
            s1 * c2 >= s2 * c1,
            s2 * c3 >= s3 * c2,
    ;
}

} // verus!

verus! {

/// A sequence is fully occupied exactly when its count equals its length.
pub proof fn lemma_occupied_full(s: Seq<u8>)
    ensures
        occupied(s) <= s.len(),
        occupied(s) == s.len() <==> forall|k: int| 0 <= k < s.len() ==> #[trigger] s[k] != 0,
    decreases s.len(),
{
    if s.len() > 0 {
        let f = s.drop_last();
        lemma_occupied_full(f);
        if occupied(s) == s.len() {
            assert forall|k: int| 0 <= k < s.len() implies #[trigger] s[k] != 0 by {
                if k < s.len() - 1 {
                    assert(s[k] == f[k]);
                }
            }
        }
        if forall|k: int| 0 <= k < s.len() ==> #[trigger] s[k] != 0 {
            assert forall|k: int| 0 <= k < f.len() implies #[trigger] f[k] != 0 by {
                assert(s[k] == f[k]);
            }
        }
    }
}

} // verus!
