//! The particle engine: its state, the two rules and the step scheduler.
use crate::lattice::{
    has_type_near, hi, idx, in_moore, lemma_idx, lemma_mul_le, lemma_occupied_same_pattern,
    lemma_occupied_take, lemma_occupied_update, lemma_ratio_trans, lemma_win_bound,
    lo, occupied, ratio_ge, relabel, row_sum, win_sum,
};
use crate::random::{choose_item, random_below, rng_from_os, rng_from_seed};
use crate::text::{debug_line, decimal_text};
use vstd::string::StringExecFns;
use vstd::prelude::*;

verus! {

/// Why an update of the rule tables was refused; the tables are then unchanged.
#[derive(Debug, Clone, Copy, PartialEq, Eq, Structural)]
pub enum UpdateError {
    /// A supplied array is too short for the number of types.
    SizeMismatch,
    /// A supplied table names a type outside `1..=num_types`.
    InvalidTypeId,
}

/// A square lattice of typed particles. Cell `(x, y)` is stored at `y * size + x`;
/// type 0 is an empty cell. The density is given in millionths.
pub struct ParticleGrid {
    size: usize,
    num_types: usize,
    density: u32,
    radius: usize,
    cells: Vec<u8>,
    affinity: Vec<Vec<i8>>,
    copy_type: Vec<u8>,
    replace_type: Vec<u8>,
    rng: rand::rngs::StdRng,
}

/// The abstract state of a [`ParticleGrid`].
pub struct GridView {
    pub size: int,
    pub num_types: int,
    pub density: int,
    pub radius: int,
    pub cells: Seq<u8>,
    pub affinity: Seq<Seq<i8>>,
    pub copy_type: Seq<u8>,
    pub replace_type: Seq<u8>,
}

impl View for ParticleGrid {
    type V = GridView;

    closed spec fn view(&self) -> GridView {
        GridView {
            size: self.size as int,
            num_types: self.num_types as int,
            density: self.density as int,
            radius: self.radius as int,
            cells: self.cells@,
            affinity: self.affinity@.map_values(|r: Vec<i8>| r@),
            copy_type: self.copy_type@,
            replace_type: self.replace_type@,
        }
    }
}

/// The state invariant: shapes agree and every type in use is in `0..=num_types`.
pub open spec fn wf_view(g: GridView) -> bool {
    &&& 0 <= g.size
    &&& g.size * g.size <= isize::MAX
    &&& g.cells.len() == g.size * g.size
    &&& 0 <= g.num_types <= 255
    &&& 0 <= g.radius <= usize::MAX
    &&& 0 <= g.density <= u32::MAX
    &&& g.affinity.len() == g.num_types + 1
    &&& forall|t: int| 0 <= t < g.affinity.len() ==> #[trigger] g.affinity[t].len() == g.num_types + 1
    &&& g.copy_type.len() > g.num_types
    &&& g.replace_type.len() > g.num_types
    &&& forall|k: int| 0 <= k < g.cells.len() ==> #[trigger] g.cells[k] <= g.num_types
    &&& forall|t: int| 1 <= t <= g.num_types ==> 1 <= #[trigger] g.copy_type[t] <= g.num_types
    &&& forall|t: int| 1 <= t <= g.num_types ==> 1 <= #[trigger] g.replace_type[t] <= g.num_types
}

/// Everything but the cells is the same.
pub open spec fn same_config(a: GridView, b: GridView) -> bool {
    &&& a.size == b.size
    &&& a.num_types == b.num_types
    &&& a.density == b.density
    &&& a.radius == b.radius
    &&& a.affinity == b.affinity
    &&& a.copy_type == b.copy_type
    &&& a.replace_type == b.replace_type
}

/// The cells after the replacement rule at `(x, y)`.
pub open spec fn replaced(g: GridView, x: int, y: int) -> Seq<u8> {
    let p = g.cells[idx(g.size, x, y)];
    let ct = g.copy_type[p as int];
    let rt = g.replace_type[p as int];
    if p != 0 && has_type_near(g.cells, g.size, x, y, ct) {
        relabel(g.cells, g.size, x, y, rt, ct)
    } else {
        g.cells
    }
}

/// Score that a particle of type `p` gives the window around `(i, j)`.
pub open spec fn score_at(g: GridView, p: u8, i: int, j: int) -> int {
    win_sum(
        g.cells,
        g.size,
        g.affinity[p as int],
        lo(i, g.radius),
        hi(i, g.radius, g.size),
        lo(j, g.radius),
        hi(j, g.radius, g.size),
    )
}

/// Number of cells of the window around `(i, j)`.
pub open spec fn count_at(g: GridView, i: int, j: int) -> int {
    (hi(i, g.radius, g.size) - lo(i, g.radius) + 1) * (hi(j, g.radius, g.size) - lo(j, g.radius)
        + 1)
}

/// `(i1, j1)` scores at least as well as `(i2, j2)` for type `p`, scores normalised by count.
pub open spec fn at_least_as_good(g: GridView, p: u8, i1: int, j1: int, i2: int, j2: int) -> bool {
    ratio_ge(score_at(g, p, i1, j1), count_at(g, i1, j1), score_at(g, p, i2, j2), count_at(g, i2, j2))
}

/// `(i, j)` is an empty cell of the 3x3 neighbourhood of `(x, y)`.
pub open spec fn empty_near(g: GridView, x: int, y: int, i: int, j: int) -> bool {
    &&& lo(x, 1) <= i <= hi(x, 1, g.size)
    &&& lo(y, 1) <= j <= hi(y, 1, g.size)
    &&& g.cells[idx(g.size, i, j)] == 0
}

/// `(i, j)` is an empty neighbour of `(x, y)` that no other empty neighbour outscores.
pub open spec fn best_destination(g: GridView, x: int, y: int, i: int, j: int) -> bool {
    let p = g.cells[idx(g.size, x, y)];
    &&& empty_near(g, x, y, i, j)
    &&& forall|a: int, b: int| #[trigger] empty_near(g, x, y, a, b) ==> at_least_as_good(g, p, i, j, a, b)
}

/// Cell `(x, y)`: row-major, `x` varying fastest.
pub open spec fn cell_at(g: GridView, x: int, y: int) -> u8 {
    g.cells[idx(g.size, x, y)]
}

/// The cells after the movement rule at `(x, y)`: the particle there moved to a
/// best empty neighbour, or stayed where no neighbour is empty.
pub open spec fn moved(g: GridView, x: int, y: int, cells: Seq<u8>) -> bool {
    let p = cell_at(g, x, y);
    if p == 0 || !(exists|i: int, j: int| empty_near(g, x, y, i, j)) {
        cells == g.cells
    } else {
        exists|i: int, j: int|
            best_destination(g, x, y, i, j) && cells == g.cells.update(idx(g.size, i, j), p).update(
                idx(g.size, x, y),
                0,
            )
    }
}

/// How many particles one step samples: `floor(0.2 * density * size^2)`, with the
/// density in millionths.
pub open spec fn updates_of(g: GridView) -> int {
    g.density * (g.size * g.size) / 5_000_000
}

/// Some type in `1..=n` differs from both `a` and `b`.
pub open spec fn has_other(n: int, a: int, b: int) -> bool {
    exists|c: int| 1 <= c <= n && #[trigger] differs_from(c, a, b)
}

pub open spec fn differs_from(c: int, a: int, b: int) -> bool {
    c != a && c != b
}

/// The affinity matrix read row-major from a flat array, each value truncated to `i8`.
pub open spec fn affinity_of(values: Seq<i32>, n: int, aff: Seq<Seq<i8>>) -> bool {
    &&& aff.len() == n + 1
    &&& forall|t: int| 0 <= t <= n ==> (#[trigger] aff[t]).len() == n + 1
    &&& forall|t: int, u: int| 0 <= t <= n && 0 <= u <= n ==> #[trigger] aff[t][u] == values[t * (n + 1) + u] as i8
}

/// Every entry of a well-shaped matrix is `+1` or `-1`.
pub open spec fn unit_affinity(n: int, aff: Seq<Seq<i8>>) -> bool {
    &&& aff.len() == n + 1
    &&& forall|t: int| 0 <= t <= n ==> (#[trigger] aff[t]).len() == n + 1
    &&& forall|t: int, u: int| 0 <= t <= n && 0 <= u <= n ==> #[trigger] aff[t][u] == 1 || aff[t][u] == -1
}

/// Entries `1..=n` of a rule table all name a type in `1..=n`.
pub open spec fn valid_table(s: Seq<u8>, n: int) -> bool {
    forall|t: int| 1 <= t <= n ==> 1 <= #[trigger] s[t] <= n
}

/// The copy targets as drawn at construction: another type where there is one.
pub open spec fn copy_table_ok(n: int, copy: Seq<u8>) -> bool {
    &&& copy.len() == n + 1
    &&& forall|t: int|
        0 <= t <= n ==> if has_other(n, t, t) {
            1 <= #[trigger] copy[t] <= n && copy[t] != t
        } else {
            copy[t] == if n == 0 { 0 } else { t % n + 1 }
        }
}

/// The replace targets as drawn at construction: a type other than `t` and its
/// copy target where there is one, else type 1.
pub open spec fn replace_table_ok(n: int, copy: Seq<u8>, replace: Seq<u8>) -> bool {
    &&& replace.len() == n + 1
    &&& forall|t: int|
        0 <= t <= n ==> if has_other(n, t, copy[t] as int) {
            1 <= #[trigger] replace[t] <= n && replace[t] != t && replace[t] != copy[t]
        } else {
            replace[t] == if n >= 1 { 1u8 } else { 0u8 }
        }
}

/// The affinity matrix a new grid starts with: read from `values` where it is
/// long enough, else coin flips.
pub open spec fn initial_affinity(values: Option<Vec<i32>>, n: int, aff: Seq<Seq<i8>>) -> bool {
    match values {
        Some(v) => if v@.len() >= (n + 1) * (n + 1) {
            affinity_of(v@, n, aff)
        } else {
            unit_affinity(n, aff)
        },
        None => unit_affinity(n, aff),
    }
}

/// `g` with its cells replaced by `cells`.
pub open spec fn with_cells(g: GridView, cells: Seq<u8>) -> GridView {
    GridView {
        size: g.size,
        num_types: g.num_types,
        density: g.density,
        radius: g.radius,
        cells: cells,
        affinity: g.affinity,
        copy_type: g.copy_type,
        replace_type: g.replace_type,
    }
}

/// One sample of the scheduler at `(x, y)`, a cell occupied in `g` when the step
/// began: where the cell is empty in `before` nothing happens, else the
/// replacement rule and then the movement rule are applied there.
pub open spec fn sampled(g: GridView, before: Seq<u8>, after: Seq<u8>, x: int, y: int) -> bool {
    &&& 0 <= x < g.size
    &&& 0 <= y < g.size
    &&& g.cells[idx(g.size, x, y)] != 0
    &&& if before[idx(g.size, x, y)] == 0 {
        after == before
    } else {
        moved(with_cells(g, replaced(with_cells(g, before), x, y)), x, y, after)
    }
}

/// A sample at `(x, y)` that found the cell occupied and applied the rules.
pub open spec fn rules_applied(g: GridView, before: Seq<u8>, after: Seq<u8>, x: int, y: int) -> bool {
    &&& sampled(g, before, after, x, y)
    &&& before[idx(g.size, x, y)] != 0
}

/// Each entry of `trace` follows from the one before by one sample of a cell that
/// was occupied in `g`.
pub open spec fn valid_trace(g: GridView, trace: Seq<Seq<u8>>) -> bool {
    &&& trace.len() > 0
    &&& trace[0] == g.cells
    &&& forall|i: int| 0 <= i < trace.len() - 1 ==> #[trigger] one_sample(g, trace[i], trace[i + 1])
}

/// One iteration of the scheduler.
pub open spec fn one_sample(g: GridView, before: Seq<u8>, after: Seq<u8>) -> bool {
    exists|x: int, y: int| #[trigger] sampled(g, before, after, x, y)
}

/// Sample `j` found flat position `k` empty, so `k` left the sample list.
pub open spec fn dropped_at(trace: Seq<Seq<u8>>, picks: Seq<int>, j: int, k: int) -> bool {
    &&& 0 <= j < picks.len()
    &&& picks[j] == k
    &&& trace[j][k] == 0
}

/// The positions `picks` that the samples of `trace` were taken at: each was
/// occupied when the step began, none is taken again once it left the list, and
/// either every sample of the budget was taken or every occupied position left
/// the list.
pub open spec fn schedule_ok(g: GridView, trace: Seq<Seq<u8>>, picks: Seq<int>, budget: int) -> bool {
    &&& picks.len() + 1 == trace.len()
    &&& forall|i: int|
        0 <= i < picks.len() ==> 0 <= #[trigger] picks[i] < g.cells.len() && sampled(
            g,
            trace[i],
            trace[i + 1],
            picks[i] % g.size,
            picks[i] / g.size,
        )
    &&& forall|i: int, j: int|
        0 <= j < i < picks.len() && #[trigger] dropped_at(trace, picks, j, picks[j]) ==> #[trigger] picks[i] != picks[j]
    &&& picks.len() == budget || forall|k: int|
        0 <= k < g.cells.len() && #[trigger] g.cells[k] != 0 ==> exists|j: int| #[trigger] dropped_at(trace, picks, j, k)
}

/// What one step may do: keep the configuration and the number of particles, and
/// leave the cells alone when nothing is sampled.
pub open spec fn step_outcome(a: GridView, b: GridView) -> bool {
    &&& wf_view(b)
    &&& same_config(b, a)
    &&& occupied(b.cells) == occupied(a.cells)
    &&& (updates_of(a) == 0 || occupied(a.cells) == 0 ==> b.cells == a.cells)
}

/// However many steps are taken, the number of occupied cells stays what it was.
pub proof fn lemma_steps_keep_count(states: Seq<GridView>)
    requires
        states.len() > 0,
        forall|i: int| 0 <= i < states.len() - 1 ==> step_outcome(#[trigger] states[i], states[i + 1]),
    ensures
        occupied(states.last().cells) == occupied(states[0].cells),
    decreases states.len(),
{
    if states.len() > 1 {
        let front = states.drop_last();
        assert forall|i: int| 0 <= i < front.len() - 1 implies step_outcome(#[trigger] front[i], front[i + 1]) by {
            assert(front[i] == states[i] && front[i + 1] == states[i + 1]);
        }
        lemma_steps_keep_count(front);
        assert(step_outcome(states[states.len() - 2], states[states.len() - 1]));
    }
}

/// A step on a grid with no empty cell leaves no empty cell: every particle stays
/// where it was, and only relabelling can happen.
pub proof fn lemma_full_grid_stays_full(a: GridView, b: GridView)
    requires
        step_outcome(a, b),
        a.cells.len() == b.cells.len(),
        forall|k: int| 0 <= k < a.cells.len() ==> #[trigger] a.cells[k] != 0,
    ensures
        forall|k: int| 0 <= k < b.cells.len() ==> #[trigger] b.cells[k] != 0,
{
    crate::lattice::lemma_occupied_full(a.cells);
    crate::lattice::lemma_occupied_full(b.cells);
}

/// With at least two types, no type copies itself; with at least three, no type
/// is replaced by itself or by its own copy target.
pub proof fn lemma_distinct_targets(n: int, copy: Seq<u8>, replace: Seq<u8>)
    requires
        copy_table_ok(n, copy),
        replace_table_ok(n, copy, replace),
    ensures
        n >= 2 ==> forall|t: int| 1 <= t <= n ==> #[trigger] copy[t] != t,
        n >= 3 ==> forall|t: int| 1 <= t <= n ==> #[trigger] replace[t] != t && replace[t] != copy[t],
{
    assert forall|t: int| 1 <= t <= n && n >= 2 implies #[trigger] copy[t] != t by {
        assert(differs_from(if t == 1 { 2 } else { 1 }, t, t));
    }
    assert forall|t: int| 1 <= t <= n && n >= 3 implies #[trigger] replace[t] != t && replace[t] != copy[t] by {
        let c = copy[t] as int;
        if differs_from(1, t, c) {
        } else if differs_from(2, t, c) {
        } else {
            assert(differs_from(3, t, c));
        }
    }
}

proof fn lemma_div_mod_all(size: int)
    requires
        size > 0,
    ensures
        forall|k: int| 0 <= k < size * size ==> 0 <= #[trigger] (k % size) < size && 0 <= k / size < size,
{
    assert forall|k: int| 0 <= k < size * size implies 0 <= #[trigger] (k % size) < size && 0 <= k / size < size by {
        vstd::arithmetic::div_mod::lemma_fundamental_div_mod(k, size);
        vstd::arithmetic::div_mod::lemma_mod_bound(k, size);
        let q = k / size;
        let r = k % size;
        assert(0 <= q < size) by (nonlinear_arith)
            requires
                k == size * q + r,
                0 <= r < size,
                0 <= k < size * size,
        ;
    }
}

/// The only position of column `i`, row `j` is `j * size + i`.
proof fn lemma_only_position(size: int, i: int, j: int)
    requires
        size > 0,
    ensures
        forall|k: int| 0 <= k && k / size == j && #[trigger] (k % size) == i ==> k == j * size + i,
{
    assert forall|k: int| 0 <= k && k / size == j && #[trigger] (k % size) == i implies k == j * size + i by {
        vstd::arithmetic::div_mod::lemma_fundamental_div_mod(k, size);
        let q = k / size;
        assert(size * q == j * size) by (nonlinear_arith)
            requires
                q == j,
        ;
    }
}

proof fn lemma_count_pos(g: GridView, i: int, j: int)
    requires
        0 <= i < g.size,
        0 <= j < g.size,
        g.radius >= 0,
    ensures
        0 < count_at(g, i, j) <= g.size * g.size,
{
    lemma_mul_le(1, 1, hi(i, g.radius, g.size) - lo(i, g.radius) + 1, hi(j, g.radius, g.size) - lo(j, g.radius) + 1);
    lemma_mul_le(hi(i, g.radius, g.size) - lo(i, g.radius) + 1, hi(j, g.radius, g.size) - lo(j, g.radius) + 1, g.size, g.size);
}

proof fn lemma_prod_bound(s: int, c: int)
    requires
        -(isize::MAX as int) <= s <= isize::MAX,
        0 < c <= isize::MAX,
    ensures
        i128::MIN <= s * c <= i128::MAX,
{
    let m: int = 0x8000_0000_0000_0000;
    assert(-(m * m) <= s * c <= m * m) by (nonlinear_arith)
        requires
            -m <= s <= m,
            0 < c <= m,
    ;
    assert(m * m == 0x4000_0000_0000_0000_0000_0000_0000_0000);
}

impl ParticleGrid {
    pub open spec fn wf(&self) -> bool {
        wf_view(self@)
    }

    /// Replacement rule: if the neighbourhood of `(x, y)` holds the copy target of
    /// its type, every replace target there becomes the copy target.
    fn try_replace_particle(&mut self, x: usize, y: usize)
        requires
            old(self).wf(),
            x < old(self)@.size,
            y < old(self)@.size,
        ensures
            final(self).wf(),
            same_config(final(self)@, old(self)@),
            final(self)@.cells == replaced(old(self)@, x as int, y as int),
    {
        let ghost g0 = self@;
        let size = self.size;
        proof {
            lemma_idx(size as int, x as int, y as int);
        }
        let p = self.cells[y * size + x];
        if p == 0 {
            return ;
        }
        let ct = self.copy_type[p as usize];
        let rt = self.replace_type[p as usize];
        let x0: usize = if x > 0 { x - 1 } else { 0 };
        let x1: usize = if x + 1 <= size - 1 { x + 1 } else { size - 1 };
        let y0: usize = if y > 0 { y - 1 } else { 0 };
        let y1: usize = if y + 1 <= size - 1 { y + 1 } else { size - 1 };
        proof {
            lemma_div_mod_all(size as int);
        }
        assert(x0 <= x1 && y0 <= y1);
        let mut found = false;
        let mut j: usize = y0;
        while j <= y1 && !found
            invariant
                self@ == g0,
                wf_view(g0),
                size == g0.size,
                y0 == lo(y as int, 1),
                y1 == hi(y as int, 1, size as int),
                x0 == lo(x as int, 1),
                x1 == hi(x as int, 1, size as int),
                x1 < size,
                y1 < size,
                x0 <= x1,
                y0 <= j <= y1 + 1,
                found ==> has_type_near(g0.cells, size as int, x as int, y as int, ct),
                !found ==> forall|k: int|
                    0 <= k < g0.cells.len() && in_moore(size as int, x as int, y as int, k) && k
                        / (size as int) < j ==> #[trigger] g0.cells[k] != ct,
            decreases y1 + 1 - j,
        {
            let mut i: usize = x0;
            while i <= x1 && !found
                invariant
                    self@ == g0,
                    wf_view(g0),
                    size == g0.size,
                    y0 == lo(y as int, 1),
                    y1 == hi(y as int, 1, size as int),
                    x0 == lo(x as int, 1),
                    x1 == hi(x as int, 1, size as int),
                    x1 < size,
                    y1 < size,
                    y0 <= j <= y1,
                    x0 <= i <= x1 + 1,
                    x0 <= x1,
                    found ==> has_type_near(g0.cells, size as int, x as int, y as int, ct),
                    !found ==> forall|k: int|
                        0 <= k < g0.cells.len() && in_moore(size as int, x as int, y as int, k) && (k
                            / (size as int) < j || (k / (size as int) == j && k % (size as int) < i))
                            ==> #[trigger] g0.cells[k] != ct,
                decreases x1 + 1 - i,
            {
                proof {
                    lemma_idx(size as int, i as int, j as int);
                    lemma_only_position(size as int, i as int, j as int);
                }
                if self.cells[j * size + i] == ct {
                    found = true;
                    assert(in_moore(size as int, x as int, y as int, (j * size + i) as int));
                }
                i += 1;
            }
            j += 1;
        }
        if !found {
            return ;
        }
        let mut j: usize = y0;
        while j <= y1
            invariant
                same_config(self@, g0),
                wf_view(g0),
                size == g0.size,
                1 <= ct <= g0.num_types,
                self.cells@.len() == g0.cells.len(),
                y0 == lo(y as int, 1),
                y1 == hi(y as int, 1, size as int),
                x0 == lo(x as int, 1),
                x1 == hi(x as int, 1, size as int),
                x1 < size,
                y1 < size,
                x0 <= x1,
                y0 <= j <= y1 + 1,
                forall|k: int|
                    0 <= k < g0.cells.len() ==> #[trigger] self.cells@[k] == if in_moore(size as int, x as int, y as int, k)
                        && k / (size as int) < j && g0.cells[k] == rt {
                        ct
                    } else {
                        g0.cells[k]
                    },
            decreases y1 + 1 - j,
        {
            let mut i: usize = x0;
            while i <= x1
                invariant
                    same_config(self@, g0),
                    wf_view(g0),
                    size == g0.size,
                    1 <= ct <= g0.num_types,
                    self.cells@.len() == g0.cells.len(),
                    y0 == lo(y as int, 1),
                    y1 == hi(y as int, 1, size as int),
                    x0 == lo(x as int, 1),
                    x1 == hi(x as int, 1, size as int),
                    x1 < size,
                    y1 < size,
                    y0 <= j <= y1,
                    x0 <= i <= x1 + 1,
                    x0 <= x1,
                    forall|k: int|
                        0 <= k < g0.cells.len() ==> #[trigger] self.cells@[k] == if in_moore(size as int, x as int, y as int, k)
                            && (k / (size as int) < j || (k / (size as int) == j && k % (size as int) < i))
                            && g0.cells[k] == rt {
                            ct
                        } else {
                            g0.cells[k]
                        },
                decreases x1 + 1 - i,
            {
                proof {
                    lemma_idx(size as int, i as int, j as int);
                    lemma_only_position(size as int, i as int, j as int);
                }
                let k = j * size + i;
                if self.cells[k] == rt {
                    self.cells.set(k, ct);
                }
                i += 1;
            }
            j += 1;
        }
        assert(self.cells@ =~= relabel(g0.cells, size as int, x as int, y as int, rt, ct));
    }

    /// Score and cell count of the window of half-width `radius` around `(i, j)`,
    /// as seen by a particle of type `p`.
    fn window_score(&self, p: u8, i: usize, j: usize) -> (r: (i64, i64))
        requires
            self.wf(),
            p <= self@.num_types,
            i < self@.size,
            j < self@.size,
        ensures
            r.0 == score_at(self@, p, i as int, j as int),
            r.1 == count_at(self@, i as int, j as int),
            0 < r.1 <= self@.size * self@.size,
            -r.1 <= r.0 <= r.1,
    {
        let size = self.size;
        let rad = self.radius;
        let rx0: usize = if i >= rad { i - rad } else { 0 };
        let rx1: usize = if rad <= size - 1 - i { i + rad } else { size - 1 };
        let ry0: usize = if j >= rad { j - rad } else { 0 };
        let ry1: usize = if rad <= size - 1 - j { j + rad } else { size - 1 };
        let row: &Vec<i8> = &self.affinity[p as usize];
        let ghost cells = self@.cells;
        let ghost w = rx1 - rx0 + 1;
        proof {
            assert(row@ == self@.affinity[p as int]);
            lemma_mul_le(ry1 - ry0 + 1, w, size as int, size as int);
        }
        let mut score: i64 = 0;
        let mut yy: usize = ry0;
        while yy <= ry1
            invariant
                self.wf(),
                size == self@.size,
                cells == self@.cells,
                row@ == self@.affinity[p as int],
                row@.len() == self@.num_types + 1,
                rx0 <= rx1 < size,
                ry0 <= ry1 < size,
                w == rx1 - rx0 + 1,
                ry0 <= yy <= ry1 + 1,
                score == win_sum(cells, size as int, row@, rx0 as int, rx1 as int, ry0 as int, yy - 1),
                -((yy - ry0) * w) <= score <= (yy - ry0) * w,
            decreases ry1 + 1 - yy,
        {
            let mut acc: i64 = 0;
            let mut xx: usize = rx0;
            while xx <= rx1
                invariant
                    self.wf(),
                    size == self@.size,
                    cells == self@.cells,
                    row@ == self@.affinity[p as int],
                    row@.len() == self@.num_types + 1,
                    rx0 <= rx1 < size,
                    ry0 <= yy <= ry1,
                    ry1 < size,
                    rx0 <= xx <= rx1 + 1,
                    acc == row_sum(cells, size as int, row@, yy as int, rx0 as int, xx - 1),
                    -(xx - rx0) <= acc <= xx - rx0,
                decreases rx1 + 1 - xx,
            {
                proof {
                    lemma_idx(size as int, xx as int, yy as int);
                }
                let t = self.cells[yy * size + xx];
                if t != 0 {
                    if row[t as usize] == 1 {
                        acc = acc + 1;
                    } else {
                        acc = acc - 1;
                    }
                }
                xx += 1;
            }
            proof {
                lemma_win_bound(cells, size as int, row@, rx0 as int, rx1 as int, ry0 as int, yy as int);
                lemma_mul_le(yy - ry0 + 1, w, size as int, size as int);
            }
            score = score + acc;
            yy += 1;
        }
        proof {
            lemma_mul_le(w, ry1 - ry0 + 1, size as int, size as int);
        }
        let count = ((rx1 - rx0 + 1) * (ry1 - ry0 + 1)) as i64;
        proof {
            lemma_win_bound(cells, size as int, row@, rx0 as int, rx1 as int, ry0 as int, ry1 as int);
            lemma_mul_le(1, 1, ry1 - ry0 + 1, w);
            assert((ry1 - ry0 + 1) * w == w * (ry1 - ry0 + 1)) by (nonlinear_arith);
        }
        (score, count)
    }

    /// Movement target for the particle at `(x, y)`: an empty neighbour with the
    /// best normalised window score, drawn at random among the ties, or `(x, y)`
    /// itself when no neighbour is empty. Normalised scores are compared exactly,
    /// as fractions, so ties are ties of rational values.
    fn score_within_radius(&mut self, x: usize, y: usize) -> (r: (usize, usize))
        requires
            old(self).wf(),
            x < old(self)@.size,
            y < old(self)@.size,
        ensures
            final(self)@ == old(self)@,
            (exists|i: int, j: int| empty_near(old(self)@, x as int, y as int, i, j)) ==> best_destination(
                old(self)@,
                x as int,
                y as int,
                r.0 as int,
                r.1 as int,
            ),
            !(exists|i: int, j: int| empty_near(old(self)@, x as int, y as int, i, j)) ==> r == (x, y),
    {
        let ghost g = self@;
        let size = self.size;
        proof {
            lemma_idx(size as int, x as int, y as int);
        }
        let p = self.cells[y * size + x];
        let x0: usize = if x > 0 { x - 1 } else { 0 };
        let x1: usize = if x + 1 <= size - 1 { x + 1 } else { size - 1 };
        let y0: usize = if y > 0 { y - 1 } else { 0 };
        let y1: usize = if y + 1 <= size - 1 { y + 1 } else { size - 1 };
        let mut cands: Vec<(usize, usize)> = Vec::new();
        let mut best_s: i64 = 0;
        let mut best_c: i64 = 1;
        let mut j: usize = y0;
        while j <= y1
            invariant
                self@ == g,
                wf_view(g),
                size == g.size,
                p == g.cells[idx(g.size, x as int, y as int)],
                p <= g.num_types,
                x0 == lo(x as int, 1),
                x1 == hi(x as int, 1, size as int),
                y0 == lo(y as int, 1),
                y1 == hi(y as int, 1, size as int),
                x0 <= x1 < size,
                y0 <= y1 < size,
                y0 <= j <= y1 + 1,
                forall|a: int, b: int| #[trigger] empty_near(g, x as int, y as int, a, b) && b < j ==> cands@.len() > 0,
                forall|m: int| 0 <= m < cands@.len() ==> empty_near(g, x as int, y as int, #[trigger] cands@[m].0 as int, cands@[m].1 as int),
                forall|m: int| 0 <= m < cands@.len() ==> #[trigger] cands@[m].1 < j,
                forall|m: int, a: int, b: int| 0 <= m < cands@.len() && #[trigger] empty_near(g, x as int, y as int, a, b) && b < j
                    ==> at_least_as_good(g, p, #[trigger] cands@[m].0 as int, cands@[m].1 as int, a, b),
                cands@.len() > 0 ==> best_s == score_at(g, p, cands@[0].0 as int, cands@[0].1 as int)
                    && best_c == count_at(g, cands@[0].0 as int, cands@[0].1 as int),
                -(isize::MAX as int) <= best_s <= isize::MAX,
                0 < best_c <= isize::MAX,
            decreases y1 + 1 - j,
        {
            let mut i: usize = x0;
            while i <= x1
                invariant
                    self@ == g,
                    wf_view(g),
                    size == g.size,
                    p == g.cells[idx(g.size, x as int, y as int)],
                    p <= g.num_types,
                    x0 == lo(x as int, 1),
                    x1 == hi(x as int, 1, size as int),
                    y0 == lo(y as int, 1),
                    y1 == hi(y as int, 1, size as int),
                    x0 <= x1 < size,
                    y0 <= y1 < size,
                    y0 <= j <= y1,
                    x0 <= i <= x1 + 1,
                    forall|a: int, b: int| #[trigger] empty_near(g, x as int, y as int, a, b) && (b < j || (b == j && a < i)) ==> cands@.len() > 0,
                    forall|m: int| 0 <= m < cands@.len() ==> empty_near(g, x as int, y as int, #[trigger] cands@[m].0 as int, cands@[m].1 as int),
                    forall|m: int| 0 <= m < cands@.len() ==> (#[trigger] cands@[m].1 < j || (cands@[m].1 == j && cands@[m].0 < i)),
                    forall|m: int, a: int, b: int| 0 <= m < cands@.len() && #[trigger] empty_near(g, x as int, y as int, a, b) && (b < j || (b == j && a < i))
                        ==> at_least_as_good(g, p, #[trigger] cands@[m].0 as int, cands@[m].1 as int, a, b),
                    cands@.len() > 0 ==> best_s == score_at(g, p, cands@[0].0 as int, cands@[0].1 as int)
                        && best_c == count_at(g, cands@[0].0 as int, cands@[0].1 as int),
                    -(isize::MAX as int) <= best_s <= isize::MAX,
                    0 < best_c <= isize::MAX,
                decreases x1 + 1 - i,
            {
                proof {
                    lemma_idx(size as int, i as int, j as int);
                }
                if self.cells[j * size + i] == 0 {
                    let (sc, cn) = self.window_score(p, i, j);
                    let ghost ni = i as int;
                    let ghost nj = j as int;
                    assert(empty_near(g, x as int, y as int, ni, nj));
                    proof {
                        lemma_prod_bound(sc as int, best_c as int);
                        lemma_prod_bound(best_s as int, cn as int);
                        assert forall|a: int, b: int| #[trigger] empty_near(g, x as int, y as int, a, b) implies 0 < count_at(g, a, b) by {
                            lemma_count_pos(g, a, b);
                        }
                    }
                    let lhs = (sc as i128) * (best_c as i128);
                    let rhs = (best_s as i128) * (cn as i128);
                    if cands.len() == 0 || lhs > rhs {
                        let ghost old_cands = cands@;
                        proof {
                            if old_cands.len() > 0 {
                                let c0 = old_cands[0];
                                assert forall|a: int, b: int| #[trigger] empty_near(g, x as int, y as int, a, b) && (b < j || (b == j && a < i))
                                    implies at_least_as_good(g, p, ni, nj, a, b) by {
                                    lemma_ratio_trans(sc as int, cn as int, best_s as int, best_c as int, score_at(g, p, a, b), count_at(g, a, b));
                                }
                            }
                        }
                        cands = Vec::new();
                        cands.push((i, j));
                        best_s = sc;
                        best_c = cn;
                    } else if lhs == rhs {
                        let ghost old_cands = cands@;
                        proof {
                            assert forall|a: int, b: int| #[trigger] empty_near(g, x as int, y as int, a, b) && (b < j || (b == j && a < i))
                                implies at_least_as_good(g, p, ni, nj, a, b) by {
                                lemma_ratio_trans(sc as int, cn as int, best_s as int, best_c as int, score_at(g, p, a, b), count_at(g, a, b));
                            }
                            assert forall|m: int| 0 <= m < old_cands.len() implies at_least_as_good(g, p, #[trigger] old_cands[m].0 as int, old_cands[m].1 as int, ni, nj) by {
                                let cm = old_cands[m];
                                lemma_count_pos(g, cm.0 as int, cm.1 as int);
                                assert(empty_near(g, x as int, y as int, old_cands[0].0 as int, old_cands[0].1 as int));
                                assert(at_least_as_good(g, p, cm.0 as int, cm.1 as int, old_cands[0].0 as int, old_cands[0].1 as int));
                                lemma_ratio_trans(score_at(g, p, cm.0 as int, cm.1 as int), count_at(g, cm.0 as int, cm.1 as int), best_s as int, best_c as int, sc as int, cn as int);
                            }
                        }
                        cands.push((i, j));
                        proof {
                            assert forall|m: int, a: int, b: int| 0 <= m < cands@.len() && #[trigger] empty_near(g, x as int, y as int, a, b) && (b < j || (b == j && a <= i))
                                implies at_least_as_good(g, p, #[trigger] cands@[m].0 as int, cands@[m].1 as int, a, b) by {
                                if m < old_cands.len() {
                                    assert(cands@[m] == old_cands[m]);
                                } else {
                                    assert(cands@[m] == (i, j));
                                }
                            }
                        }
                    } else {
                        proof {
                            assert forall|m: int| 0 <= m < cands@.len() implies at_least_as_good(g, p, #[trigger] cands@[m].0 as int, cands@[m].1 as int, ni, nj) by {
                                let cm = cands@[m];
                                lemma_count_pos(g, cm.0 as int, cm.1 as int);
                                assert(empty_near(g, x as int, y as int, cands@[0].0 as int, cands@[0].1 as int));
                                assert(at_least_as_good(g, p, cm.0 as int, cm.1 as int, cands@[0].0 as int, cands@[0].1 as int));
                                lemma_ratio_trans(score_at(g, p, cm.0 as int, cm.1 as int), count_at(g, cm.0 as int, cm.1 as int), best_s as int, best_c as int, sc as int, cn as int);
                            }
                        }
                    }
                }
                i += 1;
            }
            j += 1;
        }
        match choose_item(&mut self.rng, &cands) {
            Some(r) => {
                assert(empty_near(g, x as int, y as int, r.0 as int, r.1 as int));
                r
            },
            None => (x, y),
        }
    }

    /// Movement rule: the particle at `(x, y)` moves to a best empty neighbour.
    fn move_particle(&mut self, x: usize, y: usize)
        requires
            old(self).wf(),
            x < old(self)@.size,
            y < old(self)@.size,
        ensures
            final(self).wf(),
            same_config(final(self)@, old(self)@),
            moved(old(self)@, x as int, y as int, final(self)@.cells),
            occupied(final(self)@.cells) == occupied(old(self)@.cells),
    {
        let ghost g = self@;
        let size = self.size;
        proof {
            lemma_idx(size as int, x as int, y as int);
        }
        let k = y * size + x;
        let p = self.cells[k];
        if p == 0 {
            return ;
        }
        let (bx, by) = self.score_within_radius(x, y);
        if bx == x && by == y {
            return ;
        }
        proof {
            lemma_idx(size as int, bx as int, by as int);
            lemma_occupied_update(g.cells, (by * size + bx) as int, p);
            lemma_occupied_update(g.cells.update((by * size + bx) as int, p), k as int, 0);
        }
        self.cells.set(by * size + bx, p);
        self.cells.set(k, 0);
        proof {
            assert(best_destination(g, x as int, y as int, bx as int, by as int));
            assert forall|q: int| 0 <= q < self.cells@.len() implies #[trigger] self.cells@[q] <= g.num_types by {}
        }
    }

    /// One tick: samples `updates_of` occupied cells of a snapshot and applies the
    /// replacement rule, then the movement rule, to each that is still occupied.
    pub fn step(&mut self)
        requires
            old(self).wf(),
        ensures
            step_outcome(old(self)@, final(self)@),
            exists|trace: Seq<Seq<u8>>|
                #![trigger valid_trace(old(self)@, trace)]
                valid_trace(old(self)@, trace) && trace.last() == final(self)@.cells && trace.len()
                    <= updates_of(old(self)@) + 1 && (updates_of(old(self)@) > 0 && occupied(
                    old(self)@.cells,
                ) > 0 ==> trace.len() >= 2 && exists|x: int, y: int|
                    #[trigger] rules_applied(old(self)@, trace[0], trace[1], x, y)),
            exists|trace: Seq<Seq<u8>>, picks: Seq<int>|
                #![trigger schedule_ok(old(self)@, trace, picks, updates_of(old(self)@))]
                valid_trace(old(self)@, trace) && trace.last() == final(self)@.cells && schedule_ok(
                    old(self)@,
                    trace,
                    picks,
                    updates_of(old(self)@),
                ),
    {
        let ghost g0 = self@;
        let size = self.size;
        let total = size * size;
        proof {
            lemma_mul_le(self.density as int, total as int, u32::MAX as int, isize::MAX as int);
        }
        let updates: u128 = (self.density as u128) * (total as u128) / 5_000_000;
        let ghost t0: Seq<Seq<u8>> = seq![g0.cells];
        assert(valid_trace(g0, t0) && t0.last() == g0.cells);
        assert(updates as int == updates_of(g0));
        assert(t0.len() <= updates_of(g0) + 1);
        let ghost p0: Seq<int> = Seq::empty();
        if updates == 0 {
            assert(schedule_ok(g0, t0, p0, updates_of(g0)));
            return ;
        }
        let mut particles: Vec<usize> = Vec::new();
        let mut k: usize = 0;
        while k < total
            invariant
                self@ == g0,
                wf_view(g0),
                total == g0.cells.len(),
                0 <= k <= total,
                particles@.len() == occupied(g0.cells.take(k as int)),
                forall|m: int| 0 <= m < particles@.len() ==> #[trigger] particles@[m] < total,
                forall|m: int| 0 <= m < particles@.len() ==> g0.cells[#[trigger] particles@[m] as int] != 0,
                forall|m: int| 0 <= m < particles@.len() ==> #[trigger] particles@[m] < k,
                particles@.no_duplicates(),
                forall|q: int| 0 <= q < k && #[trigger] g0.cells[q] != 0 ==> particles@.contains(q as usize),
            decreases total - k,
        {
            proof {
                lemma_occupied_take(g0.cells, k as int);
            }
            if self.cells[k] != 0 {
                let ghost before = particles@;
                particles.push(k);
                proof {
                    assert forall|q: int| 0 <= q <= k && #[trigger] g0.cells[q] != 0 implies particles@.contains(q as usize) by {
                        if q < k {
                            let w = choose|w: int| 0 <= w < before.len() && before[w] == q as usize;
                            assert(particles@[w] == q as usize);
                        } else {
                            assert(particles@[before.len() as int] == k);
                        }
                    }
                }
            }
            k += 1;
        }
        assert(g0.cells.take(total as int) =~= g0.cells);
        if particles.len() == 0 {
            assert forall|q: int| 0 <= q < g0.cells.len() implies #[trigger] g0.cells[q] == 0 by {
                if g0.cells[q] != 0 {
                    assert(particles@.contains(q as usize));
                }
            }
            assert(schedule_ok(g0, t0, p0, updates_of(g0)));
            return ;
        }
        assert(particles@[0] < total);
        assert(size > 0) by (nonlinear_arith)
            requires
                total == size * size,
                total > 0,
        ;
        proof {
            lemma_div_mod_all(size as int);
        }
        let mut done: u128 = 0;
        let ghost mut trace: Seq<Seq<u8>> = seq![g0.cells];
        let ghost mut picks: Seq<int> = Seq::empty();
        while done < updates && particles.len() > 0
            invariant
                valid_trace(g0, trace),
                trace.last() == self@.cells,
                trace.len() == done + 1,
                done <= updates,
                updates == updates_of(g0),
                self.wf(),
                same_config(self@, g0),
                size == g0.size,
                size > 0,
                total == size * size,
                occupied(self@.cells) == occupied(g0.cells),
                forall|m: int| 0 <= m < particles@.len() ==> #[trigger] particles@[m] < total,
                forall|m: int| 0 <= m < particles@.len() ==> g0.cells[#[trigger] particles@[m] as int] != 0,
                done == 0 ==> particles@.len() > 0,
                picks.len() == done,
                g0.cells.len() == total,
                particles@.no_duplicates(),
                forall|i: int|
                    0 <= i < picks.len() ==> 0 <= #[trigger] picks[i] < g0.cells.len() && sampled(
                        g0,
                        trace[i],
                        trace[i + 1],
                        picks[i] % g0.size,
                        picks[i] / g0.size,
                    ),
                forall|i: int, j: int|
                    0 <= j < i < picks.len() && #[trigger] dropped_at(trace, picks, j, picks[j]) ==> #[trigger] picks[i] != picks[j],
                forall|m: int, j: int|
                    0 <= m < particles@.len() && #[trigger] dropped_at(trace, picks, j, picks[j]) ==> #[trigger] particles@[m] as int != picks[j],
                forall|q: int|
                    0 <= q < total && #[trigger] g0.cells[q] != 0 ==> particles@.contains(q as usize) || exists|j: int| #[trigger] dropped_at(trace, picks, j, q),
                done >= 1 ==> trace.len() >= 2 && exists|x: int, y: int| #[trigger] rules_applied(g0, trace[0], trace[1], x, y),
                forall|q: int| 0 <= q < (size as int) * (size as int) ==> 0 <= #[trigger] (q % (size as int)) < size && 0 <= q / (size as int) < size,
            decreases updates - done,
        {
            let m = random_below(&mut self.rng, particles.len());
            let k = particles[m];
            let x = k % size;
            let y = k / size;
            assert(0 <= (k as int) % (size as int) < size);
            proof {
                lemma_idx(size as int, x as int, y as int);
                vstd::arithmetic::div_mod::lemma_fundamental_div_mod(k as int, size as int);
                assert((y as int) * (size as int) == (size as int) * (y as int)) by (nonlinear_arith);
                assert(idx(size as int, x as int, y as int) == k);
                assert(g0.cells[k as int] != 0);
                if done == 0 {
                    assert(trace.last() == trace[0]);
                }
            }
            let ghost pl = particles@;
            if self.cells[k] == 0 {
                particles.swap_remove(m);
                assert forall|q: int| 0 <= q < particles@.len() implies #[trigger] particles@[q] < total by {}
                assert forall|q: int| 0 <= q < particles@.len() implies g0.cells[#[trigger] particles@[q] as int] != 0 by {}
                proof {
                    let t2 = trace.push(self@.cells);
                    assert(sampled(g0, trace.last(), self@.cells, x as int, y as int));
                    assert forall|i: int| 0 <= i < t2.len() - 1 implies #[trigger] one_sample(g0, t2[i], t2[i + 1]) by {
                        if i < trace.len() - 1 {
                            assert(t2[i] == trace[i] && t2[i + 1] == trace[i + 1]);
                        } else {
                            assert(sampled(g0, t2[i], t2[i + 1], x as int, y as int));
                        }
                    }
                    assert(t2[0] == trace[0] && t2[1] == trace[1]);
                    let p2 = picks.push(k as int);
                    assert forall|j: int, q: int| 0 <= j < picks.len() implies #[trigger] dropped_at(t2, p2, j, q) == dropped_at(trace, picks, j, q) by {
                        assert(t2[j] == trace[j] && p2[j] == picks[j]);
                    }
                    assert(dropped_at(t2, p2, done as int, k as int));
                    assert forall|i: int| 0 <= i < p2.len() implies 0 <= #[trigger] p2[i] < g0.cells.len() && sampled(
                        g0, t2[i], t2[i + 1], p2[i] % g0.size, p2[i] / g0.size) by {
                        if i < picks.len() {
                            assert(p2[i] == picks[i] && t2[i] == trace[i] && t2[i + 1] == trace[i + 1]);
                        } else {
                            assert(sampled(g0, t2[i], t2[i + 1], x as int, y as int));
                        }
                    }
                    assert forall|i: int, j: int| 0 <= j < i < p2.len() && #[trigger] dropped_at(t2, p2, j, p2[j]) implies #[trigger] p2[i] != p2[j] by {
                        assert(p2[j] == picks[j]);
                        assert(dropped_at(trace, picks, j, picks[j]));
                        if i < picks.len() {
                            assert(p2[i] == picks[i]);
                        } else {
                            assert(pl[m as int] as int != picks[j]);
                        }
                    }
                    assert forall|a: int| 0 <= a < particles@.len() implies #[trigger] particles@[a] == pl[if a == m { pl.len() - 1 } else { a }] by {}
                    assert forall|mm: int, j: int| 0 <= mm < particles@.len() && #[trigger] dropped_at(t2, p2, j, p2[j]) implies #[trigger] particles@[mm] as int != p2[j] by {
                        let src = if mm == m { pl.len() - 1 } else { mm };
                        assert(particles@[mm] == pl[src]);
                        if j < picks.len() {
                            assert(p2[j] == picks[j]);
                            assert(dropped_at(trace, picks, j, picks[j]));
                        } else {
                            assert(src != m);
                        }
                    }
                    assert forall|a: int, b: int| 0 <= a < particles@.len() && 0 <= b < particles@.len() && a != b implies particles@[a] != particles@[b] by {
                        let sa = if a == m { pl.len() - 1 } else { a };
                        let sb = if b == m { pl.len() - 1 } else { b };
                        assert(particles@[a] == pl[sa] && particles@[b] == pl[sb]);
                    }
                    assert forall|q: int| 0 <= q < total && #[trigger] g0.cells[q] != 0 implies particles@.contains(q as usize) || exists|j: int| #[trigger] dropped_at(t2, p2, j, q) by {
                        if pl.contains(q as usize) {
                            let w = choose|w: int| 0 <= w < pl.len() && pl[w] == q as usize;
                            if w == m {
                                assert(dropped_at(t2, p2, done as int, q));
                            } else if w == pl.len() - 1 {
                                assert(particles@[m as int] == q as usize);
                            } else {
                                assert(particles@[w] == q as usize);
                            }
                        } else {
                            let j = choose|j: int| #[trigger] dropped_at(trace, picks, j, q);
                            assert(dropped_at(t2, p2, j, q));
                        }
                    }
                    trace = t2;
                    picks = p2;
                }
            } else {
                let ghost before = self@;
                self.try_replace_particle(x, y);
                proof {
                    let p = before.cells[idx(size as int, x as int, y as int)];
                    assert(p != 0 && p <= before.num_types);
                    assert(1 <= before.copy_type[p as int] && 1 <= before.replace_type[p as int]);
                    lemma_occupied_same_pattern(before.cells, self@.cells);
                }
                let ghost mid = self@;
                self.move_particle(x, y);
                proof {
                    assert(before == with_cells(g0, before.cells));
                    assert(mid == with_cells(g0, replaced(with_cells(g0, before.cells), x as int, y as int)));
                    assert(rules_applied(g0, trace.last(), self@.cells, x as int, y as int));
                    let t2 = trace.push(self@.cells);
                    assert forall|i: int| 0 <= i < t2.len() - 1 implies #[trigger] one_sample(g0, t2[i], t2[i + 1]) by {
                        if i < trace.len() - 1 {
                            assert(t2[i] == trace[i] && t2[i + 1] == trace[i + 1]);
                        } else {
                            assert(sampled(g0, t2[i], t2[i + 1], x as int, y as int));
                        }
                    }
                    assert(t2[0] == trace[0]);
                    if done == 0 {
                        assert(rules_applied(g0, t2[0], t2[1], x as int, y as int));
                    } else {
                        assert(t2[1] == trace[1]);
                    }
                    let p2 = picks.push(k as int);
                    assert forall|j: int, q: int| 0 <= j < picks.len() implies #[trigger] dropped_at(t2, p2, j, q) == dropped_at(trace, picks, j, q) by {
                        assert(t2[j] == trace[j] && p2[j] == picks[j]);
                    }
                    assert(t2[done as int] == trace.last());
                    assert forall|q: int| !#[trigger] dropped_at(t2, p2, done as int, q) by {}
                    assert forall|i: int| 0 <= i < p2.len() implies 0 <= #[trigger] p2[i] < g0.cells.len() && sampled(
                        g0, t2[i], t2[i + 1], p2[i] % g0.size, p2[i] / g0.size) by {
                        if i < picks.len() {
                            assert(p2[i] == picks[i] && t2[i] == trace[i] && t2[i + 1] == trace[i + 1]);
                        } else {
                            assert(sampled(g0, t2[i], t2[i + 1], x as int, y as int));
                        }
                    }
                    assert forall|i: int, j: int| 0 <= j < i < p2.len() && #[trigger] dropped_at(t2, p2, j, p2[j]) implies #[trigger] p2[i] != p2[j] by {
                        assert(p2[j] == picks[j]);
                        assert(dropped_at(trace, picks, j, picks[j]));
                        if i < picks.len() {
                            assert(p2[i] == picks[i]);
                        } else {
                            assert(particles@[m as int] as int != picks[j]);
                        }
                    }
                    assert forall|mm: int, j: int| 0 <= mm < particles@.len() && #[trigger] dropped_at(t2, p2, j, p2[j]) implies #[trigger] particles@[mm] as int != p2[j] by {
                        assert(p2[j] == picks[j]);
                        assert(dropped_at(trace, picks, j, picks[j]));
                    }
                    assert forall|q: int| 0 <= q < total && #[trigger] g0.cells[q] != 0 implies particles@.contains(q as usize) || exists|j: int| #[trigger] dropped_at(t2, p2, j, q) by {
                        if !particles@.contains(q as usize) {
                            let j = choose|j: int| #[trigger] dropped_at(trace, picks, j, q);
                            assert(dropped_at(t2, p2, j, q));
                        }
                    }
                    trace = t2;
                    picks = p2;
                }
            }
            done += 1;
        }
        assert(done >= 1);
        assert(schedule_ok(g0, trace, picks, updates_of(g0)));
        assert(valid_trace(g0, trace) && trace.last() == self@.cells && trace.len() <= updates_of(g0) + 1);
    }

    /// Number of occupied cells.
    fn count_particles(&self) -> (r: usize)
        requires
            self.wf(),
        ensures
            r == occupied(self@.cells),
    {
        let total = self.size * self.size;
        let mut count: usize = 0;
        let mut k: usize = 0;
        while k < total
            invariant
                self.wf(),
                total == self@.cells.len(),
                0 <= k <= total,
                count == occupied(self@.cells.take(k as int)),
                count <= k,
            decreases total - k,
        {
            proof {
                lemma_occupied_take(self@.cells, k as int);
            }
            if self.cells[k] != 0 {
                count += 1;
            }
            k += 1;
        }
        assert(self@.cells.take(total as int) =~= self@.cells);
        count
    }

    /// The cells as bytes, `y * size + x` holding the type at `(x, y)`.
    pub fn export_grid(&self) -> (r: Vec<u8>)
        requires
            self.wf(),
        ensures
            r@ == self@.cells,
            r@.len() == self@.size * self@.size,
            forall|x: int, y: int|
                0 <= x < self@.size && 0 <= y < self@.size ==> #[trigger] r@[idx(self@.size, x, y)]
                    == cell_at(self@, x, y),
    {
        let total = self.size * self.size;
        let mut data: Vec<u8> = Vec::new();
        let mut k: usize = 0;
        while k < total
            invariant
                self.wf(),
                total == self@.cells.len(),
                0 <= k <= total,
                data@ == self@.cells.take(k as int),
            decreases total - k,
        {
            data.push(self.cells[k]);
            k += 1;
            assert(data@ =~= self@.cells.take(k as int));
        }
        assert(self@.cells.take(total as int) =~= self@.cells);
        data
    }

    /// The matrix read row-major from `values`, each value truncated to `i8`.
    fn affinity_from(values: &Vec<i32>, n: usize) -> (r: Vec<Vec<i8>>)
        requires
            n <= 255,
            values@.len() >= (n + 1) * (n + 1),
        ensures
            affinity_of(values@, n as int, r@.map_values(|row: Vec<i8>| row@)),
    {
        let mut rows: Vec<Vec<i8>> = Vec::new();
        let mut t: usize = 0;
        while t <= n
            invariant
                n <= 255,
                values@.len() >= (n + 1) * (n + 1),
                0 <= t <= n + 1,
                rows@.len() == t,
                forall|a: int| 0 <= a < t ==> (#[trigger] rows@[a])@.len() == n + 1,
                forall|a: int, u: int| 0 <= a < t && 0 <= u <= n ==> #[trigger] rows@[a]@[u] == values@[a * (n + 1) + u] as i8,
            decreases n + 1 - t,
        {
            let mut row: Vec<i8> = Vec::new();
            let mut u: usize = 0;
            proof {
                lemma_mul_le(t as int, n as int + 1, n as int, n as int + 1);
                lemma_mul_le(n as int + 1, n as int + 1, 256, 256);
                assert((n + 1) * (n + 1) == n * (n + 1) + (n + 1)) by (nonlinear_arith);
            }
            let base: usize = t * (n + 1);
            while u <= n
                invariant
                    n <= 255,
                    t <= n,
                    values@.len() >= (n + 1) * (n + 1),
                    t * (n + 1) + n < (n + 1) * (n + 1),
                    base == t * (n + 1),
                    (n + 1) * (n + 1) <= 65536,
                    0 <= u <= n + 1,
                    row@.len() == u,
                    forall|b: int| 0 <= b < u ==> #[trigger] row@[b] == values@[t * (n + 1) + b] as i8,
                decreases n + 1 - u,
            {
                let v: i8 = #[verifier::truncate] (values[base + u] as i8);
                row.push(v);
                u += 1;
            }
            rows.push(row);
            t += 1;
        }
        let ghost m = rows@.map_values(|row: Vec<i8>| row@);
        assert forall|a: int, u: int| 0 <= a <= n && 0 <= u <= n implies #[trigger] m[a][u] == values@[a * (n + 1) + u] as i8 by {
            assert(m[a] == rows@[a]@);
        }
        rows
    }

    /// A matrix of fair coin flips between `+1` and `-1`.
    fn randomize_affinity(n: usize, rng: &mut rand::rngs::StdRng) -> (r: Vec<Vec<i8>>)
        requires
            n <= 255,
        ensures
            unit_affinity(n as int, r@.map_values(|row: Vec<i8>| row@)),
    {
        let mut rows: Vec<Vec<i8>> = Vec::new();
        let mut t: usize = 0;
        while t <= n
            invariant
                n <= 255,
                0 <= t <= n + 1,
                rows@.len() == t,
                forall|a: int| 0 <= a < t ==> (#[trigger] rows@[a])@.len() == n + 1,
                forall|a: int, u: int| 0 <= a < t && 0 <= u <= n ==> #[trigger] rows@[a]@[u] == 1 || rows@[a]@[u] == -1,
            decreases n + 1 - t,
        {
            let mut row: Vec<i8> = Vec::new();
            let mut u: usize = 0;
            while u <= n
                invariant
                    n <= 255,
                    0 <= u <= n + 1,
                    row@.len() == u,
                    forall|b: int| 0 <= b < u ==> #[trigger] row@[b] == 1 || row@[b] == -1,
                decreases n + 1 - u,
            {
                let v: i8 = if random_below(rng, 2) == 0 { 1 } else { -1 };
                row.push(v);
                u += 1;
            }
            rows.push(row);
            t += 1;
        }
        let ghost m = rows@.map_values(|row: Vec<i8>| row@);
        assert forall|a: int, u: int| 0 <= a <= n && 0 <= u <= n implies #[trigger] m[a][u] == 1 || m[a][u] == -1 by {
            assert(m[a] == rows@[a]@);
        }
        rows
    }

    /// The types in `1..=n` other than `a` and `b`, in increasing order.
    fn other_types(n: usize, a: usize, b: usize) -> (r: Vec<u8>)
        requires
            n <= 255,
        ensures
            forall|m: int| 0 <= m < r@.len() ==> 1 <= #[trigger] r@[m] <= n && differs_from(r@[m] as int, a as int, b as int),
            r@.len() == 0 <==> !has_other(n as int, a as int, b as int),
    {
        let mut r: Vec<u8> = Vec::new();
        let mut c: usize = 1;
        while c <= n
            invariant
                n <= 255,
                1 <= c <= n + 1,
                forall|m: int| 0 <= m < r@.len() ==> 1 <= #[trigger] r@[m] <= n && differs_from(r@[m] as int, a as int, b as int),
                r@.len() == 0 ==> forall|d: int| 1 <= d < c ==> !#[trigger] differs_from(d, a as int, b as int),
            decreases n + 1 - c,
        {
            if c != a && c != b {
                r.push(c as u8);
            }
            c += 1;
        }
        if r.len() > 0 {
            assert(differs_from(r@[0] as int, a as int, b as int));
        }
        r
    }

    /// For each type, a copy target drawn among the other types.
    fn copy_targets(n: usize, rng: &mut rand::rngs::StdRng) -> (r: Vec<u8>)
        requires
            n <= 255,
        ensures
            copy_table_ok(n as int, r@),
    {
        let mut table: Vec<u8> = Vec::new();
        let mut t: usize = 0;
        while t <= n
            invariant
                n <= 255,
                0 <= t <= n + 1,
                table@.len() == t,
                forall|a: int|
                    0 <= a < t ==> if has_other(n as int, a, a) {
                        1 <= #[trigger] table@[a] <= n && table@[a] != a
                    } else {
                        table@[a] == if n == 0 { 0 } else { a % (n as int) + 1 }
                    },
            decreases n + 1 - t,
        {
            let choices = Self::other_types(n, t, t);
            let v: u8 = match choose_item(rng, &choices) {
                Some(c) => c,
                None => if n == 0 { 0 } else { (t % n + 1) as u8 },
            };
            table.push(v);
            t += 1;
        }
        table
    }

    /// For each type, a replace target drawn among the types other than it and its
    /// copy target.
    fn replace_targets(n: usize, copy: &Vec<u8>, rng: &mut rand::rngs::StdRng) -> (r: Vec<u8>)
        requires
            n <= 255,
            copy@.len() == n + 1,
        ensures
            replace_table_ok(n as int, copy@, r@),
    {
        let mut table: Vec<u8> = Vec::new();
        let mut t: usize = 0;
        while t <= n
            invariant
                n <= 255,
                copy@.len() == n + 1,
                0 <= t <= n + 1,
                table@.len() == t,
                forall|a: int|
                    0 <= a < t ==> if has_other(n as int, a, copy@[a] as int) {
                        1 <= #[trigger] table@[a] <= n && table@[a] != a && table@[a] != copy@[a]
                    } else {
                        table@[a] == if n >= 1 { 1u8 } else { 0u8 }
                    },
            decreases n + 1 - t,
        {
            let choices = Self::other_types(n, t, copy[t] as usize);
            let v: u8 = match choose_item(rng, &choices) {
                Some(c) => c,
                None => if n >= 1 { 1 } else { 0 },
            };
            table.push(v);
            t += 1;
        }
        table
    }

    /// A grid drawn with `rng`; see [`ParticleGrid::new`].
    fn build(
        size: usize,
        num_types: usize,
        density: u32,
        radius: usize,
        affinity_array: Option<Vec<i32>>,
        rng: rand::rngs::StdRng,
    ) -> (r: Self)
        requires
            size * size <= isize::MAX,
            num_types <= 255,
        ensures
            r.wf(),
            r@.size == size,
            r@.num_types == num_types,
            r@.density == density,
            r@.radius == radius,
            density == 0 || num_types == 0 ==> forall|k: int| 0 <= k < r@.cells.len() ==> #[trigger] r@.cells[k] == 0,
            density >= 1_000_000 && num_types >= 1 ==> forall|k: int| 0 <= k < r@.cells.len() ==> #[trigger] r@.cells[k] != 0,
            initial_affinity(affinity_array, num_types as int, r@.affinity),
            copy_table_ok(num_types as int, r@.copy_type),
            replace_table_ok(num_types as int, r@.copy_type, r@.replace_type),
    {
        let mut rng = rng;
        let n = num_types;
        let total = size * size;
        let mut cells: Vec<u8> = Vec::new();
        let mut k: usize = 0;
        while k < total
            invariant
                n <= 255,
                0 <= k <= total,
                cells@.len() == k,
                forall|q: int| 0 <= q < k ==> #[trigger] cells@[q] <= n,
                density == 0 || n == 0 ==> forall|q: int| 0 <= q < k ==> #[trigger] cells@[q] == 0,
                density >= 1_000_000 && n >= 1 ==> forall|q: int| 0 <= q < k ==> #[trigger] cells@[q] != 0,
            decreases total - k,
        {
            let draw = random_below(&mut rng, 1_000_000) as u32;
            let kind: usize = if n >= 1 { random_below(&mut rng, n) } else { 0 };
            let v = Self::initial_cell(draw, kind, density, n);
            cells.push(v);
            k += 1;
        }
        proof {
            lemma_mul_le(n as int + 1, n as int + 1, 256, 256);
        }
        let affinity = match &affinity_array {
            Some(values) => if values.len() >= (n + 1) * (n + 1) {
                Self::affinity_from(values, n)
            } else {
                Self::randomize_affinity(n, &mut rng)
            },
            None => Self::randomize_affinity(n, &mut rng),
        };
        let copy_type = Self::copy_targets(n, &mut rng);
        let replace_type = Self::replace_targets(n, &copy_type, &mut rng);
        let r = ParticleGrid {
            size,
            num_types,
            density,
            radius,
            cells,
            affinity,
            copy_type,
            replace_type,
            rng,
        };
        proof {
            assert forall|t: int| 1 <= t <= n implies 1 <= #[trigger] r@.copy_type[t] <= n by {
                assert(differs_from(if t == 1 { 2 } else { 1 }, t, t) || n < 2);
            }
        }
        r
    }

    /// A new grid of `size` by `size` cells and types `1..=num_types`: each cell is
    /// occupied, by a uniformly drawn type, with probability `density` millionths.
    /// The affinity matrix is read from `affinity_array` when it holds at least
    /// `(num_types + 1)^2` values, else drawn as coin flips between `+1` and `-1`.
    /// Copy and replace targets are drawn per type. The generator is seeded by the
    /// operating system, or with seed 0 where the system supplies no entropy.
    pub fn new(
        size: usize,
        num_types: usize,
        density: u32,
        radius: usize,
        affinity_array: Option<Vec<i32>>,
    ) -> (r: Self)
        requires
            size * size <= isize::MAX,
            num_types <= 255,
        ensures
            r.wf(),
            r@.size == size,
            r@.num_types == num_types,
            r@.density == density,
            r@.radius == radius,
            density == 0 || num_types == 0 ==> forall|k: int| 0 <= k < r@.cells.len() ==> #[trigger] r@.cells[k] == 0,
            density >= 1_000_000 && num_types >= 1 ==> forall|k: int| 0 <= k < r@.cells.len() ==> #[trigger] r@.cells[k] != 0,
            initial_affinity(affinity_array, num_types as int, r@.affinity),
            copy_table_ok(num_types as int, r@.copy_type),
            replace_table_ok(num_types as int, r@.copy_type, r@.replace_type),
    {
        let rng = match rng_from_os() {
            Some(rng) => rng,
            None => rng_from_seed(0),
        };
        Self::build(size, num_types, density, radius, affinity_array, rng)
    }

    /// As [`ParticleGrid::new`], with a generator seeded by `seed`, so that the
    /// whole run can be replayed.
    pub fn with_seed(
        size: usize,
        num_types: usize,
        density: u32,
        radius: usize,
        affinity_array: Option<Vec<i32>>,
        seed: u64,
    ) -> (r: Self)
        requires
            size * size <= isize::MAX,
            num_types <= 255,
        ensures
            r.wf(),
            r@.size == size,
            r@.num_types == num_types,
            r@.density == density,
            r@.radius == radius,
            density == 0 || num_types == 0 ==> forall|k: int| 0 <= k < r@.cells.len() ==> #[trigger] r@.cells[k] == 0,
            density >= 1_000_000 && num_types >= 1 ==> forall|k: int| 0 <= k < r@.cells.len() ==> #[trigger] r@.cells[k] != 0,
            initial_affinity(affinity_array, num_types as int, r@.affinity),
            copy_table_ok(num_types as int, r@.copy_type),
            replace_table_ok(num_types as int, r@.copy_type, r@.replace_type),
    {
        Self::build(size, num_types, density, radius, affinity_array, rng_from_seed(seed))
    }

    pub fn size(&self) -> (r: usize)
        ensures
            r == self@.size,
    {
        self.size
    }

    pub fn num_types(&self) -> (r: usize)
        ensures
            r == self@.num_types,
    {
        self.num_types
    }

    /// The target occupancy, in millionths.
    pub fn density(&self) -> (r: u32)
        ensures
            r == self@.density,
    {
        self.density
    }

    pub fn radius(&self) -> (r: usize)
        ensures
            r == self@.radius,
    {
        self.radius
    }

    /// The type a new cell gets from its draws: `draw` uniform in millionths, and
    /// `kind` uniform below `num_types`. The cell is occupied, by type `kind + 1`,
    /// when the draw is below `density` and there is a type to place.
    pub fn initial_cell(draw: u32, kind: usize, density: u32, num_types: usize) -> (r: u8)
        requires
            num_types <= 255,
            num_types == 0 || kind < num_types,
        ensures
            r == if draw < density && num_types >= 1 { (kind + 1) as u8 } else { 0u8 },
            r <= num_types,
    {
        if draw < density && num_types >= 1 {
            (kind + 1) as u8
        } else {
            0
        }
    }

    /// One line with the dimensions, the parameters (density to two decimals,
    /// rounded half up) and the number of occupied cells:
    /// `Grid 4x4, 2 types, density 1.00, radius 1, particles: 16`.
    pub fn debug_info(&self) -> (r: String)
        requires
            self.wf(),
        ensures
            r@ == debug_line(
                self@.size as nat,
                self@.num_types as nat,
                ((self@.density + 5000) / 10000 / 100) as nat,
                ((self@.density + 5000) / 10000 % 100) as nat,
                self@.radius as nat,
                occupied(self@.cells),
            ),
    {
        let hundredths: u64 = ((self.density as u64) + 5000) / 10000;
        let whole = hundredths / 100;
        let frac = hundredths % 100;
        let count = self.count_particles();
        let size_text = decimal_text(self.size as u64);
        let mut s = String::from_str("Grid ");
        s.append(size_text.as_str());
        s.append("x");
        s.append(size_text.as_str());
        s.append(", ");
        s.append(decimal_text(self.num_types as u64).as_str());
        s.append(" types, density ");
        s.append(decimal_text(whole).as_str());
        s.append(".");
        if frac < 10 {
            s.append("0");
        }
        s.append(decimal_text(frac).as_str());
        s.append(", radius ");
        s.append(decimal_text(self.radius as u64).as_str());
        s.append(", particles: ");
        s.append(decimal_text(count as u64).as_str());
        proof {
            reveal_strlit("Grid ");
            reveal_strlit("x");
            reveal_strlit(", ");
            reveal_strlit(" types, density ");
            reveal_strlit(".");
            reveal_strlit("0");
            reveal_strlit(", radius ");
            reveal_strlit(", particles: ");
            assert(s@ =~= debug_line(
                self@.size as nat,
                self@.num_types as nat,
                whole as nat,
                frac as nat,
                self@.radius as nat,
                occupied(self@.cells),
            ));
        }
        s
    }

    /// Replaces the affinity matrix, read row-major from `new_affinity` with each
    /// value truncated to `i8`. An array shorter than `(num_types + 1)^2` is
    /// refused and nothing changes.
    pub fn update_affinity(&mut self, new_affinity: Vec<i32>) -> (r: Result<(), UpdateError>)
        requires
            old(self).wf(),
        ensures
            final(self).wf(),
            final(self)@.cells == old(self)@.cells,
            final(self)@.size == old(self)@.size,
            final(self)@.num_types == old(self)@.num_types,
            final(self)@.density == old(self)@.density,
            final(self)@.radius == old(self)@.radius,
            final(self)@.copy_type == old(self)@.copy_type,
            final(self)@.replace_type == old(self)@.replace_type,
            new_affinity@.len() < (old(self)@.num_types + 1) * (old(self)@.num_types + 1) ==> r
                == Err::<(), UpdateError>(UpdateError::SizeMismatch) && final(self)@.affinity == old(self)@.affinity,
            new_affinity@.len() >= (old(self)@.num_types + 1) * (old(self)@.num_types + 1) ==> r
                == Ok::<(), UpdateError>(()) && affinity_of(new_affinity@, old(self)@.num_types, final(self)@.affinity),
    {
        let n = self.num_types;
        proof {
            lemma_mul_le(n as int + 1, n as int + 1, 256, 256);
        }
        if new_affinity.len() < (n + 1) * (n + 1) {
            return Err(UpdateError::SizeMismatch);
        }
        self.affinity = Self::affinity_from(&new_affinity, n);
        Ok(())
    }

    /// Replaces both rule tables. Refused, with nothing changed, when either is not
    /// longer than `num_types`, or when an entry for a type in `1..=num_types`
    /// names a type outside that range.
    pub fn update_copy_replace(&mut self, copy_types: Vec<u8>, replace_types: Vec<u8>) -> (r: Result<(), UpdateError>)
        requires
            old(self).wf(),
        ensures
            final(self).wf(),
            final(self)@.cells == old(self)@.cells,
            final(self)@.size == old(self)@.size,
            final(self)@.num_types == old(self)@.num_types,
            final(self)@.density == old(self)@.density,
            final(self)@.radius == old(self)@.radius,
            final(self)@.affinity == old(self)@.affinity,
            r is Err ==> final(self)@ == old(self)@,
            copy_types@.len() <= old(self)@.num_types || replace_types@.len() <= old(self)@.num_types ==> r
                == Err::<(), UpdateError>(UpdateError::SizeMismatch),
            copy_types@.len() > old(self)@.num_types && replace_types@.len() > old(self)@.num_types
                && !(valid_table(copy_types@, old(self)@.num_types) && valid_table(replace_types@, old(self)@.num_types))
                ==> r == Err::<(), UpdateError>(UpdateError::InvalidTypeId),
            copy_types@.len() > old(self)@.num_types && replace_types@.len() > old(self)@.num_types
                && valid_table(copy_types@, old(self)@.num_types) && valid_table(replace_types@, old(self)@.num_types)
                ==> r == Ok::<(), UpdateError>(()) && final(self)@.copy_type == copy_types@ && final(self)@.replace_type == replace_types@,
    {
        let n = self.num_types;
        if copy_types.len() <= n || replace_types.len() <= n {
            return Err(UpdateError::SizeMismatch);
        }
        let mut t: usize = 1;
        while t <= n
            invariant
                self@ == old(self)@,
                self.wf(),
                n == self@.num_types,
                n <= 255,
                copy_types@.len() > n,
                replace_types@.len() > n,
                1 <= t <= n + 1,
                forall|a: int| 1 <= a < t ==> 1 <= #[trigger] copy_types@[a] <= n,
                forall|a: int| 1 <= a < t ==> 1 <= #[trigger] replace_types@[a] <= n,
            decreases n + 1 - t,
        {
            let c = copy_types[t];
            let rp = replace_types[t];
            if c < 1 || c as usize > n || rp < 1 || rp as usize > n {
                assert(!valid_table(copy_types@, n as int) || !valid_table(replace_types@, n as int));
                return Err(UpdateError::InvalidTypeId);
            }
            t += 1;
        }
        assert(valid_table(copy_types@, n as int));
        assert(valid_table(replace_types@, n as int));
        self.copy_type = copy_types;
        self.replace_type = replace_types;
        Ok(())
    }
}

} // verus!
