//! Shortest paths over a height-labeled grid.
//!
//! A cell's elevation is a class `0..=25`; a step to an orthogonal neighbour
//! is legal exactly when the neighbour's elevation exceeds the current one by
//! at most one. `shortest_path_length` runs a breadth-first search and is
//! proved to return the exact minimal number of steps, or `None` when no walk
//! joins the two cells; `best_shortest_path_length` minimises that distance
//! over a set of candidate sources.

use vstd::prelude::*;

verus! {

use crate::text;

/// A parsed grid: elevations plus the distinguished start and end cells.
pub struct HeightMap {
    pub start: (usize, usize),
    pub end: (usize, usize),
    pub heights: Vec<Vec<u8>>,
}

/// The grid as a sequence of rows of elevations.
pub open spec fn grid_of(heights: Seq<Vec<u8>>) -> Seq<Seq<u8>> {
    heights.map_values(|row: Vec<u8>| row@)
}

/// Non-empty and rectangular.
pub open spec fn wf_grid(g: Seq<Seq<u8>>) -> bool {
    &&& g.len() > 0
    &&& g[0].len() > 0
    &&& forall|i: int| 0 <= i < g.len() ==> #[trigger] g[i].len() == g[0].len()
}

pub open spec fn in_bounds(g: Seq<Seq<u8>>, p: (int, int)) -> bool {
    0 <= p.0 < g.len() && 0 <= p.1 < g[0].len()
}

/// Orthogonal neighbours: one row or one column apart.
pub open spec fn adjacent(a: (int, int), b: (int, int)) -> bool {
    ||| (a.0 == b.0 && (b.1 == a.1 + 1 || b.1 == a.1 - 1))
    ||| (a.1 == b.1 && (b.0 == a.0 + 1 || b.0 == a.0 - 1))
}

/// A legal move: both cells on the grid, orthogonally adjacent, and climbing
/// by at most one elevation class. Descents of any size are legal, so this
/// relation is directional.
pub open spec fn can_step(g: Seq<Seq<u8>>, a: (int, int), b: (int, int)) -> bool {
    &&& in_bounds(g, a)
    &&& in_bounds(g, b)
    &&& adjacent(a, b)
    &&& g[b.0][b.1] <= g[a.0][a.1] + 1
}

/// A walk: a non-empty cell sequence whose consecutive cells are legal moves.
pub open spec fn is_path(g: Seq<Seq<u8>>, p: Seq<(int, int)>) -> bool {
    &&& p.len() >= 1
    &&& in_bounds(g, p[0])
    &&& forall|i: int| 0 <= i < p.len() - 1 ==> can_step(g, #[trigger] p[i], p[i + 1])
}

pub open spec fn connects(g: Seq<Seq<u8>>, p: Seq<(int, int)>, s: (int, int), t: (int, int)) -> bool {
    is_path(g, p) && p.first() == s && p.last() == t
}

/// Some walk of exactly `n` steps joins `s` to `t`.
pub open spec fn has_path_len(g: Seq<Seq<u8>>, s: (int, int), t: (int, int), n: nat) -> bool {
    exists|p: Seq<(int, int)>| connects(g, p, s, t) && p.len() == n + 1
}

/// Some walk joins `s` to `t`.
pub open spec fn connected(g: Seq<Seq<u8>>, s: (int, int), t: (int, int)) -> bool {
    exists|n: nat| has_path_len(g, s, t, n)
}

/// `n` is the exact shortest-path distance from `s` to `t`.
pub open spec fn dist_is(g: Seq<Seq<u8>>, s: (int, int), t: (int, int), n: nat) -> bool {
    has_path_len(g, s, t, n) && forall|k: nat| k < n ==> !has_path_len(g, s, t, k)
}

impl HeightMap {
    pub open spec fn grid(&self) -> Seq<Seq<u8>> {
        grid_of(self.heights@)
    }

    pub open spec fn spec_start(&self) -> (int, int) {
        (self.start.0 as int, self.start.1 as int)
    }

    pub open spec fn spec_end(&self) -> (int, int) {
        (self.end.0 as int, self.end.1 as int)
    }

    pub open spec fn wf(&self) -> bool {
        &&& wf_grid(self.grid())
        &&& in_bounds(self.grid(), self.spec_start())
        &&& in_bounds(self.grid(), self.spec_end())
    }
}

/// Every valid cell is joined to itself by the one-cell walk.
pub proof fn lemma_trivial_path(g: Seq<Seq<u8>>, p: (int, int))
    requires
        in_bounds(g, p),
    ensures
        dist_is(g, p, p, 0),
{
    let w = seq![p];
    assert(is_path(g, w));
    assert(connects(g, w, p, p) && w.len() == 0 + 1);
}

/// Minimality spelled out: whenever any walk of `k` steps joins `s` to `t`,
/// the exact distance is at most `k` - the search never answers with a
/// longer walk than one that exists.
pub proof fn lemma_dist_minimal(g: Seq<Seq<u8>>, s: (int, int), t: (int, int), n: nat, k: nat)
    requires
        dist_is(g, s, t, n),
        has_path_len(g, s, t, k),
    ensures
        n <= k,
{
    if k < n {
        assert(!has_path_len(g, s, t, k));
    }
}

/// Two exact distances for the same pair agree.
pub proof fn lemma_dist_unique(g: Seq<Seq<u8>>, s: (int, int), t: (int, int), n1: nat, n2: nat)
    requires
        dist_is(g, s, t, n1),
        dist_is(g, s, t, n2),
    ensures
        n1 == n2,
{
    if n1 < n2 {
        assert(!has_path_len(g, s, t, n1));
    }
    if n2 < n1 {
        assert(!has_path_len(g, s, t, n2));
    }
}

/// The step rule is directional: a rise of two blocks the way in, while the
/// reverse step, a descent, stays legal.
pub proof fn lemma_step_directional(g: Seq<Seq<u8>>, a: (int, int), b: (int, int))
    requires
        in_bounds(g, a),
        in_bounds(g, b),
        adjacent(a, b),
        g[b.0][b.1] == g[a.0][a.1] + 2,
    ensures
        !can_step(g, a, b),
        can_step(g, b, a),
{
}

/// Appending a legal step extends a walk by one.
pub proof fn lemma_path_extend(g: Seq<Seq<u8>>, s: (int, int), y: (int, int), x: (int, int), n: nat)
    requires
        has_path_len(g, s, y, n),
        can_step(g, y, x),
    ensures
        has_path_len(g, s, x, n + 1),
{
    let p = choose|p: Seq<(int, int)>| connects(g, p, s, y) && p.len() == n + 1;
    let q = p.push(x);
    assert(q[p.len() - 1] == p[p.len() - 1]);
    assert forall|i: int| 0 <= i < q.len() - 1 implies can_step(g, #[trigger] q[i], q[i + 1]) by {
        if i < p.len() - 1 {
            assert(can_step(g, p[i], p[i + 1]));
        }
    }
    assert(connects(g, q, s, x) && q.len() == n + 1 + 1);
}

/// A walk of `n >= 1` steps has a last-but-one cell one step from its end.
pub proof fn lemma_path_shrink(g: Seq<Seq<u8>>, s: (int, int), x: (int, int), n: nat)
    requires
        has_path_len(g, s, x, n),
        n >= 1,
    ensures
        exists|y: (int, int)|
            #[trigger] can_step(g, y, x) && has_path_len(g, s, y, (n - 1) as nat),
{
    let p = choose|p: Seq<(int, int)>| connects(g, p, s, x) && p.len() == n + 1;
    let q = p.drop_last();
    let y = p[p.len() - 2];
    assert forall|i: int| 0 <= i < q.len() - 1 implies can_step(g, #[trigger] q[i], q[i + 1]) by {
        assert(can_step(g, p[i], p[i + 1]));
    }
    assert(can_step(g, p[p.len() - 2], p[p.len() - 1]));
    assert(connects(g, q, s, y) && q.len() == (n - 1) + 1);
    assert(can_step(g, y, x) && has_path_len(g, s, y, (n - 1) as nat));
}

/// Whenever some walk joins `s` to `t`, a shortest one does.
pub proof fn lemma_least_dist(g: Seq<Seq<u8>>, s: (int, int), t: (int, int), n: nat)
    requires
        has_path_len(g, s, t, n),
    ensures
        exists|m: nat| m <= n && dist_is(g, s, t, m),
    decreases n,
{
    if forall|k: nat| k < n ==> !has_path_len(g, s, t, k) {
        assert(dist_is(g, s, t, n));
    } else {
        let k = choose|k: nat| k < n && has_path_len(g, s, t, k);
        lemma_least_dist(g, s, t, k);
    }
}

/// A predecessor on a shortest walk sits at exactly the previous distance.
pub proof fn lemma_pred_dist(g: Seq<Seq<u8>>, s: (int, int), t: (int, int), n: nat)
    requires
        dist_is(g, s, t, n),
        n >= 1,
    ensures
        exists|y: (int, int)|
            #[trigger] can_step(g, y, t) && dist_is(g, s, y, (n - 1) as nat),
{
    lemma_path_shrink(g, s, t, n);
    let y = choose|y: (int, int)|
        #[trigger] can_step(g, y, t) && has_path_len(g, s, y, (n - 1) as nat);
    lemma_least_dist(g, s, y, (n - 1) as nat);
    let m = choose|m: nat| m <= n - 1 && dist_is(g, s, y, m);
    if m < n - 1 {
        lemma_path_extend(g, s, y, t, m);
        assert(has_path_len(g, s, t, (m + 1) as nat));
        assert(!has_path_len(g, s, t, (m + 1) as nat));
    }
    assert(dist_is(g, s, y, (n - 1) as nat));
    assert(can_step(g, y, t) && dist_is(g, s, y, (n - 1) as nat));
}

pub open spec fn ipos(p: (usize, usize)) -> (int, int) {
    (p.0 as int, p.1 as int)
}

/// Membership of a cell in a list of exec-level positions.
pub open spec fn fmem(fr: Seq<(usize, usize)>, p: (int, int)) -> bool {
    exists|i: int| 0 <= i < fr.len() && ipos(#[trigger] fr[i]) == p
}

/// The boolean grid as a sequence of rows.
pub open spec fn vis_of(vs: Seq<Vec<bool>>) -> Seq<Seq<bool>> {
    vs.map_values(|row: Vec<bool>| row@)
}

pub open spec fn vis_at(vs: Seq<Seq<bool>>, p: (int, int)) -> bool {
    vs[p.0][p.1]
}

/// Some walk of at most `d` steps joins `s` to `p`.
pub open spec fn reach_within(g: Seq<Seq<u8>>, s: (int, int), p: (int, int), d: nat) -> bool {
    exists|k: nat| k <= d && has_path_len(g, s, p, k)
}

spec fn count_row(r: Seq<bool>) -> nat
    decreases r.len(),
{
    if r.len() == 0 {
        0
    } else {
        count_row(r.drop_last()) + if r.last() {
            1nat
        } else {
            0nat
        }
    }
}

spec fn count_grid(vs: Seq<Seq<bool>>) -> nat
    decreases vs.len(),
{
    if vs.len() == 0 {
        0
    } else {
        count_grid(vs.drop_last()) + count_row(vs.last())
    }
}

proof fn lemma_count_row_le(r: Seq<bool>)
    ensures
        count_row(r) <= r.len(),
    decreases r.len(),
{
    if r.len() > 0 {
        lemma_count_row_le(r.drop_last());
    }
}

proof fn lemma_count_grid_le(vs: Seq<Seq<bool>>, cols: nat)
    requires
        forall|i: int| 0 <= i < vs.len() ==> (#[trigger] vs[i]).len() == cols,
    ensures
        count_grid(vs) <= vs.len() * cols,
    decreases vs.len(),
{
    if vs.len() > 0 {
        lemma_count_grid_le(vs.drop_last(), cols);
        lemma_count_row_le(vs.last());
        assert((vs.len() - 1) * cols + cols == vs.len() * cols) by (nonlinear_arith);
    }
}

proof fn lemma_count_row_update(r: Seq<bool>, j: int)
    requires
        0 <= j < r.len(),
        !r[j],
    ensures
        count_row(r.update(j, true)) == count_row(r) + 1,
    decreases r.len(),
{
    let r2 = r.update(j, true);
    if j == r.len() - 1 {
        assert(r2.drop_last() =~= r.drop_last());
    } else {
        assert(r2.drop_last() =~= r.drop_last().update(j, true));
        lemma_count_row_update(r.drop_last(), j);
    }
}

proof fn lemma_count_grid_update(vs: Seq<Seq<bool>>, i: int, j: int)
    requires
        0 <= i < vs.len(),
        0 <= j < vs[i].len(),
        !vs[i][j],
    ensures
        count_grid(vs.update(i, vs[i].update(j, true))) == count_grid(vs) + 1,
    decreases vs.len(),
{
    let vs2 = vs.update(i, vs[i].update(j, true));
    if i == vs.len() - 1 {
        assert(vs2.drop_last() =~= vs.drop_last());
        assert(vs2.last() =~= vs.last().update(j, true));
        lemma_count_row_update(vs.last(), j);
    } else {
        assert(vs2.drop_last() =~= vs.drop_last().update(i, vs[i].update(j, true)));
        assert(vs2.last() =~= vs.last());
        lemma_count_grid_update(vs.drop_last(), i, j);
    }
}

/// Below any realised distance, every level is inhabited.
pub proof fn lemma_level_exists(g: Seq<Seq<u8>>, s: (int, int), t: (int, int), n: nat, k: nat)
    requires
        dist_is(g, s, t, n),
        k <= n,
    ensures
        exists|z: (int, int)| #[trigger] dist_is(g, s, z, k),
    decreases n,
{
    if k == n {
        assert(dist_is(g, s, t, k));
    } else {
        lemma_pred_dist(g, s, t, n);
        let y = choose|y: (int, int)|
            #[trigger] can_step(g, y, t) && dist_is(g, s, y, (n - 1) as nat);
        lemma_level_exists(g, s, y, (n - 1) as nat, k);
    }
}

/// The state after seeding a search at `s`: level zero is exactly `{s}`.
proof fn lemma_init_level(
    g: Seq<Seq<u8>>,
    s: (int, int),
    t: (int, int),
    vis0: Seq<Seq<bool>>,
    vis: Seq<Seq<bool>>,
    fr: Seq<(usize, usize)>,
)
    requires
        in_bounds(g, s),
        in_bounds(g, t),
        s != t,
        vis0.len() == g.len(),
        forall|i: int| 0 <= i < g.len() ==> (#[trigger] vis0[i]).len() == g[0].len(),
        forall|i: int, j: int| 0 <= i < g.len() && 0 <= j < g[0].len() ==> !(#[trigger] vis0[i][j]),
        vis == vis0.update(s.0, vis0[s.0].update(s.1, true)),
        fr.len() == 1,
        ipos(fr[0]) == s,
    ensures
        forall|p: (int, int)|
            in_bounds(g, p) ==> (#[trigger] vis_at(vis, p) <==> reach_within(g, s, p, 0nat)),
        forall|q: (int, int)| #[trigger] fmem(fr, q) ==> dist_is(g, s, q, 0nat),
        forall|q: (int, int)| in_bounds(g, q) && #[trigger] dist_is(g, s, q, 0nat) ==> fmem(fr, q),
        !vis_at(vis, t),
{
    lemma_trivial_path(g, s);
    assert forall|p: (int, int)| #[trigger] has_path_len(g, s, p, 0) implies p == s by {
        let w = choose|w: Seq<(int, int)>| connects(g, w, s, p) && w.len() == 0 + 1;
        assert(w.first() == w.last());
    }
    assert forall|p: (int, int)|
        in_bounds(g, p) implies (#[trigger] vis_at(vis, p) <==> reach_within(g, s, p, 0nat)) by {
        if vis_at(vis, p) {
            assert(p == s);
            assert(has_path_len(g, s, p, 0));
        }
        if reach_within(g, s, p, 0nat) {
            let k = choose|k: nat| k <= 0 && has_path_len(g, s, p, k);
            assert(has_path_len(g, s, p, 0));
            assert(p == s);
        }
    }
    assert forall|q: (int, int)| #[trigger] fmem(fr, q) implies dist_is(g, s, q, 0nat) by {
        let i = choose|i: int| 0 <= i < fr.len() && ipos(fr[i]) == q;
        assert(q == s);
    }
    assert forall|q: (int, int)|
        in_bounds(g, q) && #[trigger] dist_is(g, s, q, 0nat) implies fmem(fr, q) by {
        assert(q == s);
        assert(ipos(fr[0]) == q);
    }
}

/// Whether a step from elevation `from` to elevation `to` is legal.
pub fn can_travel(from: u8, to: u8) -> (b: bool)
    ensures
        b == (to as int <= from as int + 1),
{
    to as u16 <= from as u16 + 1
}

/// The cells one legal step away from `current`.
pub fn reachable(map: &HeightMap, current: &(usize, usize)) -> (out: Vec<(usize, usize)>)
    requires
        map.wf(),
        in_bounds(map.grid(), ipos(*current)),
    ensures
        forall|q: (int, int)| #[trigger] fmem(out@, q) <==> can_step(map.grid(), ipos(*current), q),
{
    let ghost g = map.grid();
    let ghost c = ipos(*current);
    proof {
        assert(g.len() == map.heights@.len());
        assert forall|i: int| 0 <= i < g.len() implies (#[trigger] map.heights@[i])@ == g[i] by {
            assert(g[i] == map.heights@.map_values(|row: Vec<u8>| row@)[i]);
        }
    }
    let (row, col) = *current;
    let rows = map.heights.len();
    let cols = map.heights[0].len();
    let here = map.heights[row][col];
    let mut out: Vec<(usize, usize)> = Vec::new();
    if row > 0 && can_travel(here, map.heights[row - 1][col]) {
        out.push((row - 1, col));
    }
    let ghost out_a = out@;
    if row + 1 < rows && can_travel(here, map.heights[row + 1][col]) {
        out.push((row + 1, col));
    }
    let ghost out_b = out@;
    if col > 0 && can_travel(here, map.heights[row][col - 1]) {
        out.push((row, col - 1));
    }
    let ghost out_c = out@;
    if col + 1 < cols && can_travel(here, map.heights[row][col + 1]) {
        out.push((row, col + 1));
    }
    proof {
        assert forall|q: (int, int)| #[trigger] fmem(out@, q) implies can_step(g, c, q) by {
            let i = choose|i: int| 0 <= i < out@.len() && ipos(out@[i]) == q;
        }
        assert forall|q: (int, int)| can_step(g, c, q) implies #[trigger] fmem(out@, q) by {
            if q.0 == c.0 - 1 && q.1 == c.1 {
                assert(ipos(out@[0]) == q);
            } else if q.0 == c.0 + 1 && q.1 == c.1 {
                assert(ipos(out@[out_a.len() as int]) == q);
            } else if q.0 == c.0 && q.1 == c.1 - 1 {
                assert(ipos(out@[out_b.len() as int]) == q);
            } else {
                assert(q.0 == c.0 && q.1 == c.1 + 1);
                assert(ipos(out@[out_c.len() as int]) == q);
            }
        }
    }
    out
}

/// A `rows` by `cols` grid of `false`.
fn make_bool_grid(rows: usize, cols: usize) -> (vs: Vec<Vec<bool>>)
    ensures
        vs@.len() == rows,
        forall|i: int| 0 <= i < rows ==> (#[trigger] vs@[i])@.len() == cols,
        forall|i: int, j: int| 0 <= i < rows && 0 <= j < cols ==> !(#[trigger] vs@[i]@[j]),
        count_grid(vis_of(vs@)) == 0,
{
    let mut vs: Vec<Vec<bool>> = Vec::new();
    let mut i: usize = 0;
    while i < rows
        invariant
            i <= rows,
            vs@.len() == i,
            forall|k: int| 0 <= k < i ==> (#[trigger] vs@[k])@.len() == cols,
            forall|k: int, j: int| 0 <= k < i && 0 <= j < cols ==> !(#[trigger] vs@[k]@[j]),
            count_grid(vis_of(vs@)) == 0,
        decreases rows - i,
    {
        let mut row: Vec<bool> = Vec::new();
        let mut j: usize = 0;
        while j < cols
            invariant
                j <= cols,
                row@.len() == j,
                forall|k: int| 0 <= k < j ==> !(#[trigger] row@[k]),
                count_row(row@) == 0,
            decreases cols - j,
        {
            let ghost old_row = row@;
            row.push(false);
            proof {
                assert(row@.drop_last() =~= old_row);
            }
            j = j + 1;
        }
        let ghost old_vs = vs@;
        vs.push(row);
        proof {
            assert(vis_of(vs@).drop_last() =~= vis_of(old_vs));
            assert(vis_of(vs@).last() =~= row@);
        }
        i = i + 1;
    }
    vs
}

/// Whatever is joined to `s` by a walk lies on the grid.
proof fn lemma_dist_in_bounds(g: Seq<Seq<u8>>, s: (int, int), x: (int, int), n: nat)
    requires
        has_path_len(g, s, x, n),
    ensures
        in_bounds(g, x),
{
    let p = choose|p: Seq<(int, int)>| connects(g, p, s, x) && p.len() == n + 1;
    if p.len() >= 2 {
        assert(can_step(g, p[p.len() - 2], p[p.len() - 1]));
    }
}

/// A cell one step past a shortest walk, not seen within distance `d`, sits
/// at distance exactly `d + 1`.
proof fn lemma_new_cell_dist(g: Seq<Seq<u8>>, s: (int, int), p: (int, int), q: (int, int), d: nat)
    requires
        dist_is(g, s, p, d),
        can_step(g, p, q),
        !reach_within(g, s, q, d),
    ensures
        dist_is(g, s, q, (d + 1) as nat),
{
    lemma_path_extend(g, s, p, q, d);
    assert forall|k: nat| k < d + 1 implies !has_path_len(g, s, q, k) by {
        if has_path_len(g, s, q, k) {
            assert(reach_within(g, s, q, d));
        }
    }
}

/// Once every frontier cell is expanded, the next level is fully queued.
proof fn lemma_level_complete(
    g: Seq<Seq<u8>>,
    s: (int, int),
    d: nat,
    frontier: Seq<(usize, usize)>,
    nf: Seq<(usize, usize)>,
)
    requires
        forall|q: (int, int)|
            in_bounds(g, q) && #[trigger] dist_is(g, s, q, d) ==> fmem(frontier, q),
        forall|x: (int, int), j: int|
            0 <= j < frontier.len() && #[trigger] can_step(g, ipos(frontier[j]), x) && dist_is(
                g,
                s,
                x,
                (d + 1) as nat,
            ) ==> fmem(nf, x),
    ensures
        forall|x: (int, int)|
            in_bounds(g, x) && #[trigger] dist_is(g, s, x, (d + 1) as nat) ==> fmem(nf, x),
{
    assert forall|x: (int, int)|
        in_bounds(g, x) && #[trigger] dist_is(g, s, x, (d + 1) as nat) implies fmem(nf, x) by {
        lemma_pred_dist(g, s, x, (d + 1) as nat);
        let y = choose|y: (int, int)| #[trigger] can_step(g, y, x) && dist_is(g, s, y, d);
        assert(fmem(frontier, y));
        let j = choose|j: int| 0 <= j < frontier.len() && ipos(frontier[j]) == y;
        assert(can_step(g, ipos(frontier[j]), x));
    }
}

/// An empty next level means the search saw everything it ever could: a
/// target not yet seen is simply not connected to the source.
proof fn lemma_no_next_level(
    g: Seq<Seq<u8>>,
    s: (int, int),
    t: (int, int),
    d: nat,
    vis: Seq<Seq<bool>>,
    nf: Seq<(usize, usize)>,
)
    requires
        in_bounds(g, t),
        !vis_at(vis, t),
        forall|p: (int, int)|
            in_bounds(g, p) ==> (#[trigger] vis_at(vis, p) <==> (reach_within(g, s, p, d) || fmem(
                nf,
                p,
            ))),
        forall|x: (int, int)|
            in_bounds(g, x) && #[trigger] dist_is(g, s, x, (d + 1) as nat) ==> fmem(nf, x),
        nf.len() == 0,
    ensures
        !connected(g, s, t),
{
    assert forall|n: nat| !(#[trigger] has_path_len(g, s, t, n)) by {
        if has_path_len(g, s, t, n) {
            lemma_least_dist(g, s, t, n);
            let m = choose|m: nat| m <= n && dist_is(g, s, t, m);
            if m <= d {
                assert(reach_within(g, s, t, d));
                assert(vis_at(vis, t));
            } else {
                lemma_level_exists(g, s, t, m, (d + 1) as nat);
                let z = choose|z: (int, int)| #[trigger] dist_is(g, s, z, (d + 1) as nat);
                lemma_dist_in_bounds(g, s, z, (d + 1) as nat);
                assert(fmem(nf, z));
            }
        }
    }
}

/// One search level done: what is seen within `d + 1` steps is exactly what
/// is marked, and the new frontier is exactly level `d + 1`.
proof fn lemma_advance_level(
    g: Seq<Seq<u8>>,
    s: (int, int),
    d: nat,
    vis: Seq<Seq<bool>>,
    nf: Seq<(usize, usize)>,
)
    requires
        forall|p: (int, int)|
            in_bounds(g, p) ==> (#[trigger] vis_at(vis, p) <==> (reach_within(g, s, p, d) || fmem(
                nf,
                p,
            ))),
        forall|q: (int, int)|
            #[trigger] fmem(nf, q) ==> in_bounds(g, q) && dist_is(g, s, q, (d + 1) as nat),
        forall|x: (int, int)|
            in_bounds(g, x) && #[trigger] dist_is(g, s, x, (d + 1) as nat) ==> fmem(nf, x),
    ensures
        forall|p: (int, int)|
            in_bounds(g, p) ==> (#[trigger] vis_at(vis, p) <==> reach_within(
                g,
                s,
                p,
                (d + 1) as nat,
            )),
        forall|q: (int, int)| #[trigger] fmem(nf, q) ==> dist_is(g, s, q, (d + 1) as nat),
{
    assert forall|p: (int, int)| in_bounds(g, p) implies (#[trigger] vis_at(vis, p) <==>
    reach_within(g, s, p, (d + 1) as nat)) by {
        if vis_at(vis, p) {
            if reach_within(g, s, p, d) {
                let k = choose|k: nat| k <= d && has_path_len(g, s, p, k);
                assert(k <= d + 1 && has_path_len(g, s, p, k));
            } else {
                assert(fmem(nf, p));
                assert(has_path_len(g, s, p, (d + 1) as nat));
            }
            assert(reach_within(g, s, p, (d + 1) as nat));
        }
        if reach_within(g, s, p, (d + 1) as nat) {
            let k = choose|k: nat| k <= d + 1 && has_path_len(g, s, p, k);
            lemma_least_dist(g, s, p, k);
            let m = choose|m: nat| m <= k && dist_is(g, s, p, m);
            if m <= d {
                assert(reach_within(g, s, p, d));
            } else {
                assert(dist_is(g, s, p, (d + 1) as nat));
                assert(fmem(nf, p));
            }
            assert(vis_at(vis, p));
        }
    }
}

/// Marking one newly discovered cell and queueing it preserves the level
/// bookkeeping.
proof fn lemma_discover(
    g: Seq<Seq<u8>>,
    s: (int, int),
    d: nat,
    vis: Seq<Seq<bool>>,
    vis2: Seq<Seq<bool>>,
    nf: Seq<(usize, usize)>,
    nf2: Seq<(usize, usize)>,
    q: (usize, usize),
)
    requires
        vis.len() == g.len(),
        forall|i: int| 0 <= i < g.len() ==> (#[trigger] vis[i]).len() == g[0].len(),
        in_bounds(g, ipos(q)),
        dist_is(g, s, ipos(q), (d + 1) as nat),
        vis2 == vis.update(ipos(q).0, vis[ipos(q).0].update(ipos(q).1, true)),
        nf2 == nf.push(q),
        forall|p: (int, int)|
            in_bounds(g, p) ==> (#[trigger] vis_at(vis, p) <==> (reach_within(g, s, p, d) || fmem(
                nf,
                p,
            ))),
        forall|q2: (int, int)|
            #[trigger] fmem(nf, q2) ==> in_bounds(g, q2) && dist_is(g, s, q2, (d + 1) as nat),
    ensures
        vis2.len() == g.len(),
        forall|i: int| 0 <= i < g.len() ==> (#[trigger] vis2[i]).len() == g[0].len(),
        forall|p: (int, int)|
            in_bounds(g, p) ==> (#[trigger] vis_at(vis2, p) <==> (reach_within(g, s, p, d) || fmem(
                nf2,
                p,
            ))),
        forall|q2: (int, int)|
            #[trigger] fmem(nf2, q2) ==> in_bounds(g, q2) && dist_is(g, s, q2, (d + 1) as nat),
        forall|q2: (int, int)| #[trigger] fmem(nf, q2) ==> fmem(nf2, q2),
        forall|p: (int, int)| in_bounds(g, p) && p != ipos(q) ==> #[trigger] vis_at(vis2, p)
            == vis_at(vis, p),
        fmem(nf2, ipos(q)),
        vis_at(vis2, ipos(q)),
{
    let qi = ipos(q);
    assert(fmem(nf2, qi)) by {
        assert(ipos(nf2[nf.len() as int]) == qi);
    }
    assert forall|q2: (int, int)| #[trigger] fmem(nf, q2) implies fmem(nf2, q2) by {
        let i = choose|i: int| 0 <= i < nf.len() && ipos(nf[i]) == q2;
        assert(ipos(nf2[i]) == q2);
    }
    assert forall|q2: (int, int)| #[trigger] fmem(nf2, q2) && q2 != qi implies fmem(nf, q2) by {
        let i = choose|i: int| 0 <= i < nf2.len() && ipos(nf2[i]) == q2;
        assert(ipos(nf[i]) == q2);
    }
    assert forall|p: (int, int)| in_bounds(g, p) implies (#[trigger] vis_at(vis2, p) <==> (
    reach_within(g, s, p, d) || fmem(nf2, p))) by {
        if p == qi {
            assert(vis_at(vis2, qi));
        } else {
            assert(vis_at(vis2, p) == vis_at(vis, p));
            if fmem(nf2, p) {
                assert(fmem(nf, p));
            }
        }
    }
}

/// The length of the shortest walk from `source` to `target`, or `None` when
/// no walk joins them. Breadth-first search: the result is exact, never an
/// overestimate and never an underestimate.
#[verifier::loop_isolation(true)]
#[verifier::rlimit(100)]
pub fn shortest_path_length(map: &HeightMap, source: (usize, usize), target: (usize, usize)) -> (r:
    Option<usize>)
    requires
        map.wf(),
        in_bounds(map.grid(), ipos(source)),
        in_bounds(map.grid(), ipos(target)),
        map.grid().len() * map.grid()[0].len() < usize::MAX,
    ensures
        match r {
            Some(n) => dist_is(map.grid(), ipos(source), ipos(target), n as nat) && n
                <= map.grid().len() * map.grid()[0].len(),
            None => !connected(map.grid(), ipos(source), ipos(target)),
        },
        ipos(source) == ipos(target) ==> r == Some(0usize),
{
    let ghost g = map.grid();
    let ghost s = ipos(source);
    let ghost t = ipos(target);
    let rows = map.heights.len();
    let cols = map.heights[0].len();
    proof {
        assert(rows == g.len());
        assert(g[0] == map.heights@.map_values(|row: Vec<u8>| row@)[0]);
        assert(cols == g[0].len());
    }
    if source.0 == target.0 && source.1 == target.1 {
        proof {
            lemma_trivial_path(g, s);
        }
        return Some(0);
    }
    let mut visited = make_bool_grid(rows, cols);
    let ghost vis0 = vis_of(visited@);
    visited[source.0][source.1] = true;
    let mut count: usize = 1;
    let mut frontier: Vec<(usize, usize)> = Vec::new();
    frontier.push(source);
    let mut d: usize = 0;
    proof {
        assert(vis_of(visited@) =~= vis0.update(s.0, vis0[s.0].update(s.1, true)));
        lemma_count_grid_update(vis0, s.0, s.1);
        lemma_count_grid_le(vis_of(visited@), cols as nat);
        assert(ipos(frontier@[0]) == s);
        lemma_init_level(g, s, t, vis0, vis_of(visited@), frontier@);
    }
    loop
        invariant
            map.wf(),
            g == map.grid(),
            s == ipos(source),
            t == ipos(target),
            s != t,
            rows == g.len(),
            cols == g[0].len(),
            rows * cols < usize::MAX,
            in_bounds(g, s),
            in_bounds(g, t),
            visited@.len() == rows,
            forall|i: int| 0 <= i < rows ==> (#[trigger] visited@[i])@.len() == cols,
            count == count_grid(vis_of(visited@)),
            d < count <= rows * cols,
            forall|p: (int, int)|
                in_bounds(g, p) ==> (#[trigger] vis_at(vis_of(visited@), p) <==> reach_within(
                    g,
                    s,
                    p,
                    d as nat,
                )),
            forall|q: (int, int)| #[trigger] fmem(frontier@, q) ==> dist_is(g, s, q, d as nat),
            forall|q: (int, int)|
                in_bounds(g, q) && #[trigger] dist_is(g, s, q, d as nat) ==> fmem(frontier@, q),
            !vis_at(vis_of(visited@), t),
        decreases rows * cols - count,
    {
        let mut nf: Vec<(usize, usize)> = Vec::new();
        let ghost count0 = count as int;
        let mut fi: usize = 0;
        while fi < frontier.len()
            invariant
                map.wf(),
                g == map.grid(),
                s == ipos(source),
                t == ipos(target),
                s != t,
                rows == g.len(),
                cols == g[0].len(),
                rows * cols < usize::MAX,
                in_bounds(g, s),
                in_bounds(g, t),
                visited@.len() == rows,
                forall|i: int| 0 <= i < rows ==> (#[trigger] visited@[i])@.len() == cols,
                count == count_grid(vis_of(visited@)),
                count == count0 + nf@.len(),
                count <= rows * cols,
                count0 > d,
                fi <= frontier@.len(),
                forall|q: (int, int)| #[trigger] fmem(frontier@, q) ==> dist_is(g, s, q, d as nat),
                forall|q: (int, int)|
                    in_bounds(g, q) && #[trigger] dist_is(g, s, q, d as nat) ==> fmem(frontier@, q),
                forall|p: (int, int)|
                    in_bounds(g, p) ==> (#[trigger] vis_at(vis_of(visited@), p) <==> (reach_within(
                        g,
                        s,
                        p,
                        d as nat,
                    ) || fmem(nf@, p))),
                forall|q: (int, int)|
                    #[trigger] fmem(nf@, q) ==> in_bounds(g, q) && dist_is(
                        g,
                        s,
                        q,
                        (d + 1) as nat,
                    ),
                forall|x: (int, int), j: int|
                    0 <= j < fi && #[trigger] can_step(g, ipos(frontier@[j]), x) && dist_is(
                        g,
                        s,
                        x,
                        (d + 1) as nat,
                    ) ==> fmem(nf@, x),
                !vis_at(vis_of(visited@), t),
            decreases frontier@.len() - fi,
        {
            let p = frontier[fi];
            proof {
                assert(fmem(frontier@, ipos(p))) by {
                    assert(ipos(frontier@[fi as int]) == ipos(p));
                }
            }
            proof {
                lemma_dist_in_bounds(g, s, ipos(p), d as nat);
            }
            let nbrs = reachable(map, &p);
            let mut ni: usize = 0;
            while ni < nbrs.len()
                invariant
                    map.wf(),
                    g == map.grid(),
                    s == ipos(source),
                    t == ipos(target),
                    s != t,
                    rows == g.len(),
                    cols == g[0].len(),
                    rows * cols < usize::MAX,
                    in_bounds(g, s),
                    in_bounds(g, t),
                    visited@.len() == rows,
                    forall|i: int| 0 <= i < rows ==> (#[trigger] visited@[i])@.len() == cols,
                    count == count_grid(vis_of(visited@)),
                    count == count0 + nf@.len(),
                    count <= rows * cols,
                    count0 > d,
                    fi < frontier@.len(),
                    ipos(frontier@[fi as int]) == ipos(p),
                    dist_is(g, s, ipos(p), d as nat),
                    forall|x: (int, int)| #[trigger] fmem(nbrs@, x) <==> can_step(g, ipos(p), x),
                    ni <= nbrs@.len(),
                    forall|q: (int, int)|
                        #[trigger] fmem(frontier@, q) ==> dist_is(g, s, q, d as nat),
                    forall|q: (int, int)|
                        in_bounds(g, q) && #[trigger] dist_is(g, s, q, d as nat) ==> fmem(
                            frontier@,
                            q,
                        ),
                    forall|p2: (int, int)|
                        in_bounds(g, p2) ==> (#[trigger] vis_at(vis_of(visited@), p2) <==> (
                        reach_within(g, s, p2, d as nat) || fmem(nf@, p2))),
                    forall|q: (int, int)|
                        #[trigger] fmem(nf@, q) ==> in_bounds(g, q) && dist_is(
                            g,
                            s,
                            q,
                            (d + 1) as nat,
                        ),
                    forall|x: (int, int), j: int|
                        0 <= j < fi && #[trigger] can_step(g, ipos(frontier@[j]), x) && dist_is(
                            g,
                            s,
                            x,
                            (d + 1) as nat,
                        ) ==> fmem(nf@, x),
                    forall|k: int|
                        0 <= k < ni && dist_is(g, s, ipos(#[trigger] nbrs@[k]), (d + 1) as nat)
                            ==> fmem(nf@, ipos(nbrs@[k])),
                    !vis_at(vis_of(visited@), t),
                decreases nbrs@.len() - ni,
            {
                let q = nbrs[ni];
                let ghost qi = ipos(q);
                proof {
                    assert(fmem(nbrs@, qi)) by {
                        assert(ipos(nbrs@[ni as int]) == qi);
                    }
                    assert(can_step(g, ipos(p), qi));
                    assert(in_bounds(g, qi));
                    assert(vis_of(visited@)[qi.0] == visited@[qi.0]@);
                    assert(vis_at(vis_of(visited@), qi) == visited@[qi.0]@[qi.1]);
                }
                if !visited[q.0][q.1] {
                    proof {
                        assert(!vis_at(vis_of(visited@), qi));
                        assert(!reach_within(g, s, qi, d as nat));
                        lemma_new_cell_dist(g, s, ipos(p), qi, d as nat);
                    }
                    let ghost old_vis = vis_of(visited@);
                    visited[q.0][q.1] = true;
                    proof {
                        assert(vis_of(visited@) =~= old_vis.update(
                            qi.0,
                            old_vis[qi.0].update(qi.1, true),
                        ));
                        lemma_count_grid_update(old_vis, qi.0, qi.1);
                        lemma_count_grid_le(vis_of(visited@), cols as nat);
                    }
                    count = count + 1;
                    if q.0 == target.0 && q.1 == target.1 {
                        return Some(d + 1);
                    }
                    let ghost old_nf = nf@;
                    nf.push(q);
                    proof {
                        lemma_discover(g, s, d as nat, old_vis, vis_of(visited@), old_nf, nf@, q);
                    }
                } else {
                    proof {
                        // A neighbour seen before sits within distance `d`,
                        // or is already queued for level `d + 1`.
                        assert(vis_at(vis_of(visited@), qi));
                        if dist_is(g, s, qi, (d + 1) as nat) {
                            if reach_within(g, s, qi, d as nat) {
                                let k = choose|k: nat| k <= d && has_path_len(g, s, qi, k);
                                assert(!has_path_len(g, s, qi, k));
                            }
                            assert(fmem(nf@, qi));
                        }
                    }
                }
                ni = ni + 1;
            }
            proof {
                // All of `p`'s step-targets at distance `d + 1` are queued now.
                assert forall|x: (int, int)|
                    #[trigger] can_step(g, ipos(p), x) && dist_is(g, s, x, (d + 1) as nat)
                    implies fmem(nf@, x) by {
                    assert(fmem(nbrs@, x));
                    let k = choose|k: int| 0 <= k < nbrs@.len() && ipos(nbrs@[k]) == x;
                    assert(dist_is(g, s, ipos(nbrs@[k]), (d + 1) as nat));
                }
                assert(ipos(frontier@[fi as int]) == ipos(p));
            }
            fi = fi + 1;
        }
        proof {
            lemma_level_complete(g, s, d as nat, frontier@, nf@);
        }
        if nf.len() == 0 {
            proof {
                lemma_no_next_level(g, s, t, d as nat, vis_of(visited@), nf@);
            }
            return None;
        }
        proof {
            lemma_advance_level(g, s, d as nat, vis_of(visited@), nf@);
        }
        frontier = nf;
        d = d + 1;
    }
}

/// The minimum shortest-path length from any of the `sources` to `target`:
/// the minimum over the per-source results that reach the target at all, and
/// `None` exactly when no source does.
pub fn best_shortest_path_length(
    map: &HeightMap,
    sources: &Vec<(usize, usize)>,
    target: (usize, usize),
) -> (r: Option<usize>)
    requires
        map.wf(),
        forall|i: int|
            0 <= i < sources@.len() ==> in_bounds(map.grid(), ipos(#[trigger] sources@[i])),
        in_bounds(map.grid(), ipos(target)),
        map.grid().len() * map.grid()[0].len() < usize::MAX,
    ensures
        match r {
            Some(v) => {
                &&& exists|i: int|
                    0 <= i < sources@.len() && dist_is(
                        map.grid(),
                        ipos(#[trigger] sources@[i]),
                        ipos(target),
                        v as nat,
                    )
                &&& forall|i: int, k: nat|
                    0 <= i < sources@.len() && #[trigger] dist_is(
                        map.grid(),
                        ipos(sources@[i]),
                        ipos(target),
                        k,
                    ) ==> v <= k
                &&& v <= map.grid().len() * map.grid()[0].len()
            },
            None => forall|i: int|
                0 <= i < sources@.len() ==> !connected(
                    map.grid(),
                    ipos(#[trigger] sources@[i]),
                    ipos(target),
                ),
        },
{
    let ghost g = map.grid();
    let ghost t = ipos(target);
    let mut best: Option<usize> = None;
    let mut i: usize = 0;
    while i < sources.len()
        invariant
            i <= sources@.len(),
            match best {
                Some(v) => {
                    &&& exists|j: int|
                        0 <= j < i && dist_is(g, ipos(#[trigger] sources@[j]), t, v as nat)
                    &&& forall|j: int, k: nat|
                        0 <= j < i && #[trigger] dist_is(g, ipos(sources@[j]), t, k) ==> v <= k
                    &&& v <= g.len() * g[0].len()
                },
                None => forall|j: int| 0 <= j < i ==> !connected(g, ipos(#[trigger] sources@[j]), t),
            },
        decreases sources@.len() - i,
    {
        let src = sources[i];
        let here = shortest_path_length(map, src, target);
        proof {
            assert(ipos(sources@[i as int]) == ipos(src));
        }
        match here {
            Some(n) => {
                proof {
                    // Any later claim of a distance from this source agrees.
                    assert forall|k: nat| #[trigger] dist_is(g, ipos(src), t, k) implies n <= k by {
                        lemma_dist_unique(g, ipos(src), t, n as nat, k);
                    }
                }
                match best {
                    Some(v) => {
                        if n < v {
                            best = Some(n);
                        }
                    },
                    None => {
                        best = Some(n);
                    },
                }
            },
            None => {
                proof {
                    assert forall|k: nat| !(#[trigger] dist_is(g, ipos(src), t, k)) by {
                        if dist_is(g, ipos(src), t, k) {
                            assert(connected(g, ipos(src), t));
                        }
                    }
                }
            },
        }
        i = i + 1;
    }
    best
}

/// The elevation class of an input character: `S` is lowest, `E` highest,
/// and a lowercase letter stands for itself.
pub open spec fn height_of_char(c: char) -> int {
    if c == 'S' {
        0
    } else if c == 'E' {
        25
    } else {
        c as u32 - 97
    }
}

pub open spec fn is_cell_char(c: char) -> bool {
    (97 <= c as u32 <= 122) || c == 'S' || c == 'E'
}

/// A well-formed input: non-empty lines of equal positive length, every
/// character an elevation letter or a marker, and exactly one `S` and one
/// `E`.
pub open spec fn parse_ok(s: Seq<char>) -> bool {
    let lines = text::spec_lines(s);
    &&& lines.len() > 0
    &&& lines[0].len() > 0
    &&& forall|i: int| 0 <= i < lines.len() ==> (#[trigger] lines[i]).len() == lines[0].len()
    &&& forall|i: int, j: int|
        0 <= i < lines.len() && 0 <= j < lines[0].len() ==> is_cell_char(#[trigger] lines[i][j])
    &&& has_unique_marker(lines, 'S')
    &&& has_unique_marker(lines, 'E')
}

/// Exactly one cell holds the character `c`.
pub open spec fn has_unique_marker(lines: Seq<Seq<char>>, c: char) -> bool {
    exists|i: int, j: int|
        0 <= i < lines.len() && 0 <= j < lines[i].len() && #[trigger] lines[i][j] == c && (forall|
            i2: int,
            j2: int,
        |
            0 <= i2 < lines.len() && 0 <= j2 < lines[i2].len() && #[trigger] lines[i2][j2] == c
                ==> i2 == i && j2 == j)
}

/// The position of the unique occurrence of `c`.
pub open spec fn marker_pos(lines: Seq<Seq<char>>, c: char) -> (int, int) {
    choose|p: (int, int)|
        0 <= p.0 < lines.len() && 0 <= p.1 < lines[p.0].len() && #[trigger] lines[p.0][p.1] == c
}

/// Builds the grid from its text form: one line per row, `a`..=`z` the
/// elevation classes, `S` the start (lowest class), `E` the end (highest).
pub fn parse(input: &str) -> (out: HeightMap)
    requires
        parse_ok(input@),
    ensures
        out.wf(),
        out.grid().len() == text::spec_lines(input@).len(),
        out.grid()[0].len() == text::spec_lines(input@)[0].len(),
        forall|i: int, j: int|
            0 <= i < out.grid().len() && 0 <= j < out.grid()[0].len() ==> #[trigger] out.grid(
            )[i][j] == height_of_char(text::spec_lines(input@)[i][j]),
        ipos(out.start) == marker_pos(text::spec_lines(input@), 'S'),
        ipos(out.end) == marker_pos(text::spec_lines(input@), 'E'),
{
    let ghost lines_spec = text::spec_lines(input@);
    let chars = text::chars_of(input);
    let lines = text::split_lines(&chars);
    let mut heights: Vec<Vec<u8>> = Vec::new();
    let mut start: (usize, usize) = (0, 0);
    let mut end: (usize, usize) = (0, 0);
    let mut found_s = false;
    let mut found_e = false;
    let mut i: usize = 0;
    while i < lines.len()
        invariant
            i <= lines@.len(),
            lines@.map_values(|l: Vec<char>| l@) == lines_spec,
            heights@.len() == i,
            forall|r: int|
                0 <= r < i ==> (#[trigger] heights@[r])@.len() == lines_spec[0].len(),
            forall|r: int, c: int|
                0 <= r < i && 0 <= c < lines_spec[0].len() ==> #[trigger] heights@[r]@[c] as int
                    == height_of_char(lines_spec[r][c]),
            found_s <==> (exists|r: int, c: int|
                0 <= r < i && 0 <= c < lines_spec[r].len() && #[trigger] lines_spec[r][c] == 'S'),
            found_e <==> (exists|r: int, c: int|
                0 <= r < i && 0 <= c < lines_spec[r].len() && #[trigger] lines_spec[r][c] == 'E'),
            found_s ==> start.0 < i && start.1 < lines_spec[start.0 as int].len()
                && lines_spec[start.0 as int][start.1 as int] == 'S',
            found_e ==> end.0 < i && end.1 < lines_spec[end.0 as int].len()
                && lines_spec[end.0 as int][end.1 as int] == 'E',
        decreases lines@.len() - i,
    {
        let line = &lines[i];
        assert(line@ == lines_spec[i as int]);
        let mut row: Vec<u8> = Vec::new();
        let mut j: usize = 0;
        while j < line.len()
            invariant
                j <= line@.len(),
                line@ == lines_spec[i as int],
                i < lines_spec.len(),
                row@.len() == j,
                forall|c: int|
                    0 <= c < j ==> #[trigger] row@[c] as int == height_of_char(
                        lines_spec[i as int][c],
                    ),
                found_s <==> ((exists|r: int, c: int|
                    0 <= r < i && 0 <= c < lines_spec[r].len() && #[trigger] lines_spec[r][c]
                        == 'S') || (exists|c: int|
                    0 <= c < j && #[trigger] lines_spec[i as int][c] == 'S')),
                found_e <==> ((exists|r: int, c: int|
                    0 <= r < i && 0 <= c < lines_spec[r].len() && #[trigger] lines_spec[r][c]
                        == 'E') || (exists|c: int|
                    0 <= c < j && #[trigger] lines_spec[i as int][c] == 'E')),
                found_s ==> start.0 <= i && start.1 < lines_spec[start.0 as int].len()
                    && lines_spec[start.0 as int][start.1 as int] == 'S',
                found_e ==> end.0 <= i && end.1 < lines_spec[end.0 as int].len()
                    && lines_spec[end.0 as int][end.1 as int] == 'E',
            decreases line@.len() - j,
        {
            let c = line[j];
            if c == 'S' {
                row.push(0);
                start = (i, j);
                found_s = true;
            } else if c == 'E' {
                row.push(25);
                end = (i, j);
                found_e = true;
            } else {
                assert(is_cell_char(lines_spec[i as int][j as int]));
                let u = c as u32;
                row.push((u - 97) as u8);
            }
            j = j + 1;
        }
        heights.push(row);
        i = i + 1;
    }
    let out = HeightMap { start, end, heights };
    proof {
        let g = out.grid();
        assert(lines_spec.len() > 0);
        if !found_s {
            let (r, c) = choose|r: int, c: int|
                0 <= r < lines_spec.len() && 0 <= c < lines_spec[r].len() && #[trigger] lines_spec[r][c]
                    == 'S';
            assert(lines_spec[r][c] == 'S');
        }
        if !found_e {
            let (r, c) = choose|r: int, c: int|
                0 <= r < lines_spec.len() && 0 <= c < lines_spec[r].len() && #[trigger] lines_spec[r][c]
                    == 'E';
            assert(lines_spec[r][c] == 'E');
        }
        assert forall|i2: int| 0 <= i2 < g.len() implies (#[trigger] g[i2]).len() == g[0].len() by {
            assert(g[i2] == out.heights@[i2]@);
            assert(g[0] == out.heights@[0]@);
        }
        assert(ipos(out.start) == marker_pos(lines_spec, 'S')) by {
            let p = marker_pos(lines_spec, 'S');
            assert(0 <= p.0 < lines_spec.len() && 0 <= p.1 < lines_spec[p.0].len()
                && lines_spec[p.0][p.1] == 'S') by {
                assert(lines_spec[start.0 as int][start.1 as int] == 'S');
            }
        }
        assert(ipos(out.end) == marker_pos(lines_spec, 'E')) by {
            let p = marker_pos(lines_spec, 'E');
            assert(0 <= p.0 < lines_spec.len() && 0 <= p.1 < lines_spec[p.0].len()
                && lines_spec[p.0][p.1] == 'E') by {
                assert(lines_spec[end.0 as int][end.1 as int] == 'E');
            }
        }
        assert(in_bounds(g, ipos(out.start)));
        assert(in_bounds(g, ipos(out.end)));
    }
    out
}

/// The number of steps on a shortest walk from the start marker to the end
/// marker.
pub fn part1(map: &HeightMap) -> (r: usize)
    requires
        map.wf(),
        connected(map.grid(), map.spec_start(), map.spec_end()),
        map.grid().len() * map.grid()[0].len() < usize::MAX,
    ensures
        dist_is(map.grid(), map.spec_start(), map.spec_end(), r as nat),
{
    match shortest_path_length(map, map.start, map.end) {
        Some(n) => n,
        None => {
            proof {
                let n = choose|n: nat| has_path_len(map.grid(), map.spec_start(), map.spec_end(), n);
                assert(false);
            }
            vstd::pervasive::unreached()
        },
    }
}

pub open spec fn is_zero_cell(g: Seq<Seq<u8>>, p: (int, int)) -> bool {
    in_bounds(g, p) && g[p.0][p.1] == 0
}

/// The fewest steps to the end marker from any cell of the lowest elevation,
/// or `usize::MAX` when no such cell reaches it.
pub fn part2(map: &HeightMap) -> (r: usize)
    requires
        map.wf(),
        map.grid().len() * map.grid()[0].len() < usize::MAX,
    ensures
        (exists|p: (int, int)| #[trigger] is_zero_cell(map.grid(), p) && connected(map.grid(), p, map.spec_end()))
            ==> {
            &&& r < usize::MAX
            &&& exists|p: (int, int)|
                #[trigger] is_zero_cell(map.grid(), p) && dist_is(
                    map.grid(),
                    p,
                    map.spec_end(),
                    r as nat,
                )
            &&& forall|p: (int, int), k: nat|
                #[trigger] is_zero_cell(map.grid(), p) && #[trigger] dist_is(
                    map.grid(),
                    p,
                    map.spec_end(),
                    k,
                ) ==> r <= k
        },
        !(exists|p: (int, int)| #[trigger] is_zero_cell(map.grid(), p) && connected(map.grid(), p, map.spec_end()))
            ==> r == usize::MAX,
{
    let ghost g = map.grid();
    let rows = map.heights.len();
    let cols = map.heights[0].len();
    proof {
        assert(g[0] == map.heights@[0]@);
    }
    let mut sources: Vec<(usize, usize)> = Vec::new();
    let mut i: usize = 0;
    while i < rows
        invariant
            i <= rows,
            forall|k: int|
                0 <= k < sources@.len() ==> is_zero_cell(g, ipos(#[trigger] sources@[k])),
            forall|p: (int, int)|
                is_zero_cell(g, p) && p.0 < i ==> #[trigger] fmem(sources@, p),
        decreases rows - i,
    {
        let mut j: usize = 0;
        while j < cols
            invariant
                i < rows,
                j <= cols,
                forall|k: int|
                    0 <= k < sources@.len() ==> is_zero_cell(g, ipos(#[trigger] sources@[k])),
                forall|p: (int, int)|
                    is_zero_cell(g, p) && (p.0 < i || (p.0 == i && p.1 < j)) ==> #[trigger] fmem(
                        sources@,
                        p,
                    ),
            decreases cols - j,
        {
            let ghost snap = sources@;
            proof {
                assert(g[i as int] == map.heights@[i as int]@);
            }
            let zero = map.heights[i][j] == 0;
            if zero {
                sources.push((i, j));
            }
            proof {
                if zero {
                    assert(fmem(sources@, (i as int, j as int))) by {
                        assert(ipos(sources@[snap.len() as int]) == (i as int, j as int));
                    }
                    assert forall|p: (int, int)| #[trigger] fmem(snap, p) implies fmem(
                        sources@,
                        p,
                    ) by {
                        let k = choose|k: int| 0 <= k < snap.len() && ipos(snap[k]) == p;
                        assert(ipos(sources@[k]) == p);
                    }
                    assert forall|k: int| 0 <= k < sources@.len() implies is_zero_cell(
                        g,
                        ipos(#[trigger] sources@[k]),
                    ) by {
                        if k < snap.len() {
                            assert(sources@[k] == snap[k]);
                            assert(is_zero_cell(g, ipos(snap[k])));
                        }
                    }
                }
                assert forall|p: (int, int)|
                    is_zero_cell(g, p) && (p.0 < i || (p.0 == i && p.1 < j + 1)) implies
                    #[trigger] fmem(sources@, p) by {
                    if p.0 == i && p.1 == j {
                        assert(zero);
                    } else {
                        assert(fmem(snap, p));
                    }
                }
            }
            j = j + 1;
        }
        i = i + 1;
    }
    let best = best_shortest_path_length(map, &sources, map.end);
    match best {
        Some(v) => {
            proof {
                let j = choose|j: int|
                    0 <= j < sources@.len() && dist_is(g, ipos(sources@[j]), map.spec_end(), v as nat);
                assert(is_zero_cell(g, ipos(sources@[j])));
                assert forall|p: (int, int), k: nat|
                    #[trigger] is_zero_cell(g, p) && #[trigger] dist_is(g, p, map.spec_end(), k)
                    implies v <= k by {
                    assert(fmem(sources@, p));
                    let m = choose|m: int| 0 <= m < sources@.len() && ipos(sources@[m]) == p;
                    assert(dist_is(g, ipos(sources@[m]), map.spec_end(), k));
                }
            }
            v
        },
        None => {
            proof {
                assert forall|p: (int, int)|
                    #[trigger] is_zero_cell(g, p) implies !connected(g, p, map.spec_end()) by {
                    assert(fmem(sources@, p));
                    let m = choose|m: int| 0 <= m < sources@.len() && ipos(sources@[m]) == p;
                    assert(!connected(g, ipos(sources@[m]), map.spec_end()));
                }
            }
            usize::MAX
        },
    }
}

} // verus!
