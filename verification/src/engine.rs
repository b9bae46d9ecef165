//! The propagation engine: grid well-formedness, the arc-consistency
//! invariant, and the worklist algorithm that collapses one cell and
//! removes newly invalidated candidates from its neighbors.

use crate::cell::{contains_tile, copy_tiles, filter_tiles, State};
use crate::relation::{opposite, table_allows, WfcRelation};
use crate::rng::RandomSource;
use vstd::prelude::*;

verus! {

/// The x coordinate one step in direction `d` from `x`.
pub open spec fn step_x(x: int, d: int) -> int {
    if d == 1 {
        x + 1
    } else if d == 3 {
        x - 1
    } else {
        x
    }
}

/// The y coordinate one step in direction `d` from `y`.
pub open spec fn step_y(y: int, d: int) -> int {
    if d == 0 {
        y + 1
    } else if d == 2 {
        y - 1
    } else {
        y
    }
}

/// Whether `(x, y)` lies on a `w` by `h` grid.
pub open spec fn in_bounds(w: int, h: int, x: int, y: int) -> bool {
    0 <= x < w && 0 <= y < h
}

/// The cell at `(x, y)`.
pub open spec fn cell_at(g: Seq<Vec<State>>, x: int, y: int) -> State {
    g[x]@[y]
}

/// A well-formed candidate grid: every row has height `h` and every
/// cell mentions only valid tile ids for `n` tiles.
pub open spec fn grid_wf(g: Seq<Vec<State>>, h: int, n: int) -> bool {
    &&& forall|x: int| 0 <= x < g.len() ==> (#[trigger] g[x])@.len() == h
    &&& forall|x: int, y: int|
        0 <= x < g.len() && 0 <= y < h ==> (#[trigger] cell_at(g, x, y)).cell_wf(n)
}

/// The neighbor coordinate one step in direction `d` from `(x, y)`,
/// or nothing when that step leaves the `w` by `h` grid.
pub fn neighbor_coord(x: usize, y: usize, d: usize, w: usize, h: usize) -> (r: Option<
    (usize, usize),
>)
    requires
        x < w,
        y < h,
        d < 4,
    ensures
        match r {
            Some(p) => p.0 == step_x(x as int, d as int) && p.1 == step_y(y as int, d as int)
                && in_bounds(w as int, h as int, p.0 as int, p.1 as int),
            None => !in_bounds(
                w as int,
                h as int,
                step_x(x as int, d as int),
                step_y(y as int, d as int),
            ),
        },
{
    if d == 0 {
        if y + 1 < h {
            Some((x, y + 1))
        } else {
            None
        }
    } else if d == 1 {
        if x + 1 < w {
            Some((x + 1, y))
        } else {
            None
        }
    } else if d == 2 {
        if y > 0 {
            Some((x, y - 1))
        } else {
            None
        }
    } else {
        if x > 0 {
            Some((x - 1, y))
        } else {
            None
        }
    }
}

/// One arc of the consistency invariant: if the cell at `(x, y)` is
/// fixed and its neighbor in direction `d` is on the grid, every tile
/// the neighbor still considers is permitted next to the fixed tile.
pub open spec fn arc_ok(
    g: Seq<Vec<State>>,
    t: Seq<Vec<Vec<usize>>>,
    x: int,
    y: int,
    d: int,
    h: int,
) -> bool {
    (in_bounds(g.len() as int, h, x, y) && 0 <= d < 4 && in_bounds(
        g.len() as int,
        h,
        step_x(x, d),
        step_y(y, d),
    ) && cell_at(g, x, y).spec_is_collapsed()) ==> {
        let nb = cell_at(g, step_x(x, d), step_y(y, d));
        forall|k: int|
            0 <= k < nb.candidates().len() ==> table_allows(
                t,
                cell_at(g, x, y).collapsed_tile() as int,
                d,
                (#[trigger] nb.candidates()[k]) as int,
            )
    }
}

/// Every fixed cell's constraint is fully applied to its neighbors.
pub open spec fn arcs_ok(g: Seq<Vec<State>>, t: Seq<Vec<Vec<usize>>>, h: int) -> bool {
    forall|x: int, y: int, d: int| #[trigger] arc_ok(g, t, x, y, d, h)
}

/// Adjacency satisfaction on a fully fixed grid: the tiles of every
/// pair of grid neighbors are permitted next to each other.
pub open spec fn adjacent_compatible(g: Seq<Vec<State>>, t: Seq<Vec<Vec<usize>>>, h: int) -> bool {
    forall|x: int, y: int, d: int|
        #![trigger cell_at(g, x, y), step_x(x, d)]
        in_bounds(g.len() as int, h, x, y) && 0 <= d < 4 && in_bounds(
            g.len() as int,
            h,
            step_x(x, d),
            step_y(y, d),
        ) && cell_at(g, x, y).spec_is_collapsed() && cell_at(
            g,
            step_x(x, d),
            step_y(y, d),
        ).spec_is_collapsed() ==> table_allows(
            t,
            cell_at(g, x, y).collapsed_tile() as int,
            d,
            cell_at(g, step_x(x, d), step_y(y, d)).collapsed_tile() as int,
        )
}

/// Whether every cell of the grid is fixed.
pub open spec fn all_collapsed_spec(g: Seq<Vec<State>>, h: int) -> bool {
    forall|x: int, y: int|
        0 <= x < g.len() && 0 <= y < h ==> (#[trigger] cell_at(g, x, y)).spec_is_collapsed()
}

/// Adjacency satisfaction follows from the arc invariant once every
/// cell is fixed: a fixed neighbor's only candidate is its tile.
pub proof fn lemma_adjacency_from_arcs(g: Seq<Vec<State>>, t: Seq<Vec<Vec<usize>>>, h: int)
    requires
        arcs_ok(g, t, h),
    ensures
        adjacent_compatible(g, t, h),
{
    assert forall|x: int, y: int, d: int|
        #![trigger cell_at(g, x, y), step_x(x, d)]
        in_bounds(g.len() as int, h, x, y) && 0 <= d < 4 && in_bounds(
            g.len() as int,
            h,
            step_x(x, d),
            step_y(y, d),
        ) && cell_at(g, x, y).spec_is_collapsed() && cell_at(
            g,
            step_x(x, d),
            step_y(y, d),
        ).spec_is_collapsed() implies table_allows(
        t,
        cell_at(g, x, y).collapsed_tile() as int,
        d,
        cell_at(g, step_x(x, d), step_y(y, d)).collapsed_tile() as int,
    ) by {
        assert(arc_ok(g, t, x, y, d, h));
        let nb = cell_at(g, step_x(x, d), step_y(y, d));
        assert(nb.candidates()[0] == nb.collapsed_tile());
    }
}

/// No-candidate detection, in contrapositive form: a successful grid
/// with two cells adjacent in direction `d` exhibits a permitted tile
/// pair across `d`. A table that permits nothing in some direction
/// therefore admits no such grid: generation must keep failing until
/// its retries are exhausted rather than return an invalid placement.
pub proof fn lemma_success_needs_support(
    g: Seq<Vec<State>>,
    t: Seq<Vec<Vec<usize>>>,
    n: int,
    h: int,
    x: int,
    y: int,
    d: int,
)
    requires
        grid_wf(g, h, n),
        all_collapsed_spec(g, h),
        adjacent_compatible(g, t, h),
        0 <= d < 4,
        in_bounds(g.len() as int, h, x, y),
        in_bounds(g.len() as int, h, step_x(x, d), step_y(y, d)),
    ensures
        exists|i: int, j: int| 0 <= i < n && 0 <= j < n && #[trigger] table_allows(t, i, d, j),
{
    let c = cell_at(g, x, y);
    let m = cell_at(g, step_x(x, d), step_y(y, d));
    assert(c.spec_is_collapsed());
    assert(m.spec_is_collapsed());
    assert(c.collapsed_tile() < n) by {
        assert(c.cell_wf(n));
        assert(c.candidates()[0] == c.collapsed_tile());
    }
    assert(m.collapsed_tile() < n) by {
        assert(m.cell_wf(n));
        assert(m.candidates()[0] == m.collapsed_tile());
    }
    assert(table_allows(t, c.collapsed_tile() as int, d, m.collapsed_tile() as int));
}

/// How one cell may evolve during an attempt: a fixed cell keeps its
/// tile; an undetermined cell either stays undetermined with a subset
/// of its candidates or is fixed to one of them.
pub open spec fn cell_narrowed(c0: State, c1: State) -> bool {
    match c1 {
        State::Collapsed(t) => c0.candidates().contains(t),
        State::Wave(v1) => !c0.spec_is_collapsed() && v1@.len() <= c0.candidates().len()
            && forall|k: int|
            0 <= k < v1@.len() ==> c0.candidates().contains(#[trigger] v1@[k]),
    }
}

/// Monotonic narrowing over the whole grid.
pub open spec fn grid_narrowed(g0: Seq<Vec<State>>, g1: Seq<Vec<State>>, h: int) -> bool {
    &&& g1.len() == g0.len()
    &&& forall|x: int, y: int|
        0 <= x < g0.len() && 0 <= y < h ==> cell_narrowed(
            cell_at(g0, x, y),
            #[trigger] cell_at(g1, x, y),
        )
}

/// Narrowing composes across successive propagation steps.
pub proof fn lemma_grid_narrowed_trans(
    g0: Seq<Vec<State>>,
    g1: Seq<Vec<State>>,
    g2: Seq<Vec<State>>,
    h: int,
)
    requires
        grid_narrowed(g0, g1, h),
        grid_narrowed(g1, g2, h),
    ensures
        grid_narrowed(g0, g2, h),
{
    assert forall|x: int, y: int| 0 <= x < g0.len() && 0 <= y < h implies cell_narrowed(
        cell_at(g0, x, y),
        #[trigger] cell_at(g2, x, y),
    ) by {
        let c0 = cell_at(g0, x, y);
        let c1 = cell_at(g1, x, y);
        let c2 = cell_at(g2, x, y);
        assert(cell_narrowed(c0, c1));
        assert(cell_narrowed(c1, c2));
        match c2 {
            State::Collapsed(t) => {
                assert(c1.candidates().contains(t));
                match c1 {
                    State::Collapsed(t1) => {
                        assert(t == t1);
                    },
                    State::Wave(v1) => {
                        let k = choose|k: int| 0 <= k < v1@.len() && v1@[k] == t;
                        assert(c0.candidates().contains(v1@[k]));
                    },
                }
            },
            State::Wave(v2) => {
                match c1 {
                    State::Collapsed(_) => {
                        assert(false);
                    },
                    State::Wave(v1) => {
                        assert forall|k: int| 0 <= k < v2@.len() implies c0.candidates().contains(
                            #[trigger] v2@[k],
                        ) by {
                            assert(v1@.contains(v2@[k]));
                            let m = choose|m: int| 0 <= m < v1@.len() && v1@[m] == v2@[k];
                            assert(c0.candidates().contains(v1@[m]));
                        }
                    },
                }
            },
        }
    }
}

/// The number of candidates a cell still holds open; a fixed cell
/// holds none open.
pub open spec fn cand_count(s: State) -> nat {
    match s {
        State::Wave(v) => v@.len(),
        State::Collapsed(_) => 0,
    }
}

/// The total number of candidates still open across one row.
pub open spec fn row_count(r: Seq<State>) -> nat
    decreases r.len(),
{
    if r.len() <= 0 {
        0
    } else {
        row_count(r.drop_last()) + cand_count(r.last())
    }
}

/// The total number of candidates still open across the grid: the
/// measure that propagation strictly decreases.
pub open spec fn grid_count(g: Seq<Vec<State>>) -> nat
    decreases g.len(),
{
    if g.len() <= 0 {
        0
    } else {
        grid_count(g.drop_last()) + row_count(g.last()@)
    }
}

proof fn lemma_row_count_update(r: Seq<State>, y: int, s: State)
    requires
        0 <= y < r.len(),
    ensures
        row_count(r.update(y, s)) + cand_count(r[y]) == row_count(r) + cand_count(s),
    decreases r.len(),
{
    let r2 = r.update(y, s);
    if y == r.len() - 1 {
        assert(r2.drop_last() =~= r.drop_last());
        assert(r2.last() == s);
    } else {
        assert(r2.drop_last() =~= r.drop_last().update(y, s));
        assert(r2.last() == r.last());
        lemma_row_count_update(r.drop_last(), y, s);
    }
}

proof fn lemma_grid_count_update(g: Seq<Vec<State>>, x: int, row: Vec<State>)
    requires
        0 <= x < g.len(),
    ensures
        grid_count(g.update(x, row)) + row_count(g[x]@) == grid_count(g) + row_count(row@),
    decreases g.len(),
{
    let g2 = g.update(x, row);
    if x == g.len() - 1 {
        assert(g2.drop_last() =~= g.drop_last());
        assert(g2.last() == row);
    } else {
        assert(g2.drop_last() =~= g.drop_last().update(x, row));
        assert(g2.last() == g.last());
        lemma_grid_count_update(g.drop_last(), x, row);
    }
}

/// Stepping forward in `d` and then in the opposite direction returns
/// to the starting coordinate.
pub proof fn lemma_step_back(x: int, y: int, d: int)
    requires
        0 <= d < 4,
    ensures
        0 <= opposite(d) < 4,
        step_x(step_x(x, d), opposite(d)) == x,
        step_y(step_y(y, d), opposite(d)) == y,
{
}

/// A cell is one step away from its neighbor, never from itself, and
/// distinct directions reach distinct neighbors.
pub proof fn lemma_neighbors_distinct(x: int, y: int, d: int, dd: int)
    requires
        0 <= d < 4,
        0 <= dd < 4,
    ensures
        (step_x(x, d), step_y(y, d)) != (x, y),
        d != dd ==> (step_x(x, d), step_y(y, d)) != (step_x(x, dd), step_y(y, dd)),
{
}

/// No cell changes its collapsed status or, once fixed, its tile.
spec fn same_collapsed(g0: Seq<Vec<State>>, g1: Seq<Vec<State>>, h: int) -> bool {
    &&& g1.len() == g0.len()
    &&& forall|x: int, y: int|
        0 <= x < g0.len() && 0 <= y < h ==> ((#[trigger] cell_at(g1, x, y)).spec_is_collapsed()
            == cell_at(g0, x, y).spec_is_collapsed() && (cell_at(g0, x, y).spec_is_collapsed()
            ==> cell_at(g1, x, y) == cell_at(g0, x, y)))
}

/// One arc between two fixed cells.
spec fn cc_arc(g: Seq<Vec<State>>, t: Seq<Vec<Vec<usize>>>, x: int, y: int, d: int, h: int) -> bool {
    (in_bounds(g.len() as int, h, x, y) && 0 <= d < 4 && in_bounds(
        g.len() as int,
        h,
        step_x(x, d),
        step_y(y, d),
    ) && cell_at(g, x, y).spec_is_collapsed() && cell_at(
        g,
        step_x(x, d),
        step_y(y, d),
    ).spec_is_collapsed()) ==> table_allows(
        t,
        cell_at(g, x, y).collapsed_tile() as int,
        d,
        cell_at(g, step_x(x, d), step_y(y, d)).collapsed_tile() as int,
    )
}

/// Every arc between two fixed cells is satisfied.
spec fn cc_ok(g: Seq<Vec<State>>, t: Seq<Vec<Vec<usize>>>, h: int) -> bool {
    forall|x: int, y: int, d: int| #[trigger] cc_arc(g, t, x, y, d, h)
}

/// Every fixed cell not on the worklist has its constraint fully
/// applied to its neighbors.
spec fn pending_arcs_ok(
    g: Seq<Vec<State>>,
    t: Seq<Vec<Vec<usize>>>,
    q: Seq<(usize, usize)>,
    h: int,
) -> bool {
    forall|x: int, y: int, d: int|
        #![trigger arc_ok(g, t, x, y, d, h)]
        (in_bounds(g.len() as int, h, x, y) && !q.contains(
            ((x as usize), (y as usize)),
        )) ==> arc_ok(g, t, x, y, d, h)
}

/// A cell evolves into itself.
proof fn lemma_cell_narrowed_refl(c: State)
    ensures
        cell_narrowed(c, c),
{
    match c {
        State::Collapsed(t) => {
            assert(c.candidates()[0] == t);
        },
        State::Wave(v) => {
            assert forall|k: int| 0 <= k < v@.len() implies c.candidates().contains(
                #[trigger] v@[k],
            ) by {
                assert(c.candidates()[k] == v@[k]);
            }
        },
    }
}

/// Arcs between fixed cells survive any change that keeps every fixed
/// cell as it was.
proof fn lemma_cc_preserved(g0: Seq<Vec<State>>, g1: Seq<Vec<State>>, t: Seq<Vec<Vec<usize>>>, h: int)
    requires
        cc_ok(g0, t, h),
        same_collapsed(g0, g1, h),
    ensures
        cc_ok(g1, t, h),
{
    assert forall|x: int, y: int, d: int| #[trigger] cc_arc(g1, t, x, y, d, h) by {
        assert(cc_arc(g0, t, x, y, d, h));
        if in_bounds(g1.len() as int, h, x, y) && 0 <= d < 4 && in_bounds(
            g1.len() as int,
            h,
            step_x(x, d),
            step_y(y, d),
        ) && cell_at(g1, x, y).spec_is_collapsed() && cell_at(
            g1,
            step_x(x, d),
            step_y(y, d),
        ).spec_is_collapsed() {
            assert(cell_at(g1, x, y) == cell_at(g0, x, y));
            assert(cell_at(g1, step_x(x, d), step_y(y, d)) == cell_at(
                g0,
                step_x(x, d),
                step_y(y, d),
            ));
        }
    }
}

/// A larger worklist excuses no fewer cells.
proof fn lemma_pending_mono(
    g: Seq<Vec<State>>,
    t: Seq<Vec<Vec<usize>>>,
    q1: Seq<(usize, usize)>,
    q2: Seq<(usize, usize)>,
    h: int,
)
    requires
        pending_arcs_ok(g, t, q1, h),
        forall|p: (usize, usize)| q1.contains(p) ==> q2.contains(p),
    ensures
        pending_arcs_ok(g, t, q2, h),
{
    assert forall|x: int, y: int, d: int|
        in_bounds(g.len() as int, h, x, y) && !q2.contains(
            ((x as usize), (y as usize)),
        ) implies #[trigger] arc_ok(g, t, x, y, d, h) by {
        assert(!q1.contains(((x as usize), (y as usize))));
    }
}

/// What holds right after the selected cell is fixed: the grid is
/// still well formed and narrowed, every arc between fixed cells is
/// satisfied, and only the freshly fixed cell still owes propagation.
#[verifier::rlimit(50)]
proof fn lemma_after_collapse(
    g0: Seq<Vec<State>>,
    g1: Seq<Vec<State>>,
    t: Seq<Vec<Vec<usize>>>,
    n: int,
    h: int,
    x: usize,
    y: usize,
    u: usize,
)
    requires
        crate::relation::table_wf(t, n),
        crate::relation::table_symmetric(t, n),
        grid_wf(g0, h, n),
        arcs_ok(g0, t, h),
        in_bounds(g0.len() as int, h, x as int, y as int),
        !cell_at(g0, x as int, y as int).spec_is_collapsed(),
        cell_at(g0, x as int, y as int).candidates().contains(u),
        g1.len() == g0.len(),
        forall|a: int| 0 <= a < g0.len() && a != x ==> g1[a] == g0[a],
        g1[x as int]@ == g0[x as int]@.update(y as int, State::Collapsed(u)),
    ensures
        grid_wf(g1, h, n),
        grid_narrowed(g0, g1, h),
        cc_ok(g1, t, h),
        pending_arcs_ok(g1, t, seq![(x, y)], h),
        cell_at(g1, x as int, y as int) == State::Collapsed(u),
        u < n,
{
    let xi = x as int;
    let yi = y as int;
    let w = g0.len() as int;
    assert(cell_at(g1, xi, yi) == State::Collapsed(u));
    assert forall|a: int, b: int|
        0 <= a < w && 0 <= b < h && !(a == xi && b == yi) implies cell_at(g1, a, b) == cell_at(
        g0,
        a,
        b,
    ) by {}
    assert(u < n) by {
        let c0 = cell_at(g0, xi, yi);
        let k = choose|k: int| 0 <= k < c0.candidates().len() && c0.candidates()[k] == u;
        assert(c0.cell_wf(n));
    }
    assert forall|a: int, b: int| 0 <= a < w && 0 <= b < h implies (#[trigger] cell_at(
        g1,
        a,
        b,
    )).cell_wf(n) by {
        if a == xi && b == yi {
            let c1 = cell_at(g1, a, b);
            assert forall|k: int| 0 <= k < c1.candidates().len() implies (
            #[trigger] c1.candidates()[k]) < n by {
                assert(c1.candidates()[k] == u);
            }
        } else {
            assert(cell_at(g1, a, b) == cell_at(g0, a, b));
        }
    }
    assert forall|a: int, b: int| 0 <= a < w && 0 <= b < h implies cell_narrowed(
        cell_at(g0, a, b),
        #[trigger] cell_at(g1, a, b),
    ) by {
        if a == xi && b == yi {
        } else {
            lemma_cell_narrowed_refl(cell_at(g0, a, b));
        }
    }
    assert forall|a: int, b: int, d: int| #[trigger] cc_arc(g1, t, a, b, d, h) by {
        if in_bounds(w, h, a, b) && 0 <= d < 4 && in_bounds(w, h, step_x(a, d), step_y(b, d))
            && cell_at(g1, a, b).spec_is_collapsed() && cell_at(
            g1,
            step_x(a, d),
            step_y(b, d),
        ).spec_is_collapsed() {
            let ma = step_x(a, d);
            let mb = step_y(b, d);
            lemma_neighbors_distinct(a, b, d, d);
            if a == xi && b == yi {
                // The fixed neighbor constrained this cell before the
                // collapse; symmetry turns that constraint around.
                lemma_step_back(a, b, d);
                let od = opposite(d);
                assert(cell_at(g1, ma, mb) == cell_at(g0, ma, mb));
                let wt = cell_at(g0, ma, mb).collapsed_tile();
                assert(arc_ok(g0, t, ma, mb, od, h));
                let s0 = cell_at(g0, xi, yi).candidates();
                let k = choose|k: int| 0 <= k < s0.len() && s0[k] == u;
                assert(table_allows(t, wt as int, od, s0[k] as int));
                assert(wt < n) by {
                    assert(cell_at(g0, ma, mb).cell_wf(n));
                    assert(cell_at(g0, ma, mb).candidates()[0] == wt);
                }
                assert(table_allows(t, u as int, opposite(od), wt as int));
                assert(opposite(od) == d);
            } else if ma == xi && mb == yi {
                assert(cell_at(g1, a, b) == cell_at(g0, a, b));
                assert(arc_ok(g0, t, a, b, d, h));
                let s0 = cell_at(g0, xi, yi).candidates();
                let k = choose|k: int| 0 <= k < s0.len() && s0[k] == u;
                assert(table_allows(t, cell_at(g0, a, b).collapsed_tile() as int, d, s0[k] as int));
                assert(cell_at(g1, ma, mb).collapsed_tile() == u);
            } else {
                assert(cell_at(g1, a, b) == cell_at(g0, a, b));
                assert(cell_at(g1, ma, mb) == cell_at(g0, ma, mb));
                assert(arc_ok(g0, t, a, b, d, h));
                assert(cell_at(g0, ma, mb).candidates()[0] == cell_at(g0, ma, mb).collapsed_tile());
            }
        }
    }
    assert forall|a: int, b: int, d: int|
        (in_bounds(w, h, a, b) && !seq![(x, y)].contains(
            ((a as usize), (b as usize)),
        )) implies #[trigger] arc_ok(g1, t, a, b, d, h) by {
        if 0 <= d < 4 && in_bounds(w, h, step_x(a, d), step_y(b, d)) && cell_at(
            g1,
            a,
            b,
        ).spec_is_collapsed() {
            assert(!(a == xi && b == yi)) by {
                if a == xi && b == yi {
                    assert(seq![(x, y)][0] == (x, y));
                }
            }
            assert(cell_at(g1, a, b) == cell_at(g0, a, b));
            let ma = step_x(a, d);
            let mb = step_y(b, d);
            assert(arc_ok(g0, t, a, b, d, h));
            let tile = cell_at(g1, a, b).collapsed_tile();
            let nb1 = cell_at(g1, ma, mb);
            assert forall|k: int| 0 <= k < nb1.candidates().len() implies table_allows(
                t,
                tile as int,
                d,
                (#[trigger] nb1.candidates()[k]) as int,
            ) by {
                if ma == xi && mb == yi {
                    assert(nb1.candidates()[k] == u);
                    let s0 = cell_at(g0, xi, yi).candidates();
                    let m = choose|m: int| 0 <= m < s0.len() && s0[m] == u;
                    assert(table_allows(t, tile as int, d, s0[m] as int));
                } else {
                    assert(nb1 == cell_at(g0, ma, mb));
                }
            }
        }
    }
}

/// What holds after one neighbor's candidate set is replaced by a
/// subset: well-formedness, narrowing and every carried arc survive.
proof fn lemma_wave_shrink(
    gprev: Seq<Vec<State>>,
    gcur: Seq<Vec<State>>,
    t: Seq<Vec<Vec<usize>>>,
    n: int,
    h: int,
    q_esc: Seq<(usize, usize)>,
    nx: usize,
    ny: usize,
    kept: Vec<usize>,
)
    requires
        grid_wf(gprev, h, n),
        cc_ok(gprev, t, h),
        pending_arcs_ok(gprev, t, q_esc, h),
        in_bounds(gprev.len() as int, h, nx as int, ny as int),
        !cell_at(gprev, nx as int, ny as int).spec_is_collapsed(),
        kept@.len() <= cell_at(gprev, nx as int, ny as int).candidates().len(),
        forall|k: int|
            0 <= k < kept@.len() ==> cell_at(gprev, nx as int, ny as int).candidates().contains(
                #[trigger] kept@[k],
            ),
        gcur.len() == gprev.len(),
        forall|a: int| 0 <= a < gprev.len() && a != nx ==> gcur[a] == gprev[a],
        gcur[nx as int]@ == gprev[nx as int]@.update(ny as int, State::Wave(kept)),
    ensures
        grid_wf(gcur, h, n),
        same_collapsed(gprev, gcur, h),
        grid_narrowed(gprev, gcur, h),
        cc_ok(gcur, t, h),
        pending_arcs_ok(gcur, t, q_esc, h),
{
    let xi = nx as int;
    let yi = ny as int;
    let w = gprev.len() as int;
    assert(cell_at(gcur, xi, yi) == State::Wave(kept));
    assert forall|a: int, b: int|
        0 <= a < w && 0 <= b < h && !(a == xi && b == yi) implies cell_at(gcur, a, b) == cell_at(
        gprev,
        a,
        b,
    ) by {}
    assert forall|a: int, b: int| 0 <= a < w && 0 <= b < h implies (#[trigger] cell_at(
        gcur,
        a,
        b,
    )).cell_wf(n) by {
        if a == xi && b == yi {
            let c1 = cell_at(gcur, a, b);
            let c0 = cell_at(gprev, a, b);
            assert forall|k: int| 0 <= k < c1.candidates().len() implies (
            #[trigger] c1.candidates()[k]) < n by {
                assert(c0.candidates().contains(kept@[k]));
                let m = choose|m: int|
                    0 <= m < c0.candidates().len() && c0.candidates()[m] == kept@[k];
                assert(c0.cell_wf(n));
            }
        } else {
            assert(cell_at(gcur, a, b) == cell_at(gprev, a, b));
        }
    }
    assert forall|a: int, b: int| 0 <= a < w && 0 <= b < h implies cell_narrowed(
        cell_at(gprev, a, b),
        #[trigger] cell_at(gcur, a, b),
    ) by {
        if a == xi && b == yi {
        } else {
            lemma_cell_narrowed_refl(cell_at(gprev, a, b));
        }
    }
    lemma_cc_preserved(gprev, gcur, t, h);
    assert forall|a: int, b: int, d: int|
        (in_bounds(w, h, a, b) && !q_esc.contains(((a as usize), (b as usize)))) implies (
    #[trigger] arc_ok(gcur, t, a, b, d, h)) by {
        if 0 <= d < 4 && in_bounds(w, h, step_x(a, d), step_y(b, d)) && cell_at(
            gcur,
            a,
            b,
        ).spec_is_collapsed() {
            assert(!(a == xi && b == yi));
            assert(cell_at(gcur, a, b) == cell_at(gprev, a, b));
            assert(arc_ok(gprev, t, a, b, d, h));
            let ma = step_x(a, d);
            let mb = step_y(b, d);
            let tile = cell_at(gcur, a, b).collapsed_tile();
            let nb1 = cell_at(gcur, ma, mb);
            assert forall|k: int| 0 <= k < nb1.candidates().len() implies table_allows(
                t,
                tile as int,
                d,
                (#[trigger] nb1.candidates()[k]) as int,
            ) by {
                if ma == xi && mb == yi {
                    let s0 = cell_at(gprev, xi, yi).candidates();
                    assert(nb1.candidates() == kept@);
                    assert(s0.contains(kept@[k]));
                    let m = choose|m: int| 0 <= m < s0.len() && s0[m] == kept@[k];
                    assert(table_allows(t, tile as int, d, s0[m] as int));
                } else {
                    assert(nb1 == cell_at(gprev, ma, mb));
                }
            }
        }
    }
}

/// Collapsed-status preservation composes.
proof fn lemma_same_collapsed_trans(
    g0: Seq<Vec<State>>,
    g1: Seq<Vec<State>>,
    g2: Seq<Vec<State>>,
    h: int,
)
    requires
        same_collapsed(g0, g1, h),
        same_collapsed(g1, g2, h),
    ensures
        same_collapsed(g0, g2, h),
{
}

/// The measure change when one cell is replaced.
proof fn lemma_grid_count_cell_update(
    g0: Seq<Vec<State>>,
    g1: Seq<Vec<State>>,
    x: int,
    y: int,
    s: State,
)
    requires
        0 <= x < g0.len(),
        0 <= y < g0[x]@.len(),
        g1.len() == g0.len(),
        g1[x]@ == g0[x]@.update(y, s),
        forall|a: int| 0 <= a < g0.len() && a != x ==> g1[a] == g0[a],
    ensures
        grid_count(g1) + cand_count(cell_at(g0, x, y)) == grid_count(g0) + cand_count(s),
{
    let gmid = g0.update(x, g1[x]);
    assert(gmid =~= g1);
    lemma_grid_count_update(g0, x, g1[x]);
    lemma_row_count_update(g0[x]@, y, s);
}

/// A freshly reset grid: every cell undetermined with the full
/// candidate set `{0, ..., n-1}`.
pub open spec fn grid_full(g: Seq<Vec<State>>, w: int, h: int, n: int) -> bool {
    &&& g.len() == w
    &&& forall|x: int| 0 <= x < w ==> (#[trigger] g[x])@.len() == h
    &&& forall|x: int, y: int|
        0 <= x < w && 0 <= y < h ==> {
            let c = #[trigger] cell_at(g, x, y);
            &&& !c.spec_is_collapsed()
            &&& c.candidates().len() == n
            &&& forall|k: int| 0 <= k < n ==> (#[trigger] c.candidates()[k]) == k
        }
}

/// A fresh grid satisfies the arc invariant vacuously: no cell is
/// fixed yet.
pub proof fn lemma_full_grid_ok(g: Seq<Vec<State>>, t: Seq<Vec<Vec<usize>>>, w: int, h: int, n: int)
    requires
        grid_full(g, w, h, n),
    ensures
        grid_wf(g, h, n),
        arcs_ok(g, t, h),
{
    assert forall|x: int, y: int| 0 <= x < g.len() && 0 <= y < h implies (#[trigger] cell_at(
        g,
        x,
        y,
    )).cell_wf(n) by {
        let c = cell_at(g, x, y);
        assert forall|k: int| 0 <= k < c.candidates().len() implies (#[trigger] c.candidates()[k])
            < n by {
            assert(c.candidates()[k] == k);
        }
    }
    assert forall|x: int, y: int, d: int| #[trigger] arc_ok(g, t, x, y, d, h) by {
        if in_bounds(g.len() as int, h, x, y) {
            assert(!cell_at(g, x, y).spec_is_collapsed());
        }
    }
}

/// The vector `[0, 1, ..., n-1]` of all tile ids.
pub fn all_tiles(n: usize) -> (r: Vec<usize>)
    ensures
        r@.len() == n,
        forall|k: int| 0 <= k < n ==> (#[trigger] r@[k]) == k,
{
    let mut out: Vec<usize> = Vec::new();
    let mut i: usize = 0;
    while i < n
        invariant
            i <= n,
            out@.len() == i,
            forall|k: int| 0 <= k < i ==> (#[trigger] out@[k]) == k,
        decreases n - i,
    {
        out.push(i);
        i = i + 1;
    }
    out
}

/// A `width` by `height` grid with every cell undetermined and holding
/// the full candidate set for `num_tiles` tiles.
pub fn fresh_grid(num_tiles: usize, width: usize, height: usize) -> (g: Vec<Vec<State>>)
    ensures
        grid_full(g@, width as int, height as int, num_tiles as int),
{
    let tiles = all_tiles(num_tiles);
    let mut g: Vec<Vec<State>> = Vec::new();
    let mut x: usize = 0;
    while x < width
        invariant
            x <= width,
            g@.len() == x,
            tiles@.len() == num_tiles,
            forall|k: int| 0 <= k < num_tiles ==> (#[trigger] tiles@[k]) == k,
            forall|a: int| 0 <= a < x ==> (#[trigger] g@[a])@.len() == height,
            forall|a: int, b: int|
                0 <= a < x && 0 <= b < height ==> {
                    let c = #[trigger] cell_at(g@, a, b);
                    &&& !c.spec_is_collapsed()
                    &&& c.candidates().len() == num_tiles
                    &&& forall|k: int| 0 <= k < num_tiles ==> (#[trigger] c.candidates()[k]) == k
                },
        decreases width - x,
    {
        let mut row: Vec<State> = Vec::new();
        let mut y: usize = 0;
        while y < height
            invariant
                y <= height,
                row@.len() == y,
                tiles@.len() == num_tiles,
                forall|k: int| 0 <= k < num_tiles ==> (#[trigger] tiles@[k]) == k,
                forall|b: int|
                    0 <= b < y ==> {
                        let c = #[trigger] row@[b];
                        &&& !c.spec_is_collapsed()
                        &&& c.candidates().len() == num_tiles
                        &&& forall|k: int|
                            0 <= k < num_tiles ==> (#[trigger] c.candidates()[k]) == k
                    },
            decreases height - y,
        {
            row.push(State::Wave(copy_tiles(&tiles)));
            y = y + 1;
        }
        let ghost gpre = g@;
        g.push(row);
        proof {
            assert forall|a: int, b: int| 0 <= a < x + 1 && 0 <= b < height implies {
                let c = #[trigger] cell_at(g@, a, b);
                &&& !c.spec_is_collapsed()
                &&& c.candidates().len() == num_tiles
                &&& forall|k: int| 0 <= k < num_tiles ==> (#[trigger] c.candidates()[k]) == k
            } by {
                if a < x {
                    assert(cell_at(g@, a, b) == cell_at(gpre, a, b));
                } else {
                    assert(cell_at(g@, a, b) == row@[b]);
                }
            }
        }
        x = x + 1;
    }
    g
}

/// Whether every cell of the grid is fixed, decided by a full scan.
pub fn all_cells_collapsed(grid: &Vec<Vec<State>>, h: usize) -> (r: bool)
    requires
        forall|x: int| 0 <= x < grid@.len() ==> (#[trigger] grid@[x])@.len() == h,
    ensures
        r == all_collapsed_spec(grid@, h as int),
{
    let w = grid.len();
    let mut x: usize = 0;
    while x < w
        invariant
            x <= w,
            w == grid@.len(),
            forall|xx: int| 0 <= xx < grid@.len() ==> (#[trigger] grid@[xx])@.len() == h,
            forall|a: int, b: int|
                0 <= a < x && 0 <= b < h ==> (#[trigger] cell_at(grid@, a, b)).spec_is_collapsed(),
        decreases w - x,
    {
        let mut y: usize = 0;
        while y < h
            invariant
                x < w,
                y <= h,
                w == grid@.len(),
                forall|xx: int| 0 <= xx < grid@.len() ==> (#[trigger] grid@[xx])@.len() == h,
                forall|a: int, b: int|
                    0 <= a < x && 0 <= b < h ==> (#[trigger] cell_at(
                        grid@,
                        a,
                        b,
                    )).spec_is_collapsed(),
                forall|b: int|
                    0 <= b < y ==> (#[trigger] cell_at(grid@, x as int, b)).spec_is_collapsed(),
            decreases h - y,
        {
            if !grid[x][y].is_collapsed() {
                proof {
                    assert(!(#[trigger] cell_at(grid@, x as int, y as int)).spec_is_collapsed());
                }
                return false;
            }
            y = y + 1;
        }
        x = x + 1;
    }
    true
}

/// One full attempt: repeatedly select the most constrained
/// undetermined cell and collapse-and-propagate, until the grid is
/// fully fixed or a contradiction (an emptied candidate set) stops the
/// attempt. Terminates because the total number of open candidates
/// strictly decreases with every collapse.
pub fn run_attempt<R: RandomSource>(
    rel: &WfcRelation,
    grid: &mut Vec<Vec<State>>,
    rng: &mut R,
    h: usize,
)
    requires
        rel.wf(),
        grid_wf(old(grid)@, h as int, rel.num_tiles()),
        arcs_ok(old(grid)@, rel.possible_neighbors@, h as int),
    ensures
        final(grid)@.len() == old(grid)@.len(),
        grid_wf(final(grid)@, h as int, rel.num_tiles()),
        arcs_ok(final(grid)@, rel.possible_neighbors@, h as int),
        grid_narrowed(old(grid)@, final(grid)@, h as int),
        all_collapsed_spec(final(grid)@, h as int) || has_empty_wave(final(grid)@, h as int),
        single_tile_table(rel.possible_neighbors@, rel.num_tiles()) && !has_empty_wave(
            old(grid)@,
            h as int,
        ) ==> all_collapsed_spec(final(grid)@, h as int),
{
    proof {
        assert forall|a: int, b: int|
            0 <= a < old(grid)@.len() && 0 <= b < h implies cell_narrowed(
            cell_at(old(grid)@, a, b),
            #[trigger] cell_at(old(grid)@, a, b),
        ) by {
            lemma_cell_narrowed_refl(cell_at(old(grid)@, a, b));
        }
    }
    loop
        invariant
            rel.wf(),
            grid@.len() == old(grid)@.len(),
            grid_wf(grid@, h as int, rel.num_tiles()),
            arcs_ok(grid@, rel.possible_neighbors@, h as int),
            grid_narrowed(old(grid)@, grid@, h as int),
            single_tile_table(rel.possible_neighbors@, rel.num_tiles()) && !has_empty_wave(
                old(grid)@,
                h as int,
            ) ==> !has_empty_wave(grid@, h as int),
        ensures
            all_collapsed_spec(grid@, h as int) || has_empty_wave(grid@, h as int),
        decreases grid_count(grid@),
    {
        if all_cells_collapsed(grid, h) {
            break;
        }
        let ghost gpre = grid@;
        match pick_cell(grid, rng, h) {
            Some(p) => {
                collapse_and_propagate(rel, grid, rng, h, p.0, p.1);
                proof {
                    lemma_grid_narrowed_trans(old(grid)@, gpre, grid@, h as int);
                }
            },
            None => {
                proof {
                    // Not every cell is fixed, so some cell is still
                    // undetermined; selection failed, so one of them
                    // must be out of candidates.
                    let (a, b) = choose|a: int, b: int|
                        0 <= a < grid@.len() && 0 <= b < h && !(#[trigger] cell_at(
                            grid@,
                            a,
                            b,
                        )).spec_is_collapsed();
                    assert(has_wave(grid@, h as int));
                }
                break;
            },
        }
    }
}

/// The tile a complete assignment places at `(x, y)`.
pub open spec fn asn_at(asn: Seq<Seq<usize>>, x: int, y: int) -> usize {
    asn[x][y]
}

/// A complete tile assignment of the whole grid that satisfies every
/// adjacency constraint of the table.
pub open spec fn assignment_ok(
    asn: Seq<Seq<usize>>,
    t: Seq<Vec<Vec<usize>>>,
    w: int,
    h: int,
    n: int,
) -> bool {
    &&& asn.len() == w
    &&& forall|x: int| 0 <= x < w ==> (#[trigger] asn[x]).len() == h
    &&& forall|x: int, y: int| 0 <= x < w && 0 <= y < h ==> (#[trigger] asn_at(asn, x, y)) < n
    &&& forall|x: int, y: int, d: int|
        #![trigger asn_at(asn, x, y), step_x(x, d)]
        in_bounds(w, h, x, y) && 0 <= d < 4 && in_bounds(w, h, step_x(x, d), step_y(y, d))
            ==> table_allows(
            t,
            asn_at(asn, x, y) as int,
            d,
            asn_at(asn, step_x(x, d), step_y(y, d)) as int,
        )
}

/// Whether the grid still admits the assignment: every cell keeps the
/// assigned tile among its candidates.
pub open spec fn grid_admits(g: Seq<Vec<State>>, asn: Seq<Seq<usize>>, h: int) -> bool {
    forall|x: int, y: int|
        0 <= x < g.len() && 0 <= y < h ==> (#[trigger] cell_at(g, x, y)).candidates().contains(
            asn_at(asn, x, y),
        )
}

/// A table for exactly one tile that permits the tile next to itself
/// in every direction: the one configuration in which generation is
/// owed success whatever the random source draws.
pub open spec fn single_tile_table(t: Seq<Vec<Vec<usize>>>, n: int) -> bool {
    n == 1 && forall|d: int| 0 <= d < 4 ==> table_allows(t, 0, d, 0)
}

/// Whether some cell is still undetermined.
pub open spec fn has_wave(g: Seq<Vec<State>>, h: int) -> bool {
    exists|x: int, y: int|
        0 <= x < g.len() && 0 <= y < h && !(#[trigger] cell_at(g, x, y)).spec_is_collapsed()
}

/// Whether some undetermined cell has run out of candidates: the
/// contradiction that dooms the attempt.
pub open spec fn has_empty_wave(g: Seq<Vec<State>>, h: int) -> bool {
    exists|x: int, y: int|
        0 <= x < g.len() && 0 <= y < h && !(#[trigger] cell_at(g, x, y)).spec_is_collapsed()
            && cell_at(g, x, y).candidates().len() == 0
}

/// Whether `(a, b)` comes before `(x, y)` in the row-major scan.
spec fn scanned_before(a: int, b: int, x: int, y: int, h: int) -> bool {
    0 <= a && 0 <= b < h && (a < x || (a == x && b < y))
}

/// Picks the grid cell to fix next: an undetermined cell with the
/// fewest candidates, chosen uniformly at random among the ties.
///
/// Returns nothing when the grid holds no undetermined cell, or when
/// some undetermined cell has an empty candidate set — the latter is a
/// contradiction and the whole attempt has failed.
pub fn pick_cell<R: RandomSource>(grid: &Vec<Vec<State>>, rng: &mut R, h: usize) -> (r: Option<
    (usize, usize),
>)
    requires
        forall|x: int| 0 <= x < grid@.len() ==> (#[trigger] grid@[x])@.len() == h,
    ensures
        r is Some <==> (has_wave(grid@, h as int) && !has_empty_wave(grid@, h as int)),
        r matches Some(p) ==> {
            &&& p.0 < grid@.len()
            &&& p.1 < h
            &&& !cell_at(grid@, p.0 as int, p.1 as int).spec_is_collapsed()
            &&& cell_at(grid@, p.0 as int, p.1 as int).candidates().len() > 0
            &&& forall|a: int, b: int|
                0 <= a < grid@.len() && 0 <= b < h && !(#[trigger] cell_at(
                    grid@,
                    a,
                    b,
                )).spec_is_collapsed() ==> cell_at(grid@, a, b).candidates().len() >= cell_at(
                    grid@,
                    p.0 as int,
                    p.1 as int,
                ).candidates().len()
        },
{
    let w = grid.len();
    let mut found = false;
    let mut min: usize = 0;
    let mut x: usize = 0;
    while x < w
        invariant
            x <= w,
            w == grid@.len(),
            forall|xx: int| 0 <= xx < grid@.len() ==> (#[trigger] grid@[xx])@.len() == h,
            !found ==> forall|a: int, b: int|
                scanned_before(a, b, x as int, 0, h as int) && a < w ==> (#[trigger] cell_at(
                    grid@,
                    a,
                    b,
                )).spec_is_collapsed(),
            found ==> exists|a: int, b: int|
                scanned_before(a, b, x as int, 0, h as int) && a < w && !(#[trigger] cell_at(
                    grid@,
                    a,
                    b,
                )).spec_is_collapsed() && cell_at(grid@, a, b).candidates().len() == min,
            forall|a: int, b: int|
                scanned_before(a, b, x as int, 0, h as int) && a < w && !(#[trigger] cell_at(
                    grid@,
                    a,
                    b,
                )).spec_is_collapsed() ==> (found && min <= cell_at(grid@, a, b).candidates().len()
                    && cell_at(grid@, a, b).candidates().len() > 0),
        decreases w - x,
    {
        let mut y: usize = 0;
        while y < h
            invariant
                x < w,
                y <= h,
                w == grid@.len(),
                forall|xx: int| 0 <= xx < grid@.len() ==> (#[trigger] grid@[xx])@.len() == h,
                !found ==> forall|a: int, b: int|
                    scanned_before(a, b, x as int, y as int, h as int) && a < w ==> (
                    #[trigger] cell_at(grid@, a, b)).spec_is_collapsed(),
                found ==> exists|a: int, b: int|
                    scanned_before(a, b, x as int, y as int, h as int) && a < w && !(
                    #[trigger] cell_at(grid@, a, b)).spec_is_collapsed() && cell_at(
                        grid@,
                        a,
                        b,
                    ).candidates().len() == min,
                forall|a: int, b: int|
                    scanned_before(a, b, x as int, y as int, h as int) && a < w && !(
                    #[trigger] cell_at(grid@, a, b)).spec_is_collapsed() ==> (found && min
                        <= cell_at(grid@, a, b).candidates().len() && cell_at(
                        grid@,
                        a,
                        b,
                    ).candidates().len() > 0),
            decreases h - y,
        {
            if !grid[x][y].is_collapsed() {
                let len = match &grid[x][y] {
                    State::Wave(v) => v.len(),
                    State::Collapsed(_) => 0,
                };
                proof {
                    assert(len == cell_at(grid@, x as int, y as int).candidates().len());
                }
                if len == 0 {
                    return None;
                }
                if !found || len < min {
                    found = true;
                    min = len;
                }
            }
            y = y + 1;
        }
        x = x + 1;
    }

    if !found {
        return None;
    }

    let mut options: Vec<(usize, usize)> = Vec::new();
    let mut x: usize = 0;
    while x < w
        invariant
            x <= w,
            w == grid@.len(),
            forall|xx: int| 0 <= xx < grid@.len() ==> (#[trigger] grid@[xx])@.len() == h,
            forall|k: int|
                0 <= k < options@.len() ==> {
                    let p = #[trigger] options@[k];
                    &&& p.0 < w
                    &&& p.1 < h
                    &&& !cell_at(grid@, p.0 as int, p.1 as int).spec_is_collapsed()
                    &&& cell_at(grid@, p.0 as int, p.1 as int).candidates().len() == min
                },
            forall|a: int, b: int|
                scanned_before(a, b, x as int, 0, h as int) && a < w && !(#[trigger] cell_at(
                    grid@,
                    a,
                    b,
                )).spec_is_collapsed() && cell_at(grid@, a, b).candidates().len() == min
                    ==> options@.contains(((a as usize), (b as usize))),
        decreases w - x,
    {
        let mut y: usize = 0;
        while y < h
            invariant
                x < w,
                y <= h,
                w == grid@.len(),
                forall|xx: int| 0 <= xx < grid@.len() ==> (#[trigger] grid@[xx])@.len() == h,
                forall|k: int|
                    0 <= k < options@.len() ==> {
                        let p = #[trigger] options@[k];
                        &&& p.0 < w
                        &&& p.1 < h
                        &&& !cell_at(grid@, p.0 as int, p.1 as int).spec_is_collapsed()
                        &&& cell_at(grid@, p.0 as int, p.1 as int).candidates().len() == min
                    },
                forall|a: int, b: int|
                    scanned_before(a, b, x as int, y as int, h as int) && a < w && !(
                    #[trigger] cell_at(grid@, a, b)).spec_is_collapsed() && cell_at(
                        grid@,
                        a,
                        b,
                    ).candidates().len() == min ==> options@.contains(((a as usize), (b as usize))),
            decreases h - y,
        {
            if !grid[x][y].is_collapsed() {
                let len = match &grid[x][y] {
                    State::Wave(v) => v.len(),
                    State::Collapsed(_) => 0,
                };
                if len == min {
                    let ghost opts0 = options@;
                    options.push((x, y));
                    proof {
                        assert forall|a: int, b: int|
                            scanned_before(a, b, x as int, y as int + 1, h as int) && a < w && !(
                            #[trigger] cell_at(grid@, a, b)).spec_is_collapsed() && cell_at(
                                grid@,
                                a,
                                b,
                            ).candidates().len() == min implies options@.contains(
                            ((a as usize), (b as usize)),
                        ) by {
                            if a == x && b == y {
                                assert(options@[opts0.len() as int] == ((a as usize), (
                                b as usize)));
                            } else {
                                let ki = choose|ki: int|
                                    0 <= ki < opts0.len() && opts0[ki] == ((a as usize), (
                                    b as usize));
                                assert(options@[ki] == ((a as usize), (b as usize)));
                            }
                        }
                    }
                }
            }
            y = y + 1;
        }
        x = x + 1;
    }

    proof {
        let (wa, wb) = choose|a: int, b: int|
            scanned_before(a, b, w as int, 0, h as int) && a < w && !(#[trigger] cell_at(
                grid@,
                a,
                b,
            )).spec_is_collapsed() && cell_at(grid@, a, b).candidates().len() == min;
        assert(options@.contains(((wa as usize), (wb as usize))));
    }
    let idx = rng.sample(options.len());
    let p = options[idx];
    Some(p)
}

/// Fixes the undetermined cell at `(x, y)` to one of its candidates,
/// chosen uniformly at random, then removes newly invalidated
/// candidates from neighboring cells, recursively, via a worklist.
///
/// Candidate sets only ever shrink, no other cell changes its
/// collapsed status, the arc invariant is restored, and the total
/// number of open candidates strictly decreases. A neighbor driven to
/// an empty candidate set is left for the next selection pass to
/// detect; propagation itself never aborts early.
pub fn collapse_and_propagate<R: RandomSource>(
    rel: &WfcRelation,
    grid: &mut Vec<Vec<State>>,
    rng: &mut R,
    h: usize,
    x: usize,
    y: usize,
)
    requires
        rel.wf(),
        grid_wf(old(grid)@, h as int, rel.num_tiles()),
        arcs_ok(old(grid)@, rel.possible_neighbors@, h as int),
        x < old(grid)@.len(),
        y < h,
        !cell_at(old(grid)@, x as int, y as int).spec_is_collapsed(),
        cell_at(old(grid)@, x as int, y as int).candidates().len() > 0,
    ensures
        final(grid)@.len() == old(grid)@.len(),
        grid_wf(final(grid)@, h as int, rel.num_tiles()),
        arcs_ok(final(grid)@, rel.possible_neighbors@, h as int),
        grid_narrowed(old(grid)@, final(grid)@, h as int),
        cell_at(final(grid)@, x as int, y as int).spec_is_collapsed(),
        forall|a: int, b: int|
            0 <= a < old(grid)@.len() && 0 <= b < h && !(a == x && b == y) ==> (
            #[trigger] cell_at(final(grid)@, a, b)).spec_is_collapsed() == cell_at(
                old(grid)@,
                a,
                b,
            ).spec_is_collapsed(),
        grid_count(final(grid)@) < grid_count(old(grid)@),
        single_tile_table(rel.possible_neighbors@, rel.num_tiles()) && !has_empty_wave(
            old(grid)@,
            h as int,
        ) ==> !has_empty_wave(final(grid)@, h as int),
        // Propagation is sound: no candidate is removed that could
        // still complete a consistent assignment agreeing with the
        // tile just fixed.
        forall|asn: Seq<Seq<usize>>|
            assignment_ok(
                asn,
                rel.possible_neighbors@,
                old(grid)@.len() as int,
                h as int,
                rel.num_tiles(),
            ) && #[trigger] grid_admits(old(grid)@, asn, h as int) && asn_at(asn, x as int, y as int)
                == cell_at(final(grid)@, x as int, y as int).collapsed_tile() ==> grid_admits(
                final(grid)@,
                asn,
                h as int,
            ),
{
    let w = grid.len();
    let ghost t = rel.possible_neighbors@;
    let ghost n = rel.num_tiles();
    let ghost g0 = grid@;

    grid[x][y].collapse_random(rng);

    let ghost g1 = grid@;
    let ghost u = cell_at(g1, x as int, y as int).collapsed_tile();
    proof {
        assert(cell_at(g1, x as int, y as int) == State::Collapsed(u));
        lemma_after_collapse(g0, g1, t, n, h as int, x, y, u);
        lemma_grid_count_cell_update(g0, g1, x as int, y as int, State::Collapsed(u));
        if !has_empty_wave(g0, h as int) {
            assert(!has_empty_wave(g1, h as int)) by {
                if has_empty_wave(g1, h as int) {
                    let (a, b) = choose|a: int, b: int|
                        0 <= a < g1.len() && 0 <= b < h && !(#[trigger] cell_at(
                            g1,
                            a,
                            b,
                        )).spec_is_collapsed() && cell_at(g1, a, b).candidates().len() == 0;
                    assert(cell_at(g1, a, b) == cell_at(g0, a, b));
                    assert(has_empty_wave(g0, h as int));
                }
            }
        }
    }

    let mut q: Vec<(usize, usize)> = Vec::new();
    q.push((x, y));
    proof {
        assert(q@ =~= seq![(x, y)]);
        assert forall|a: int, b: int| 0 <= a < g1.len() && 0 <= b < h implies cell_narrowed(
            cell_at(g1, a, b),
            #[trigger] cell_at(g1, a, b),
        ) by {
            lemma_cell_narrowed_refl(cell_at(g1, a, b));
        }
    }

    while q.len() > 0
        invariant
            rel.wf(),
            t == rel.possible_neighbors@,
            n == rel.num_tiles(),
            grid@.len() == g1.len(),
            w == g1.len(),
            grid_wf(grid@, h as int, n),
            same_collapsed(g1, grid@, h as int),
            grid_narrowed(g1, grid@, h as int),
            cc_ok(grid@, t, h as int),
            pending_arcs_ok(grid@, t, q@, h as int),
            forall|k: int|
                0 <= k < q@.len() ==> ((#[trigger] q@[k]).0 < w && q@[k].1 < h),
            2 * grid_count(grid@) + q@.len() <= 2 * grid_count(g1) + 1,
            single_tile_table(t, n) && !has_empty_wave(g1, h as int) ==> !has_empty_wave(
                grid@,
                h as int,
            ),
            forall|asn: Seq<Seq<usize>>|
                assignment_ok(asn, t, w as int, h as int, n) && #[trigger] grid_admits(
                    g1,
                    asn,
                    h as int,
                ) ==> grid_admits(grid@, asn, h as int),
        decreases 2 * grid_count(grid@) + q@.len(),
    {
        let ghost q_before = q@;
        let popped = q.pop();
        let (cx, cy) = match popped {
            Some(p) => p,
            None => {
                proof {
                    assert(false);
                }
                (0, 0)
            },
        };
        let ghost g_pop = grid@;
        let ghost q_pop = q@;
        proof {
            assert(q_pop.push((cx, cy)) =~= q_before);
        }

        let src_vals = grid[cx][cy].values();
        proof {
            assert(cell_at(grid@, cx as int, cy as int).cell_wf(n));
        }

        let mut d: usize = 0;
        while d < 4
            invariant
                d <= 4,
                rel.wf(),
                t == rel.possible_neighbors@,
                n == rel.num_tiles(),
                grid@.len() == g1.len(),
                w == g1.len(),
                cx < w,
                cy < h,
                grid_wf(grid@, h as int, n),
                same_collapsed(g1, grid@, h as int),
                grid_narrowed(g1, grid@, h as int),
                cc_ok(grid@, t, h as int),
                pending_arcs_ok(grid@, t, q@.push((cx, cy)), h as int),
                cell_at(grid@, cx as int, cy as int).candidates() == src_vals@,
                forall|k: int| 0 <= k < src_vals@.len() ==> (#[trigger] src_vals@[k]) < n,
                forall|dd: int|
                    0 <= dd < d ==> arc_ok(grid@, t, cx as int, cy as int, dd, h as int),
                forall|k: int|
                    0 <= k < q@.len() ==> ((#[trigger] q@[k]).0 < w && q@[k].1 < h),
                2 * grid_count(grid@) + q@.len() <= 2 * grid_count(g_pop) + q_pop.len(),
                single_tile_table(t, n) && !has_empty_wave(g1, h as int) ==> !has_empty_wave(
                    grid@,
                    h as int,
                ),
                forall|asn: Seq<Seq<usize>>|
                    assignment_ok(asn, t, w as int, h as int, n) && #[trigger] grid_admits(
                        g1,
                        asn,
                        h as int,
                    ) ==> grid_admits(grid@, asn, h as int),
            decreases 4 - d,
        {
            let nbo = neighbor_coord(cx, cy, d, w, h);
            match nbo {
                None => {
                    proof {
                        assert(arc_ok(grid@, t, cx as int, cy as int, d as int, h as int));
                    }
                },
                Some(p) => {
                    let nx = p.0;
                    let ny = p.1;
                    if grid[nx][ny].is_collapsed() {
                        proof {
                            let cxi = cx as int;
                            let cyi = cy as int;
                            let nb = cell_at(grid@, step_x(cxi, d as int), step_y(cyi, d as int));
                            if cell_at(grid@, cxi, cyi).spec_is_collapsed() {
                                assert(cc_arc(grid@, t, cxi, cyi, d as int, h as int));
                                assert(nb.candidates() =~= seq![nb.collapsed_tile()]);
                            }
                            assert(arc_ok(grid@, t, cxi, cyi, d as int, h as int));
                        }
                    } else {
                        let mut allowed: Vec<usize> = Vec::new();
                        let mut vi: usize = 0;
                        while vi < src_vals.len()
                            invariant
                                vi <= src_vals@.len(),
                                d < 4,
                                rel.wf(),
                                t == rel.possible_neighbors@,
                                n == rel.num_tiles(),
                                forall|k: int|
                                    0 <= k < src_vals@.len() ==> (#[trigger] src_vals@[k]) < n,
                                forall|k: int|
                                    0 <= k < allowed@.len() ==> exists|kk: int|
                                        0 <= kk < src_vals@.len() && table_allows(
                                            t,
                                            src_vals@[kk] as int,
                                            d as int,
                                            (#[trigger] allowed@[k]) as int,
                                        ),
                                forall|kk: int, mi: int|
                                    0 <= kk < vi && 0 <= mi < crate::relation::entry_at(
                                        t,
                                        src_vals@[kk] as int,
                                        d as int,
                                    ).len() ==> allowed@.contains(
                                        #[trigger] crate::relation::entry_at(
                                            t,
                                            src_vals@[kk] as int,
                                            d as int,
                                        )[mi],
                                    ),
                            decreases src_vals@.len() - vi,
                        {
                            let v = src_vals[vi];
                            let entry = &rel.possible_neighbors[v][d];
                            let mut li: usize = 0;
                            while li < entry.len()
                                invariant
                                    li <= entry@.len(),
                                    d < 4,
                                    vi < src_vals@.len(),
                                    v == src_vals@[vi as int],
                                    t == rel.possible_neighbors@,
                                    entry@ == crate::relation::entry_at(t, v as int, d as int),
                                    forall|k: int|
                                        0 <= k < allowed@.len() ==> exists|kk: int|
                                            0 <= kk < src_vals@.len() && table_allows(
                                                t,
                                                src_vals@[kk] as int,
                                                d as int,
                                                (#[trigger] allowed@[k]) as int,
                                            ),
                                    forall|kk: int, mi: int|
                                        0 <= kk < vi && 0 <= mi < crate::relation::entry_at(
                                            t,
                                            src_vals@[kk] as int,
                                            d as int,
                                        ).len() ==> allowed@.contains(
                                            #[trigger] crate::relation::entry_at(
                                                t,
                                                src_vals@[kk] as int,
                                                d as int,
                                            )[mi],
                                        ),
                                    forall|mi: int|
                                        0 <= mi < li ==> allowed@.contains(
                                            #[trigger] crate::relation::entry_at(
                                                t,
                                                v as int,
                                                d as int,
                                            )[mi],
                                        ),
                                decreases entry@.len() - li,
                            {
                                let tile2 = entry[li];
                                let ghost a_pre = allowed@;
                                allowed.push(tile2);
                                proof {
                                    assert(crate::relation::entry_at(t, v as int, d as int)[li as int]
                                        == tile2);
                                    assert(table_allows(t, v as int, d as int, tile2 as int));
                                    assert forall|e: usize| a_pre.contains(e) implies allowed@.contains(
                                        e,
                                    ) by {
                                        let ki = choose|ki: int|
                                            0 <= ki < a_pre.len() && a_pre[ki] == e;
                                        assert(allowed@[ki] == e);
                                    }
                                    assert(allowed@[a_pre.len() as int] == tile2);
                                    assert(allowed@.contains(tile2));
                                    assert forall|k: int| 0 <= k < allowed@.len() implies exists|
                                        kk: int,
                                    |
                                        0 <= kk < src_vals@.len() && table_allows(
                                            t,
                                            src_vals@[kk] as int,
                                            d as int,
                                            (#[trigger] allowed@[k]) as int,
                                        ) by {
                                        if k < a_pre.len() {
                                            assert(allowed@[k] == a_pre[k]);
                                        } else {
                                            assert(allowed@[k] == tile2);
                                            assert(0 <= vi < src_vals@.len() && table_allows(
                                                t,
                                                src_vals@[vi as int] as int,
                                                d as int,
                                                allowed@[k] as int,
                                            ));
                                        }
                                    }
                                }
                                li = li + 1;
                            }
                            vi = vi + 1;
                        }

                        let old_vals = grid[nx][ny].values();
                        let kept = filter_tiles(&old_vals, &allowed);
                        let shrunk = kept.len() < old_vals.len();
                        let ghost keptv = kept@;
                        let ghost gprev = grid@;
                        let ghost qprev = q@;
                        grid[nx][ny] = State::Wave(kept);
                        if shrunk {
                            q.push((nx, ny));
                        }
                        proof {
                            let cxi = cx as int;
                            let cyi = cy as int;
                            let nxi = nx as int;
                            let nyi = ny as int;
                            let esc = qprev.push((cx, cy));
                            assert(cell_at(grid@, nxi, nyi) == State::Wave(
                                cell_at(grid@, nxi, nyi)->Wave_0,
                            ));
                            assert(cell_at(grid@, nxi, nyi).candidates() == keptv);
                            lemma_wave_shrink(
                                gprev,
                                grid@,
                                t,
                                n,
                                h as int,
                                esc,
                                nx,
                                ny,
                                cell_at(grid@, nxi, nyi)->Wave_0,
                            );
                            // Collapsed-status and narrowing compose with the
                            // steps already taken.
                            lemma_same_collapsed_trans(g1, gprev, grid@, h as int);
                            lemma_grid_narrowed_trans(g1, gprev, grid@, h as int);
                            // The worklist only grew, so every excuse it gave
                            // still stands.
                            assert forall|pp: (usize, usize)| esc.contains(pp) implies q@.push(
                                (cx, cy),
                            ).contains(pp) by {
                                let ki = choose|ki: int| 0 <= ki < esc.len() && esc[ki] == pp;
                                if ki < qprev.len() {
                                    if shrunk {
                                        assert(q@.push((cx, cy))[ki] == pp);
                                    } else {
                                        assert(q@.push((cx, cy))[ki] == pp);
                                    }
                                } else {
                                    assert(q@.push((cx, cy)).last() == pp);
                                }
                            }
                            lemma_pending_mono(grid@, t, esc, q@.push((cx, cy)), h as int);
                            // Arcs of the directions already processed are
                            // untouched: they end in other cells.
                            assert forall|dd: int|
                                0 <= dd < d implies arc_ok(grid@, t, cxi, cyi, dd, h as int) by {
                                lemma_neighbors_distinct(cxi, cyi, d as int, dd);
                                assert(arc_ok(gprev, t, cxi, cyi, dd, h as int));
                                if in_bounds(
                                    grid@.len() as int,
                                    h as int,
                                    step_x(cxi, dd),
                                    step_y(cyi, dd),
                                ) {
                                    assert(cell_at(grid@, cxi, cyi) == cell_at(gprev, cxi, cyi));
                                    assert(cell_at(grid@, step_x(cxi, dd), step_y(cyi, dd))
                                        == cell_at(gprev, step_x(cxi, dd), step_y(cyi, dd)));
                                }
                            }
                            // The arc of this direction is now enforced: every
                            // kept candidate came from the support union.
                            lemma_neighbors_distinct(cxi, cyi, d as int, d as int);
                            assert(cell_at(grid@, cxi, cyi) == cell_at(gprev, cxi, cyi));
                            if cell_at(grid@, cxi, cyi).spec_is_collapsed() {
                                let tile = cell_at(grid@, cxi, cyi).collapsed_tile();
                                assert(src_vals@ =~= seq![tile]);
                                assert forall|k: int| 0 <= k < keptv.len() implies table_allows(
                                    t,
                                    tile as int,
                                    d as int,
                                    (#[trigger] keptv[k]) as int,
                                ) by {
                                    assert(allowed@.contains(keptv[k]));
                                    let ka = choose|ka: int|
                                        0 <= ka < allowed@.len() && allowed@[ka] == keptv[k];
                                    let kk = choose|kk: int|
                                        0 <= kk < src_vals@.len() && table_allows(
                                            t,
                                            src_vals@[kk] as int,
                                            d as int,
                                            allowed@[ka] as int,
                                        );
                                    assert(src_vals@[kk] == tile);
                                }
                            }
                            assert(arc_ok(grid@, t, cxi, cyi, d as int, h as int));
                            // The measure only ever drops, by at least two for
                            // every new worklist entry.
                            lemma_grid_count_cell_update(
                                gprev,
                                grid@,
                                nxi,
                                nyi,
                                cell_at(grid@, nxi, nyi),
                            );
                            assert(cand_count(cell_at(gprev, nxi, nyi)) == old_vals@.len());
                            assert(cand_count(cell_at(grid@, nxi, nyi)) == keptv.len());
                            // No admissible assignment loses its tile: the
                            // assigned source tile supports the assigned
                            // neighbor tile, which therefore survives the
                            // intersection.
                            assert(nxi == step_x(cxi, d as int));
                            assert(nyi == step_y(cyi, d as int));
                            assert forall|asn: Seq<Seq<usize>>|
                                assignment_ok(asn, t, w as int, h as int, n)
                                    && #[trigger] grid_admits(g1, asn, h as int) implies grid_admits(
                                grid@,
                                asn,
                                h as int,
                            ) by {
                                assert(grid_admits(gprev, asn, h as int));
                                let vstar = asn_at(asn, nxi, nyi);
                                let ustar = asn_at(asn, cxi, cyi);
                                assert(table_allows(t, ustar as int, d as int, vstar as int));
                                assert(cell_at(gprev, cxi, cyi).candidates().contains(ustar));
                                let kks = choose|kk: int|
                                    0 <= kk < src_vals@.len() && src_vals@[kk] == ustar;
                                let ke = choose|ke: int|
                                    0 <= ke < crate::relation::entry_at(
                                        t,
                                        ustar as int,
                                        d as int,
                                    ).len() && (#[trigger] crate::relation::entry_at(
                                        t,
                                        ustar as int,
                                        d as int,
                                    )[ke]) as int == vstar as int;
                                assert(crate::relation::entry_at(t, src_vals@[kks] as int, d as int)
                                    == crate::relation::entry_at(t, ustar as int, d as int));
                                assert(allowed@.contains(
                                    crate::relation::entry_at(t, src_vals@[kks] as int, d as int)[ke],
                                ));
                                assert(crate::relation::entry_at(t, ustar as int, d as int)[ke]
                                    == vstar);
                                assert(old_vals@.contains(vstar));
                                assert(keptv.contains(vstar));
                                assert forall|a: int, b: int|
                                    0 <= a < grid@.len() && 0 <= b < h implies (#[trigger] cell_at(
                                    grid@,
                                    a,
                                    b,
                                )).candidates().contains(asn_at(asn, a, b)) by {
                                    if a == nxi && b == nyi {
                                        assert(cell_at(grid@, a, b).candidates() == keptv);
                                    } else {
                                        assert(cell_at(grid@, a, b) == cell_at(gprev, a, b));
                                    }
                                }
                            }
                            // With a single self-compatible tile no set can
                            // empty: tile 0 always survives the intersection.
                            if single_tile_table(t, n) && !has_empty_wave(g1, h as int) {
                                assert(!has_empty_wave(grid@, h as int)) by {
                                    if has_empty_wave(grid@, h as int) {
                                        let (a, b) = choose|a: int, b: int|
                                            0 <= a < grid@.len() && 0 <= b < h && !(
                                            #[trigger] cell_at(grid@, a, b)).spec_is_collapsed()
                                                && cell_at(grid@, a, b).candidates().len() == 0;
                                        if a == nxi && b == nyi {
                                            assert(cell_at(gprev, nxi, nyi).candidates().len() > 0)
                                                by {
                                                if cell_at(gprev, nxi, nyi).candidates().len()
                                                    == 0 {
                                                    assert(has_empty_wave(gprev, h as int));
                                                }
                                            }
                                            assert(cell_at(gprev, nxi, nyi).cell_wf(n));
                                            assert(old_vals@[0] == 0usize) by {
                                                assert(cell_at(
                                                    gprev,
                                                    nxi,
                                                    nyi,
                                                ).candidates()[0] < 1);
                                            }
                                            assert(old_vals@.contains(0usize));
                                            assert(src_vals@.len() > 0) by {
                                                let sc = cell_at(grid@, cxi, cyi);
                                                if sc.spec_is_collapsed() {
                                                    assert(sc.candidates().len() == 1);
                                                } else {
                                                    if sc.candidates().len() == 0 {
                                                        assert(has_empty_wave(gprev, h as int))
                                                            by {
                                                            assert(cell_at(gprev, cxi, cyi)
                                                                == sc);
                                                        }
                                                    }
                                                }
                                            }
                                            assert(src_vals@[0] == 0usize);
                                            assert(src_vals@[0] as int == 0);
                                            assert(crate::relation::entry_at(
                                                t,
                                                src_vals@[0] as int,
                                                d as int,
                                            ) == crate::relation::entry_at(t, 0, d as int));
                                            assert(table_allows(t, 0, d as int, 0));
                                            let ke = choose|ke: int|
                                                0 <= ke < crate::relation::entry_at(
                                                    t,
                                                    0,
                                                    d as int,
                                                ).len() && (#[trigger] crate::relation::entry_at(
                                                    t,
                                                    0,
                                                    d as int,
                                                )[ke]) as int == 0;
                                            assert(allowed@.contains(
                                                crate::relation::entry_at(t, 0, d as int)[ke],
                                            ));
                                            assert(keptv.contains(0usize));
                                        } else {
                                            assert(cell_at(grid@, a, b) == cell_at(gprev, a, b));
                                            assert(has_empty_wave(gprev, h as int));
                                        }
                                    }
                                }
                            }
                        }
                    }
                },
            }
            d = d + 1;
        }

        proof {
            // Every direction of the popped cell is now enforced, so it
            // no longer needs its place on the worklist.
            assert forall|a: int, b: int, dd: int|
                (in_bounds(grid@.len() as int, h as int, a, b) && !q@.contains(
                    ((a as usize), (b as usize)),
                )) implies #[trigger] arc_ok(grid@, t, a, b, dd, h as int) by {
                if 0 <= dd < 4 {
                    if a == cx && b == cy {
                        assert(arc_ok(grid@, t, cx as int, cy as int, dd, h as int));
                    } else {
                        assert(!q@.push((cx, cy)).contains(((a as usize), (b as usize)))) by {
                            if q@.push((cx, cy)).contains(((a as usize), (b as usize))) {
                                let ki = choose|ki: int|
                                    0 <= ki < q@.push((cx, cy)).len() && q@.push((cx, cy))[ki] == ((
                                    a as usize), (b as usize));
                                if ki < q@.len() {
                                    assert(q@[ki] == ((a as usize), (b as usize)));
                                }
                            }
                        }
                    }
                } else {
                    assert(arc_ok(grid@, t, a, b, dd, h as int));
                }
            }
        }
    }

    proof {
        // An empty worklist excuses nothing: the arc invariant holds
        // everywhere.
        assert forall|a: int, b: int, dd: int| #[trigger] arc_ok(grid@, t, a, b, dd, h as int) by {
            if in_bounds(grid@.len() as int, h as int, a, b) {
                assert(!q@.contains(((a as usize), (b as usize)))) by {
                    if q@.contains(((a as usize), (b as usize))) {
                        let ki = choose|ki: int|
                            0 <= ki < q@.len() && q@[ki] == ((a as usize), (b as usize));
                    }
                }
            }
        }
        lemma_grid_narrowed_trans(g0, g1, grid@, h as int);
        assert forall|a: int, b: int|
            0 <= a < g0.len() && 0 <= b < h && !(a == x && b == y) implies (#[trigger] cell_at(
            grid@,
            a,
            b,
        )).spec_is_collapsed() == cell_at(g0, a, b).spec_is_collapsed() by {
            assert(cell_at(g1, a, b) == cell_at(g0, a, b));
        }
        assert(cell_at(grid@, x as int, y as int) == cell_at(g1, x as int, y as int));
        assert forall|asn: Seq<Seq<usize>>|
            assignment_ok(asn, t, g0.len() as int, h as int, n) && #[trigger] grid_admits(
                g0,
                asn,
                h as int,
            ) && asn_at(asn, x as int, y as int) == cell_at(
                grid@,
                x as int,
                y as int,
            ).collapsed_tile() implies grid_admits(grid@, asn, h as int) by {
            assert(grid_admits(g1, asn, h as int)) by {
                assert forall|a: int, b: int|
                    0 <= a < g1.len() && 0 <= b < h implies (#[trigger] cell_at(
                    g1,
                    a,
                    b,
                )).candidates().contains(asn_at(asn, a, b)) by {
                    if a == x && b == y {
                        assert(cell_at(g1, a, b).candidates() =~= seq![u]);
                    } else {
                        assert(cell_at(g1, a, b) == cell_at(g0, a, b));
                    }
                }
            }
        }
    }
}

} // verus!
