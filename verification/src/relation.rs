//! The compatibility table derived from a tile dictionary.
//!
//! A tile dictionary gives every tile four edge labels, one per cardinal
//! direction. Tile `j` may stand next to tile `i` in direction `d`
//! exactly when `i`'s label in `d` equals `j`'s label on the facing
//! edge. [`WfcRelation`] tabulates that relation once; the solver then
//! only reads it.

use crate::cell::State;
use crate::engine::{
    all_cells_collapsed, all_collapsed_spec, cell_at, fresh_grid, in_bounds,
    lemma_adjacency_from_arcs, lemma_full_grid_ok, run_attempt, step_x, step_y,
};
use crate::rng::RandomSource;
use vstd::prelude::*;

verus! {

/// The direction opposite to `d`, in the fixed cyclic order of the four
/// cardinal directions.
pub open spec fn opposite(d: int) -> int {
    (d + 2) % 4
}

/// Executable form of [`opposite`].
pub fn opposite_dir(d: usize) -> (r: usize)
    requires
        d < 4,
    ensures
        r == opposite(d as int),
        r < 4,
{
    (d + 2) % 4
}

/// A well-formed tile dictionary: four edge labels per tile.
pub open spec fn dict_wf(dict: Seq<Vec<u64>>) -> bool {
    forall|i: int| 0 <= i < dict.len() ==> (#[trigger] dict[i])@.len() == 4
}

/// Whether the dictionary lets tile `j` stand next to tile `i` in
/// direction `d`: `i`'s edge label in `d` equals `j`'s label on the
/// opposite, facing edge.
pub open spec fn compatible(dict: Seq<Vec<u64>>, i: int, j: int, d: int) -> bool {
    dict[i]@[d] == dict[j]@[opposite(d)]
}

/// The candidate list a table stores for tile `i` and direction `d`.
pub open spec fn entry_at(t: Seq<Vec<Vec<usize>>>, i: int, d: int) -> Seq<usize> {
    t[i]@[d]@
}

/// Whether a table lists tile `j` as permitted next to tile `i` in
/// direction `d`.
pub open spec fn table_allows(t: Seq<Vec<Vec<usize>>>, i: int, d: int, j: int) -> bool {
    exists|k: int|
        0 <= k < entry_at(t, i, d).len() && (#[trigger] entry_at(t, i, d)[k]) as int == j
}

/// Structural soundness of a table for `n` tiles: one row of four
/// direction lists per tile, every listed neighbor a valid tile id.
pub open spec fn table_wf(t: Seq<Vec<Vec<usize>>>, n: int) -> bool {
    &&& t.len() == n
    &&& forall|i: int| 0 <= i < n ==> (#[trigger] t[i])@.len() == 4
    &&& forall|i: int, d: int, k: int|
        0 <= i < n && 0 <= d < 4 && 0 <= k < entry_at(t, i, d).len()
            ==> (#[trigger] entry_at(t, i, d)[k]) < n
}

/// Symmetry of a table: `j` is permitted in direction `d` of `i`
/// exactly when `i` is permitted in the opposite direction of `j`.
pub open spec fn table_symmetric(t: Seq<Vec<Vec<usize>>>, n: int) -> bool {
    forall|i: int, d: int, j: int|
        0 <= i < n && 0 <= d < 4 && 0 <= j < n
            ==> (#[trigger] table_allows(t, i, d, j) <==> table_allows(
                t,
                j,
                opposite(d),
                i,
            ))
}

/// A table agrees with a dictionary when it permits exactly the
/// label-compatible neighbors.
pub open spec fn table_matches_dict(t: Seq<Vec<Vec<usize>>>, dict: Seq<Vec<u64>>) -> bool {
    forall|i: int, d: int, j: int|
        0 <= i < dict.len() && 0 <= d < 4 && 0 <= j < dict.len()
            ==> (#[trigger] table_allows(t, i, d, j) <==> compatible(dict, i, j, d))
}

pub proof fn lemma_opposite_involution(d: int)
    requires
        0 <= d < 4,
    ensures
        0 <= opposite(d) < 4,
        opposite(opposite(d)) == d,
{
}

/// Compatibility is symmetric once the direction is flipped: the two
/// sides of a shared edge compare the same pair of labels.
pub proof fn lemma_compatible_symmetric(dict: Seq<Vec<u64>>, i: int, j: int, d: int)
    requires
        0 <= d < 4,
    ensures
        compatible(dict, i, j, d) <==> compatible(dict, j, i, opposite(d)),
{
    lemma_opposite_involution(d);
}

/// The compatibility table for one tile dictionary.
pub struct WfcRelation {
    /// `possible_neighbors[i][d]` lists every tile permitted next to
    /// tile `i` in direction `d`.
    pub possible_neighbors: Vec<Vec<Vec<usize>>>,
}

impl WfcRelation {
    /// The number of tiles the table was built for.
    pub open spec fn num_tiles(self) -> int {
        self.possible_neighbors@.len() as int
    }

    /// Whether the table lists tile `j` next to tile `i` in direction `d`.
    pub open spec fn allows(self, i: int, d: int, j: int) -> bool {
        table_allows(self.possible_neighbors@, i, d, j)
    }

    /// Structural soundness together with the symmetry law.
    pub open spec fn wf(self) -> bool {
        &&& table_wf(self.possible_neighbors@, self.num_tiles())
        &&& table_symmetric(self.possible_neighbors@, self.num_tiles())
    }
}

/// The unordered pair `{a, b}` together with a direction determines the
/// one triangular-pass iteration that writes the entry `(a, da, b)`:
/// the pass visits each pair with its smaller tile first.
spec fn prim_i(a: int, da: int, b: int) -> int {
    if a <= b {
        a
    } else {
        b
    }
}

spec fn prim_j(a: int, da: int, b: int) -> int {
    if a <= b {
        b
    } else {
        a
    }
}

spec fn prim_d(a: int, da: int, b: int) -> int {
    if a <= b {
        da
    } else {
        opposite(da)
    }
}

/// Whether the iteration that writes entry `(a, da, b)` lies strictly
/// before position `(i, j, d)` of the triangular pass.
spec fn handled(a: int, da: int, b: int, i: int, j: int, d: int) -> bool {
    ||| prim_i(a, da, b) < i
    ||| (prim_i(a, da, b) == i && prim_j(a, da, b) < j)
    ||| (prim_i(a, da, b) == i && prim_j(a, da, b) == j && prim_d(a, da, b) < d)
}

/// Mid-construction shape of the table: an entry is present exactly
/// when it is label-compatible and its iteration has already run.
spec fn building_ok(t: Seq<Vec<Vec<usize>>>, dict: Seq<Vec<u64>>, i: int, j: int, d: int) -> bool {
    forall|a: int, da: int, b: int|
        0 <= a < dict.len() && 0 <= da < 4 && 0 <= b < dict.len()
            ==> (#[trigger] table_allows(t, a, da, b) <==> (compatible(dict, a, b, da) && handled(
                a,
                da,
                b,
                i,
                j,
                d,
            )))
}

impl WfcRelation {
    /// Builds the compatibility table for `dict`: for all tiles `i`,
    /// `j` and directions `d`, the result lists `j` next to `i` in `d`
    /// exactly when `i`'s edge label in `d` equals `j`'s label on the
    /// facing edge. Each unordered tile pair is compared once and both
    /// symmetric entries are filled in the same pass.
    pub fn new(dict: &Vec<Vec<u64>>) -> (r: WfcRelation)
        requires
            dict_wf(dict@),
        ensures
            r.wf(),
            r.num_tiles() == dict@.len(),
            table_matches_dict(r.possible_neighbors@, dict@),
    {
        let n = dict.len();
        let mut table: Vec<Vec<Vec<usize>>> = Vec::new();
        let mut i: usize = 0;
        while i < n
            invariant
                i <= n,
                table@.len() == i,
                forall|a: int| 0 <= a < i ==> (#[trigger] table@[a])@.len() == 4,
                forall|a: int, da: int|
                    0 <= a < i && 0 <= da < 4 ==> (#[trigger] entry_at(table@, a, da)).len() == 0,
            decreases n - i,
        {
            let mut row: Vec<Vec<usize>> = Vec::new();
            row.push(Vec::new());
            row.push(Vec::new());
            row.push(Vec::new());
            row.push(Vec::new());
            assert(row@[0]@.len() == 0);
            assert(row@[1]@.len() == 0);
            assert(row@[2]@.len() == 0);
            assert(row@[3]@.len() == 0);
            let ghost tpre = table@;
            let ghost rowv = row@;
            table.push(row);
            proof {
                assert forall|a: int, da: int|
                    0 <= a < i + 1 && 0 <= da < 4 implies (#[trigger] entry_at(
                    table@,
                    a,
                    da,
                )).len() == 0 by {
                    if a == i {
                        assert(entry_at(table@, a, da) == rowv[da]@);
                    } else {
                        assert(table@[a] == tpre[a]);
                        assert(entry_at(tpre, a, da).len() == 0);
                    }
                }
            }
            i = i + 1;
        }

        assert forall|a: int, da: int, b: int|
            0 <= a < dict@.len() && 0 <= da < 4 && 0 <= b < dict@.len() implies !(
        #[trigger] table_allows(table@, a, da, b)) by {
            assert(entry_at(table@, a, da).len() == 0);
        }

        let mut i: usize = 0;
        while i < n
            invariant
                dict_wf(dict@),
                n == dict@.len(),
                i <= n,
                table_wf(table@, n as int),
                building_ok(table@, dict@, i as int, i as int, 0),
            decreases n - i,
        {
            let mut j: usize = i;
            while j < n
                invariant
                    dict_wf(dict@),
                    n == dict@.len(),
                    i < n,
                    i <= j <= n,
                    table_wf(table@, n as int),
                    building_ok(table@, dict@, i as int, j as int, 0),
                decreases n - j,
            {
                let mut d: usize = 0;
                while d < 4
                    invariant
                        dict_wf(dict@),
                        n == dict@.len(),
                        i < n,
                        i <= j < n,
                        d <= 4,
                        table_wf(table@, n as int),
                        building_ok(table@, dict@, i as int, j as int, d as int),
                    decreases 4 - d,
                {
                    let od = opposite_dir(d);
                    let ghost t0 = table@;
                    if dict[i][d] == dict[j][od] {
                        table[i][d].push(j);
                        if i != j {
                            table[j][od].push(i);
                        }
                    }
                    proof {
                        lemma_step_preserves(
                            t0,
                            table@,
                            dict@,
                            i as int,
                            j as int,
                            d as int,
                        );
                    }
                    d = d + 1;
                }
                j = j + 1;
                proof {
                    lemma_same_handled_next_j(dict@, i as int, j as int);
                }
            }
            i = i + 1;
            proof {
                lemma_same_handled_next_i(dict@, i as int, n as int);
            }
        }

        let r = WfcRelation { possible_neighbors: table };
        proof {
            assert forall|a: int, da: int, b: int|
                0 <= a < dict@.len() && 0 <= da < 4 && 0 <= b < dict@.len() implies (
            #[trigger] table_allows(table@, a, da, b) <==> compatible(dict@, a, b, da)) by {
                assert(handled(a, da, b, n as int, n as int, 0));
            }
            assert forall|a: int, da: int, b: int|
                0 <= a < n && 0 <= da < 4 && 0 <= b < n implies (#[trigger] table_allows(
                table@,
                a,
                da,
                b,
            ) <==> table_allows(table@, b, opposite(da), a)) by {
                lemma_compatible_symmetric(dict@, a, b, da);
                lemma_opposite_involution(da);
            }
        }
        r
    }
}

/// Appending `v` to one candidate list admits exactly the old members
/// plus `v`.
proof fn lemma_push_keeps_allows(
    t0: Seq<Vec<Vec<usize>>>,
    t1: Seq<Vec<Vec<usize>>>,
    a: int,
    da: int,
    v: usize,
)
    requires
        entry_at(t1, a, da) == entry_at(t0, a, da).push(v),
    ensures
        forall|bb: int|
            #[trigger] table_allows(t1, a, da, bb) <==> (table_allows(t0, a, da, bb) || bb
                == v as int),
{
    assert forall|bb: int| #[trigger] table_allows(t1, a, da, bb) implies (table_allows(
        t0,
        a,
        da,
        bb,
    ) || bb == v as int) by {
        let k = choose|k: int|
            0 <= k < entry_at(t1, a, da).len() && (#[trigger] entry_at(t1, a, da)[k]) as int == bb;
        if k < entry_at(t0, a, da).len() {
            assert(entry_at(t0, a, da)[k] as int == bb);
        } else {
            assert(entry_at(t1, a, da)[k] == v);
        }
    }
    assert forall|bb: int|
        table_allows(t0, a, da, bb) || bb == v as int implies #[trigger] table_allows(
        t1,
        a,
        da,
        bb,
    ) by {
        if table_allows(t0, a, da, bb) {
            let k = choose|k: int|
                0 <= k < entry_at(t0, a, da).len() && (#[trigger] entry_at(t0, a, da)[k]) as int
                    == bb;
            assert(entry_at(t1, a, da)[k] as int == bb);
        } else {
            assert(entry_at(t1, a, da)[entry_at(t0, a, da).len() as int] == v);
        }
    }
}

/// After the body of iteration `(i, j, d)` ran on a table in
/// mid-construction shape, the table is in that shape for `(i, j, d+1)`.
proof fn lemma_step_preserves(
    t0: Seq<Vec<Vec<usize>>>,
    t1: Seq<Vec<Vec<usize>>>,
    dict: Seq<Vec<u64>>,
    i: int,
    j: int,
    d: int,
)
    requires
        dict_wf(dict),
        dict.len() <= usize::MAX,
        0 <= i <= j < dict.len(),
        0 <= d < 4,
        table_wf(t0, dict.len() as int),
        building_ok(t0, dict, i, j, d),
        compatible(dict, i, j, d) ==> {
            &&& entry_at(t1, i, d) == entry_at(t0, i, d).push(j as usize)
            &&& i != j ==> entry_at(t1, j, opposite(d)) == entry_at(t0, j, opposite(d)).push(
                i as usize,
            )
            &&& forall|a: int, da: int|
                0 <= a < dict.len() && 0 <= da < 4 && !(a == i && da == d) && !(i != j && a == j
                    && da == opposite(d)) ==> #[trigger] entry_at(t1, a, da) == entry_at(t0, a, da)
        },
        !compatible(dict, i, j, d) ==> t1 == t0,
        t1.len() == t0.len(),
        forall|a: int| 0 <= a < t1.len() ==> (#[trigger] t1[a])@.len() == 4,
    ensures
        table_wf(t1, dict.len() as int),
        building_ok(t1, dict, i, j, d + 1),
{
    let n = dict.len() as int;
    lemma_opposite_involution(d);
    // Every triple whose writing iteration is exactly (i, j, d).
    assert forall|a: int, da: int, b: int|
        0 <= a < n && 0 <= da < 4 && 0 <= b < n implies (handled(a, da, b, i, j, d + 1) <==> (
    handled(a, da, b, i, j, d) || (a == i && da == d && b == j) || (i != j && a == j && da
        == opposite(d) && b == i))) by {
        lemma_opposite_involution(da);
    }
    if compatible(dict, i, j, d) {
        assert forall|a: int, da: int, b: int|
            0 <= a < n && 0 <= da < 4 && 0 <= b < n implies (#[trigger] table_allows(t1, a, da, b)
            <==> (compatible(dict, a, b, da) && handled(a, da, b, i, j, d + 1))) by {
            lemma_compatible_symmetric(dict, i, j, d);
            lemma_opposite_involution(da);
            if a == i && da == d {
                lemma_push_keeps_allows(t0, t1, a, da, j as usize);
                assert(table_allows(t1, a, da, b) <==> (table_allows(t0, a, da, b) || b == j));
                assert(handled(a, da, b, i, j, d + 1) <==> (handled(a, da, b, i, j, d) || b == j));
                assert(b == j ==> compatible(dict, a, b, da));
            } else if i != j && a == j && da == opposite(d) {
                lemma_push_keeps_allows(t0, t1, a, da, i as usize);
                assert(table_allows(t1, a, da, b) <==> (table_allows(t0, a, da, b) || b == i));
                assert(handled(a, da, b, i, j, d + 1) <==> (handled(a, da, b, i, j, d) || b == i));
                assert(b == i ==> compatible(dict, a, b, da));
            } else {
                assert(entry_at(t1, a, da) == entry_at(t0, a, da));
                assert(table_allows(t1, a, da, b) <==> table_allows(t0, a, da, b));
                assert(handled(a, da, b, i, j, d + 1) <==> handled(a, da, b, i, j, d));
            }
        }
        assert forall|a: int, da: int, k: int|
            0 <= a < n && 0 <= da < 4 && 0 <= k < entry_at(t1, a, da).len() implies (
        #[trigger] entry_at(t1, a, da)[k]) < n by {
            if a == i && da == d {
                if k < entry_at(t0, a, da).len() {
                } else {
                    assert(entry_at(t1, a, da)[k] == j as usize);
                }
            } else if i != j && a == j && da == opposite(d) {
                if k < entry_at(t0, a, da).len() {
                } else {
                    assert(entry_at(t1, a, da)[k] == i as usize);
                }
            } else {
                assert(entry_at(t1, a, da) == entry_at(t0, a, da));
            }
        }
    } else {
        assert forall|a: int, da: int, b: int|
            0 <= a < n && 0 <= da < 4 && 0 <= b < n implies (#[trigger] table_allows(t1, a, da, b)
            <==> (compatible(dict, a, b, da) && handled(a, da, b, i, j, d + 1))) by {
            lemma_compatible_symmetric(dict, i, j, d);
            lemma_opposite_involution(da);
        }
    }
}

/// Position `(i, j, 4)` of the pass covers the same entries as
/// position `(i, j + 1, 0)`.
proof fn lemma_same_handled_next_j(dict: Seq<Vec<u64>>, i: int, j: int)
    ensures
        forall|a: int, da: int, b: int|
            0 <= da < 4 ==> (#[trigger] handled(a, da, b, i, j - 1, 4) <==> handled(
                a,
                da,
                b,
                i,
                j,
                0,
            )),
{
    assert forall|a: int, da: int, b: int| 0 <= da < 4 implies (#[trigger] handled(
        a,
        da,
        b,
        i,
        j - 1,
        4,
    ) <==> handled(a, da, b, i, j, 0)) by {
        lemma_opposite_involution(da);
    }
}

/// Position `(i - 1, n, 0)` of the pass covers the same entries over
/// tiles below `n` as position `(i, i, 0)`.
proof fn lemma_same_handled_next_i(dict: Seq<Vec<u64>>, i: int, n: int)
    ensures
        forall|a: int, da: int, b: int|
            0 <= a < n && 0 <= b < n && 0 <= da < 4 ==> (#[trigger] handled(a, da, b, i - 1, n, 0)
                <==> handled(a, da, b, i, i, 0)),
{
}

/// The cell at `(x, y)` of a finished output grid.
pub open spec fn out_cell(go: Seq<Vec<Option<usize>>>, x: int, y: int) -> Option<usize> {
    go[x]@[y]
}

/// The tile an output cell holds.
pub open spec fn opt_tile(o: Option<usize>) -> usize
    recommends
        o is Some,
{
    match o {
        Some(v) => v,
        None => 0,
    }
}

/// Whether every entry of an output grid holds a tile.
pub open spec fn all_done_spec(go: Seq<Vec<Option<usize>>>) -> bool {
    forall|x: int, y: int|
        0 <= x < go.len() && 0 <= y < go[x]@.len() ==> (#[trigger] out_cell(go, x, y)) is Some
}

/// Adjacency satisfaction on an output grid: every pair of grid
/// neighbors holds mutually permitted tiles.
pub open spec fn out_adjacent_ok(go: Seq<Vec<Option<usize>>>, t: Seq<Vec<Vec<usize>>>, h: int) -> bool {
    forall|x: int, y: int, d: int|
        #![trigger out_cell(go, x, y), step_x(x, d)]
        in_bounds(go.len() as int, h, x, y) && 0 <= d < 4 && in_bounds(
            go.len() as int,
            h,
            step_x(x, d),
            step_y(y, d),
        ) ==> table_allows(
            t,
            opt_tile(out_cell(go, x, y)) as int,
            d,
            opt_tile(out_cell(go, step_x(x, d), step_y(y, d))) as int,
        )
}

/// A fully fixed candidate grid rewritten as an output grid of tiles.
fn collapsed_to_out(grid: &Vec<Vec<State>>, h: usize) -> (r: Vec<Vec<Option<usize>>>)
    requires
        forall|x: int| 0 <= x < grid@.len() ==> (#[trigger] grid@[x])@.len() == h,
        all_collapsed_spec(grid@, h as int),
    ensures
        r@.len() == grid@.len(),
        forall|x: int| 0 <= x < r@.len() ==> (#[trigger] r@[x])@.len() == h,
        forall|x: int, y: int|
            0 <= x < grid@.len() && 0 <= y < h ==> (#[trigger] out_cell(r@, x, y)) == Some(
                cell_at(grid@, x, y).collapsed_tile(),
            ),
{
    let w = grid.len();
    let mut out: Vec<Vec<Option<usize>>> = Vec::new();
    let mut x: usize = 0;
    while x < w
        invariant
            x <= w,
            w == grid@.len(),
            out@.len() == x,
            forall|a: int| 0 <= a < grid@.len() ==> (#[trigger] grid@[a])@.len() == h,
            all_collapsed_spec(grid@, h as int),
            forall|a: int| 0 <= a < x ==> (#[trigger] out@[a])@.len() == h,
            forall|a: int, b: int|
                0 <= a < x && 0 <= b < h ==> (#[trigger] out_cell(out@, a, b)) == Some(
                    cell_at(grid@, a, b).collapsed_tile(),
                ),
        decreases w - x,
    {
        let mut row: Vec<Option<usize>> = Vec::new();
        let mut y: usize = 0;
        while y < h
            invariant
                x < w,
                y <= h,
                w == grid@.len(),
                row@.len() == y,
                forall|a: int| 0 <= a < grid@.len() ==> (#[trigger] grid@[a])@.len() == h,
                all_collapsed_spec(grid@, h as int),
                forall|b: int|
                    0 <= b < y ==> (#[trigger] row@[b]) == Some(
                        cell_at(grid@, x as int, b).collapsed_tile(),
                    ),
            decreases h - y,
        {
            let entry = match &grid[x][y] {
                State::Collapsed(v) => Some(*v),
                State::Wave(_) => {
                    proof {
                        assert(cell_at(grid@, x as int, y as int).spec_is_collapsed());
                    }
                    None
                },
            };
            row.push(entry);
            y = y + 1;
        }
        let ghost outpre = out@;
        out.push(row);
        proof {
            assert forall|a: int, b: int| 0 <= a < x + 1 && 0 <= b < h implies (#[trigger] out_cell(
                out@,
                a,
                b,
            )) == Some(cell_at(grid@, a, b).collapsed_tile()) by {
                if a < x {
                    assert(out_cell(out@, a, b) == out_cell(outpre, a, b));
                } else {
                    assert(out_cell(out@, a, b) == row@[b]);
                }
            }
        }
        x = x + 1;
    }
    out
}

impl WfcRelation {
    /// Whether every entry of an output grid holds a tile.
    pub fn all_done(done: &Vec<Vec<Option<usize>>>) -> (r: bool)
        ensures
            r == all_done_spec(done@),
    {
        let mut x: usize = 0;
        while x < done.len()
            invariant
                x <= done@.len(),
                forall|a: int, b: int|
                    0 <= a < x && 0 <= b < done@[a]@.len() ==> (#[trigger] out_cell(
                        done@,
                        a,
                        b,
                    )) is Some,
            decreases done@.len() - x,
        {
            let row = &done[x];
            let mut y: usize = 0;
            while y < row.len()
                invariant
                    x < done@.len(),
                    y <= row@.len(),
                    row@ == done@[x as int]@,
                    forall|a: int, b: int|
                        0 <= a < x && 0 <= b < done@[a]@.len() ==> (#[trigger] out_cell(
                            done@,
                            a,
                            b,
                        )) is Some,
                    forall|b: int|
                        0 <= b < y ==> (#[trigger] out_cell(done@, x as int, b)) is Some,
                decreases row@.len() - y,
            {
                if row[y].is_none() {
                    proof {
                        assert(out_cell(done@, x as int, y as int) is None);
                    }
                    return false;
                }
                y = y + 1;
            }
            x = x + 1;
        }
        true
    }

    /// Generates a `width` by `height` output grid: up to
    /// `max_retries + 1` attempts, each a fresh grid followed by the
    /// select-and-propagate loop. Returns the finished grid, in which
    /// every pair of adjacent tiles is compatible, or nothing once the
    /// attempts are exhausted. This variant accepts any consistent
    /// grid, including one filled by a single tile.
    pub fn generate_wfc_grid<R: RandomSource>(
        &self,
        rng: &mut R,
        width: usize,
        height: usize,
        max_retries: u32,
    ) -> (r: Option<Vec<Vec<Option<usize>>>>)
        requires
            self.wf(),
            self.num_tiles() > 0,
            width > 0,
            height > 0,
        ensures
            r matches Some(go) ==> {
                &&& go@.len() == width
                &&& forall|x: int| 0 <= x < go@.len() ==> (#[trigger] go@[x])@.len() == height
                &&& all_done_spec(go@)
                &&& forall|x: int, y: int|
                    0 <= x < width && 0 <= y < height ==> opt_tile(
                        #[trigger] out_cell(go@, x, y),
                    ) < self.num_tiles()
                &&& out_adjacent_ok(go@, self.possible_neighbors@, height as int)
            },
            crate::engine::single_tile_table(self.possible_neighbors@, self.num_tiles())
                ==> r is Some,
    {
        let n = self.possible_neighbors.len();
        let mut attempt: u32 = 0;
        loop
            invariant
                attempt <= max_retries,
                self.wf(),
                n == self.num_tiles(),
                n > 0,
                width > 0,
                height > 0,
            decreases max_retries - attempt,
        {
            let mut grid = fresh_grid(n, width, height);
            proof {
                lemma_full_grid_ok(
                    grid@,
                    self.possible_neighbors@,
                    width as int,
                    height as int,
                    n as int,
                );
                // A fresh grid has n candidates in every cell, so no
                // candidate set is empty.
                assert(!crate::engine::has_empty_wave(grid@, height as int)) by {
                    if crate::engine::has_empty_wave(grid@, height as int) {
                        let (a, b) = choose|a: int, b: int|
                            0 <= a < grid@.len() && 0 <= b < height && !(#[trigger] cell_at(
                                grid@,
                                a,
                                b,
                            )).spec_is_collapsed() && cell_at(grid@, a, b).candidates().len()
                                == 0;
                    }
                }
            }
            run_attempt(self, &mut grid, rng, height);
            if all_cells_collapsed(&grid, height) {
                let out = collapsed_to_out(&grid, height);
                proof {
                    lemma_adjacency_from_arcs(
                        grid@,
                        self.possible_neighbors@,
                        height as int,
                    );
                    assert forall|x: int, y: int|
                        0 <= x < width && 0 <= y < height implies opt_tile(
                        #[trigger] out_cell(out@, x, y),
                    ) < self.num_tiles() by {
                        let c = cell_at(grid@, x, y);
                        assert(c.cell_wf(self.num_tiles()));
                        assert(c.candidates()[0] == c.collapsed_tile());
                    }
                    assert forall|x: int, y: int, d: int|
                        #![trigger out_cell(out@, x, y), step_x(x, d)]
                        in_bounds(out@.len() as int, height as int, x, y) && 0 <= d < 4
                            && in_bounds(
                            out@.len() as int,
                            height as int,
                            step_x(x, d),
                            step_y(y, d),
                        ) implies table_allows(
                        self.possible_neighbors@,
                        opt_tile(out_cell(out@, x, y)) as int,
                        d,
                        opt_tile(out_cell(out@, step_x(x, d), step_y(y, d))) as int,
                    ) by {
                        assert(cell_at(grid@, x, y).spec_is_collapsed());
                        assert(cell_at(grid@, step_x(x, d), step_y(y, d)).spec_is_collapsed());
                    }
                }
                return Some(out);
            }
            if attempt == max_retries {
                return None;
            }
            attempt = attempt + 1;
        }
    }
}

/// The symmetry law of a well-formed table, stated on its own: tile `j`
/// is permitted in direction `d` of tile `i` exactly when tile `i` is
/// permitted in the opposite direction of tile `j`.
pub proof fn lemma_symmetry(r: WfcRelation, i: int, d: int, j: int)
    requires
        r.wf(),
        0 <= i < r.num_tiles(),
        0 <= d < 4,
        0 <= j < r.num_tiles(),
    ensures
        r.allows(i, d, j) <==> r.allows(j, opposite(d), i),
{
}

} // verus!
