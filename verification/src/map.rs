//! The grid-owning solver: candidate grid plus compatibility table,
//! with the bounded-retry generation driver.
//!
//! This variant rejects a finished grid in which every cell holds the
//! same tile: such an output is consistent but degenerate, and it is
//! retried exactly like a contradiction.

use crate::cell::State;
use crate::engine::{
    adjacent_compatible, all_cells_collapsed, all_collapsed_spec, cell_at, collapse_and_propagate,
    fresh_grid, grid_full, grid_narrowed, grid_wf, has_empty_wave, lemma_adjacency_from_arcs,
    lemma_full_grid_ok, pick_cell, run_attempt,
};
use crate::relation::{dict_wf, table_matches_dict, WfcRelation};
use crate::rng::RandomSource;
use vstd::prelude::*;

verus! {

/// Whether tile `tt` fills the entire grid.
pub open spec fn uniform_tile(g: Seq<Vec<State>>, h: int, tt: usize) -> bool {
    forall|x: int, y: int|
        0 <= x < g.len() && 0 <= y < h ==> (#[trigger] cell_at(g, x, y)) == State::Collapsed(tt)
}

/// Whether a single tile fills the entire grid: the degenerate outcome
/// that this solver refuses to return.
pub open spec fn all_same_spec(g: Seq<Vec<State>>, h: int) -> bool {
    exists|tt: usize| #[trigger] uniform_tile(g, h, tt)
}

/// A candidate grid together with the compatibility table it obeys.
pub struct WfcProbabilityMap {
    /// The compatibility table, built once and then only read.
    pub relation: WfcRelation,
    /// The mutable solver state, one cell per grid position.
    pub grid: Vec<Vec<State>>,
    /// Number of grid columns.
    pub width: usize,
    /// Number of grid rows.
    pub height: usize,
}

impl WfcProbabilityMap {
    /// A sound solver state: a well-formed symmetric table for at
    /// least one tile, and a rectangular grid of valid cells.
    pub open spec fn wf(self) -> bool {
        &&& self.relation.wf()
        &&& self.relation.num_tiles() > 0
        &&& self.width > 0
        &&& self.height > 0
        &&& self.grid@.len() == self.width
        &&& grid_wf(self.grid@, self.height as int, self.relation.num_tiles())
    }

    /// Builds the solver for a tile dictionary and grid size: the
    /// compatibility table is derived from the dictionary, and every
    /// cell starts undetermined with the full candidate set.
    pub fn new(dict: &Vec<Vec<u64>>, width: usize, height: usize) -> (r: WfcProbabilityMap)
        requires
            dict_wf(dict@),
            dict@.len() > 0,
            width > 0,
            height > 0,
        ensures
            r.wf(),
            r.width == width,
            r.height == height,
            r.relation.num_tiles() == dict@.len(),
            table_matches_dict(r.relation.possible_neighbors@, dict@),
            grid_full(r.grid@, width as int, height as int, dict@.len() as int),
    {
        let relation = WfcRelation::new(dict);
        let n = relation.possible_neighbors.len();
        let grid = fresh_grid(n, width, height);
        proof {
            lemma_full_grid_ok(
                grid@,
                relation.possible_neighbors@,
                width as int,
                height as int,
                n as int,
            );
        }
        WfcProbabilityMap { relation, grid, width, height }
    }

    /// Restores every cell to undetermined with the full candidate
    /// set, ready for a fresh attempt.
    pub fn reset(&mut self)
        requires
            old(self).wf(),
        ensures
            final(self).wf(),
            final(self).relation == old(self).relation,
            final(self).width == old(self).width,
            final(self).height == old(self).height,
            grid_full(
                final(self).grid@,
                final(self).width as int,
                final(self).height as int,
                final(self).relation.num_tiles(),
            ),
    {
        let n = self.relation.possible_neighbors.len();
        self.grid = fresh_grid(n, self.width, self.height);
        proof {
            lemma_full_grid_ok(
                self.grid@,
                self.relation.possible_neighbors@,
                self.width as int,
                self.height as int,
                n as int,
            );
        }
    }

    /// Picks the undetermined cell with the fewest remaining
    /// candidates, at random among the ties; nothing when every cell
    /// is fixed or some cell has run out of candidates.
    pub fn pick_possibility<R: RandomSource>(&self, rng: &mut R) -> (r: Option<(usize, usize)>)
        requires
            self.wf(),
        ensures
            r is Some <==> (crate::engine::has_wave(self.grid@, self.height as int)
                && !has_empty_wave(self.grid@, self.height as int)),
            r matches Some(p) ==> {
                &&& p.0 < self.grid@.len()
                &&& p.1 < self.height
                &&& !cell_at(self.grid@, p.0 as int, p.1 as int).spec_is_collapsed()
                &&& cell_at(self.grid@, p.0 as int, p.1 as int).candidates().len() > 0
                &&& forall|a: int, b: int|
                    0 <= a < self.grid@.len() && 0 <= b < self.height && !(#[trigger] cell_at(
                        self.grid@,
                        a,
                        b,
                    )).spec_is_collapsed() ==> cell_at(self.grid@, a, b).candidates().len()
                        >= cell_at(self.grid@, p.0 as int, p.1 as int).candidates().len()
            },
    {
        pick_cell(&self.grid, rng, self.height)
    }

    /// Fixes the undetermined cell at `(x, y)` to a random candidate
    /// and propagates the consequences to its neighbors.
    pub fn set_and_propagate<R: RandomSource>(&mut self, rng: &mut R, x: usize, y: usize)
        requires
            old(self).wf(),
            crate::engine::arcs_ok(
                old(self).grid@,
                old(self).relation.possible_neighbors@,
                old(self).height as int,
            ),
            x < old(self).width,
            y < old(self).height,
            !cell_at(old(self).grid@, x as int, y as int).spec_is_collapsed(),
            cell_at(old(self).grid@, x as int, y as int).candidates().len() > 0,
        ensures
            final(self).wf(),
            final(self).relation == old(self).relation,
            final(self).width == old(self).width,
            final(self).height == old(self).height,
            crate::engine::arcs_ok(
                final(self).grid@,
                final(self).relation.possible_neighbors@,
                final(self).height as int,
            ),
            grid_narrowed(old(self).grid@, final(self).grid@, old(self).height as int),
            cell_at(final(self).grid@, x as int, y as int).spec_is_collapsed(),
            crate::engine::grid_count(final(self).grid@) < crate::engine::grid_count(
                old(self).grid@,
            ),
            // Propagation is sound: no candidate is removed that could
            // still complete a consistent assignment agreeing with the
            // tile just fixed.
            forall|asn: Seq<Seq<usize>>|
                crate::engine::assignment_ok(
                    asn,
                    old(self).relation.possible_neighbors@,
                    old(self).width as int,
                    old(self).height as int,
                    old(self).relation.num_tiles(),
                ) && #[trigger] crate::engine::grid_admits(
                    old(self).grid@,
                    asn,
                    old(self).height as int,
                ) && crate::engine::asn_at(asn, x as int, y as int) == cell_at(
                    final(self).grid@,
                    x as int,
                    y as int,
                ).collapsed_tile() ==> crate::engine::grid_admits(
                    final(self).grid@,
                    asn,
                    old(self).height as int,
                ),
    {
        let h = self.height;
        collapse_and_propagate(&self.relation, &mut self.grid, rng, h, x, y);
    }

    /// Whether every cell of the grid is fixed.
    pub fn all_collapsed(&self) -> (r: bool)
        requires
            self.wf(),
        ensures
            r == all_collapsed_spec(self.grid@, self.height as int),
    {
        all_cells_collapsed(&self.grid, self.height)
    }

    /// Whether one single tile fills the entire grid.
    pub fn all_same(&self) -> (r: bool)
        requires
            self.wf(),
        ensures
            r == all_same_spec(self.grid@, self.height as int),
    {
        let t0 = match &self.grid[0][0] {
            State::Collapsed(v) => *v,
            State::Wave(_) => {
                proof {
                    assert(!uniform_tile(self.grid@, self.height as int, choose|tt: usize|
                        uniform_tile(self.grid@, self.height as int, tt))) by {
                        assert(cell_at(self.grid@, 0, 0) is Wave);
                    }
                }
                return false;
            },
        };
        let w = self.width;
        let h = self.height;
        let mut x: usize = 0;
        while x < w
            invariant
                x <= w,
                self.wf(),
                w == self.width,
                h == self.height,
                cell_at(self.grid@, 0, 0) == State::Collapsed(t0),
                forall|a: int, b: int|
                    0 <= a < x && 0 <= b < h ==> (#[trigger] cell_at(self.grid@, a, b))
                        == State::Collapsed(t0),
            decreases w - x,
        {
            let mut y: usize = 0;
            while y < h
                invariant
                    x < w,
                    y <= h,
                    self.wf(),
                    w == self.width,
                    h == self.height,
                    cell_at(self.grid@, 0, 0) == State::Collapsed(t0),
                    forall|a: int, b: int|
                        0 <= a < x && 0 <= b < h ==> (#[trigger] cell_at(self.grid@, a, b))
                            == State::Collapsed(t0),
                    forall|b: int|
                        0 <= b < y ==> (#[trigger] cell_at(self.grid@, x as int, b))
                            == State::Collapsed(t0),
                decreases h - y,
            {
                let same = match &self.grid[x][y] {
                    State::Collapsed(v) => *v == t0,
                    State::Wave(_) => false,
                };
                if !same {
                    proof {
                        let tt = choose|tt: usize|
                            uniform_tile(self.grid@, self.height as int, tt);
                        assert(!uniform_tile(self.grid@, self.height as int, tt)) by {
                            if uniform_tile(self.grid@, self.height as int, tt) {
                                assert(cell_at(self.grid@, 0, 0) == State::Collapsed(tt));
                                assert(cell_at(self.grid@, x as int, y as int)
                                    == State::Collapsed(tt));
                            }
                        }
                    }
                    return false;
                }
                y = y + 1;
            }
            x = x + 1;
        }
        proof {
            assert(uniform_tile(self.grid@, self.height as int, t0));
        }
        true
    }

    /// Generates a full grid: up to `max_retries + 1` attempts, each a
    /// fresh reset followed by the select-and-propagate loop. Returns
    /// whether one attempt produced a fully fixed, non-degenerate
    /// grid; on success every pair of adjacent tiles is compatible.
    pub fn generate_wfc_grid<R: RandomSource>(&mut self, rng: &mut R, max_retries: u32) -> (r:
        bool)
        requires
            old(self).wf(),
        ensures
            final(self).wf(),
            final(self).relation == old(self).relation,
            final(self).width == old(self).width,
            final(self).height == old(self).height,
            r ==> all_collapsed_spec(final(self).grid@, final(self).height as int),
            r ==> adjacent_compatible(
                final(self).grid@,
                final(self).relation.possible_neighbors@,
                final(self).height as int,
            ),
            r ==> !all_same_spec(final(self).grid@, final(self).height as int),
            old(self).relation.num_tiles() == 1 ==> r == false,
    {
        let mut attempt: u32 = 0;
        loop
            invariant
                attempt <= max_retries,
                self.wf(),
                self.relation == old(self).relation,
                self.width == old(self).width,
                self.height == old(self).height,
            decreases max_retries - attempt,
        {
            self.reset();
            let h = self.height;
            run_attempt(&self.relation, &mut self.grid, rng, h);
            if self.all_collapsed() {
                if !self.all_same() {
                    proof {
                        lemma_adjacency_from_arcs(
                            self.grid@,
                            self.relation.possible_neighbors@,
                            self.height as int,
                        );
                        // A single-tile dictionary can only have filled the
                        // grid uniformly, which the guard just rejected.
                        if self.relation.num_tiles() == 1 {
                            assert forall|x: int, y: int|
                                0 <= x < self.grid@.len() && 0 <= y < self.height implies (
                            #[trigger] cell_at(self.grid@, x, y)) == State::Collapsed(0) by {
                                let c = cell_at(self.grid@, x, y);
                                assert(c.cell_wf(1));
                                assert(c.candidates()[0] < 1);
                                assert(c.candidates()[0] == c.collapsed_tile());
                            }
                            assert(uniform_tile(self.grid@, self.height as int, 0));
                        }
                    }
                    return true;
                }
            }
            if attempt == max_retries {
                return false;
            }
            attempt = attempt + 1;
        }
    }
}

} // verus!
