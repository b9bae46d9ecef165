//! One cell of the candidate grid.
//!
//! A cell is either still undetermined, holding the set of tile ids not
//! yet ruled out, or fixed to a single tile. Within one generation
//! attempt a cell's candidate set only ever shrinks, and a cell moves
//! from undetermined to fixed exactly once.

use crate::rng::RandomSource;
use vstd::prelude::*;

verus! {

/// The solver state of one grid cell.
pub enum State {
    /// Still undetermined: the tile ids that remain possible.
    Wave(Vec<usize>),
    /// Fixed to one tile id.
    Collapsed(usize),
}

impl State {
    /// Whether the cell has been fixed to a single tile.
    pub open spec fn spec_is_collapsed(self) -> bool {
        self is Collapsed
    }

    /// The tile ids still possible for this cell: the candidate set of
    /// an undetermined cell, or the single fixed tile.
    pub open spec fn candidates(self) -> Seq<usize> {
        match self {
            State::Wave(v) => v@,
            State::Collapsed(t) => seq![t],
        }
    }

    /// The tile a fixed cell holds.
    pub open spec fn collapsed_tile(self) -> usize
        recommends
            self.spec_is_collapsed(),
    {
        match self {
            State::Wave(_) => 0,
            State::Collapsed(t) => t,
        }
    }

    /// Every tile id the cell mentions is a valid id for `n` tiles.
    pub open spec fn cell_wf(self, n: int) -> bool {
        forall|k: int|
            0 <= k < self.candidates().len() ==> (#[trigger] self.candidates()[k]) < n
    }

    /// Whether the cell has been fixed to a single tile.
    pub fn is_collapsed(&self) -> (r: bool)
        ensures
            r == self.spec_is_collapsed(),
    {
        match self {
            State::Collapsed(_) => true,
            State::Wave(_) => false,
        }
    }

    /// The tile ids still possible for this cell, as a fresh vector.
    pub fn values(&self) -> (r: Vec<usize>)
        ensures
            r@ == self.candidates(),
    {
        match self {
            State::Collapsed(t) => {
                let mut out: Vec<usize> = Vec::new();
                out.push(*t);
                proof {
                    assert(out@ =~= seq![*t]);
                }
                out
            },
            State::Wave(v) => copy_tiles(v),
        }
    }

    /// Fixes an undetermined cell to one of its candidates, chosen
    /// uniformly at random by the injected source.
    pub fn collapse_random<R: RandomSource>(&mut self, rng: &mut R)
        requires
            !old(self).spec_is_collapsed(),
            old(self).candidates().len() > 0,
        ensures
            final(self).spec_is_collapsed(),
            old(self).candidates().contains(final(self).collapsed_tile()),
    {
        let vals = self.values();
        let idx = rng.sample(vals.len());
        let tile = vals[idx];
        *self = State::Collapsed(tile);
    }
}

/// A fresh vector with the same tile ids.
pub fn copy_tiles(v: &Vec<usize>) -> (r: Vec<usize>)
    ensures
        r@ == v@,
{
    let mut out: Vec<usize> = Vec::new();
    let mut i: usize = 0;
    while i < v.len()
        invariant
            i <= v@.len(),
            out@ == v@.take(i as int),
        decreases v@.len() - i,
    {
        out.push(v[i]);
        proof {
            assert(out@ =~= v@.take(i + 1));
        }
        i = i + 1;
    }
    proof {
        assert(v@.take(v@.len() as int) =~= v@);
    }
    out
}

/// Whether `v` mentions tile `t`.
pub fn contains_tile(v: &Vec<usize>, t: usize) -> (r: bool)
    ensures
        r == v@.contains(t),
{
    let mut i: usize = 0;
    while i < v.len()
        invariant
            i <= v@.len(),
            forall|k: int| 0 <= k < i ==> v@[k] != t,
        decreases v@.len() - i,
    {
        if v[i] == t {
            return true;
        }
        i = i + 1;
    }
    false
}

/// The tiles of `v` that `allowed` also mentions, in their original
/// order: the intersection step of constraint propagation.
pub fn filter_tiles(v: &Vec<usize>, allowed: &Vec<usize>) -> (r: Vec<usize>)
    ensures
        r@.len() <= v@.len(),
        forall|k: int|
            0 <= k < r@.len() ==> v@.contains(#[trigger] r@[k]) && allowed@.contains(r@[k]),
        forall|t: usize| v@.contains(t) && allowed@.contains(t) ==> r@.contains(t),
{
    let mut out: Vec<usize> = Vec::new();
    let mut i: usize = 0;
    while i < v.len()
        invariant
            i <= v@.len(),
            out@.len() <= i,
            forall|k: int|
                0 <= k < out@.len() ==> v@.contains(#[trigger] out@[k]) && allowed@.contains(
                    out@[k],
                ),
            forall|k: int|
                0 <= k < i && allowed@.contains(#[trigger] v@[k]) ==> out@.contains(v@[k]),
        decreases v@.len() - i,
    {
        let t = v[i];
        if contains_tile(allowed, t) {
            let ghost out0 = out@;
            out.push(t);
            proof {
                assert(v@.contains(t)) by {
                    assert(v@[i as int] == t);
                }
                assert forall|k: int|
                    0 <= k < i + 1 && allowed@.contains(#[trigger] v@[k]) implies out@.contains(
                    v@[k],
                ) by {
                    if k < i {
                        let m = choose|m: int| 0 <= m < out0.len() && out0[m] == v@[k];
                        assert(out@[m] == v@[k]);
                    } else {
                        assert(out@[out0.len() as int] == v@[k]);
                    }
                }
            }
        }
        i = i + 1;
    }
    out
}

} // verus!
