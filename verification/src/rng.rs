//! The uniform random-integer capability that the solver draws from.
//!
//! The core never owns a random engine: every tie-break and collapse
//! choice goes through an injected [`RandomSource`], so a host can plug
//! in any engine and a seeded source makes runs reproducible.

use vstd::prelude::*;

verus! {

/// A supplier of uniform random integers.
///
/// `sample(bound)` returns some value in `[0, bound)`; nothing more is
/// promised, so every caller must be correct for every possible draw.
pub trait RandomSource {
    fn sample(&mut self, bound: usize) -> (r: usize)
        requires
            bound > 0,
        ensures
            r < bound,
    ;
}

/// The value `sample(bound)` returns for a source that replays `entries`
/// and has already been asked `cursor` times: the recorded entry reduced
/// modulo the bound, or `0` once the recording is exhausted.
pub open spec fn replay_sample(entries: Seq<usize>, cursor: int, bound: int) -> int {
    if 0 <= cursor < entries.len() {
        (entries[cursor] as int) % bound
    } else {
        0
    }
}

/// A deterministic source that replays a fixed recording of draws.
///
/// Two sources built from the same recording answer every query
/// identically, which makes whole generation runs reproducible.
pub struct ReplaySource {
    pub entries: Vec<usize>,
    pub cursor: usize,
}

impl ReplaySource {
    /// A fresh source positioned at the start of `entries`.
    pub fn new(entries: Vec<usize>) -> (r: ReplaySource)
        ensures
            r.entries@ == entries@,
            r.cursor == 0,
    {
        ReplaySource { entries, cursor: 0 }
    }
}

impl RandomSource for ReplaySource {
    fn sample(&mut self, bound: usize) -> (r: usize)
        ensures
            r == replay_sample(old(self).entries@, old(self).cursor as int, bound as int),
            final(self).entries@ == old(self).entries@,
            final(self).cursor == if old(self).cursor < old(self).entries@.len() {
                old(self).cursor + 1
            } else {
                old(self).cursor as int
            },
    {
        if self.cursor < self.entries.len() {
            let raw = self.entries[self.cursor];
            self.cursor = self.cursor + 1;
            raw % bound
        } else {
            0
        }
    }
}

} // verus!
