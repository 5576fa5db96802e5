//! Word selection strategies.
//!
//! The engine draws dictionary indices from a [`WordSelector`], so hosts
//! can plug in any strategy and tests can inject a deterministic sequence.
//! The default [`RandomSelector`] draws pseudo-randomly and never repeats
//! the previous index while the dictionary has at least two entries.

use vstd::prelude::*;

use crate::clock::Clock;

verus! {

/// A strategy producing a stream of dictionary indices.
pub trait WordSelector {
    /// Picks the next index into a dictionary of length `len`. The result
    /// is in range, and never an immediate repeat of `prev` when the
    /// dictionary has at least two entries; with a single entry the
    /// no-repeat rule is relaxed.
    fn next_index(&mut self, len: usize, prev: Option<usize>) -> (r: usize)
        requires
            len > 0,
        ensures
            r < len,
            (match prev {
                Some(p) => len > 1 ==> r != p,
                None => true,
            }),
    ;
}

/// Moves an index that would repeat the previous draw to the next position
/// around the dictionary.
fn avoid_repeat(idx: usize, len: usize, prev: Option<usize>) -> (r: usize)
    requires
        idx < len,
    ensures
        r < len,
        (match prev {
            Some(p) => len > 1 ==> r != p,
            None => true,
        }),
{
    match prev {
        Some(p) => {
            if len > 1 && idx == p {
                if idx + 1 == len {
                    0
                } else {
                    idx + 1
                }
            } else {
                idx
            }
        },
        None => idx,
    }
}

/// The default selector: a linear-congruential pseudo-random stream. The
/// draw is uniform only approximately; what the engine relies on is the
/// [`WordSelector`] contract alone.
pub struct RandomSelector {
    state: u64,
}

impl RandomSelector {
    /// A selector with a deterministic seed.
    pub fn new(seed: u64) -> (r: RandomSelector)
    {
        RandomSelector { state: seed ^ 0x9e3779b97f4a7c15u64 }
    }

    /// A selector seeded from a clock, for hosts that supply no seed.
    pub fn from_clock<C: Clock>(clock: &mut C) -> (r: RandomSelector)
    {
        let now = clock.now_seconds();
        RandomSelector::new(now)
    }
}

impl WordSelector for RandomSelector {
    fn next_index(&mut self, len: usize, prev: Option<usize>) -> (r: usize) {
        self.state = self.state.wrapping_mul(6364136223846793005u64).wrapping_add(
            1442695040888963407u64,
        );
        let x = self.state ^ (self.state >> 33);
        let idx64: u64 = x % (len as u64);
        proof {
            assert(idx64 < len as u64) by (nonlinear_arith)
                requires
                    len as u64 > 0,
                    idx64 == x % (len as u64),
            ;
        }
        let idx: usize = idx64 as usize;
        avoid_repeat(idx, len, prev)
    }
}

/// A selector for tests and demonstrations: replays a fixed script of
/// indices, starting over when the script is exhausted. Entries outside
/// the dictionary are reduced modulo its length, and immediate repeats are
/// moved to the next position, so the selector contract holds for any
/// script.
pub struct ScriptedSelector {
    script: Vec<usize>,
    pos: usize,
}

impl ScriptedSelector {
    /// A selector replaying `script`; an empty script always picks zero.
    pub fn new(script: Vec<usize>) -> (r: ScriptedSelector)
    {
        ScriptedSelector { script, pos: 0 }
    }
}

impl WordSelector for ScriptedSelector {
    fn next_index(&mut self, len: usize, prev: Option<usize>) -> (r: usize) {
        let raw: usize = if self.script.len() == 0 {
            0
        } else {
            let p = self.pos % self.script.len();
            let v = self.script[p];
            self.pos = if p + 1 == self.script.len() {
                0
            } else {
                p + 1
            };
            v
        };
        let idx: usize = if raw < len {
            raw
        } else {
            let m = raw % len;
            proof {
                assert(m < len) by (nonlinear_arith)
                    requires
                        len > 0,
                        m == raw % len,
                ;
            }
            m
        };
        avoid_repeat(idx, len, prev)
    }
}

} // verus!
