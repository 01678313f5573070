//! The store of dead ends: one bit for each of the 2^26 letter sets.

use crate::letters::{WordBitmap, LETTER_MASK};
use vstd::prelude::*;

verus! {

/// Number of 64-bit cells that hold one bit per letter set.
pub const STORE_CELLS: usize = 0x10_0000;

/// A set of letter sets that only grows.
pub struct DeadEnds {
    pub cells: Vec<u64>,
}

impl DeadEnds {
    /// The store has a bit for every letter set.
    pub open spec fn wf(&self) -> bool {
        self.cells@.len() == STORE_CELLS
    }

    /// Whether `state` is marked.
    pub open spec fn has(&self, state: u32) -> bool {
        &&& state <= LETTER_MASK
        &&& (self.cells@[(state / 64) as int] >> ((state % 64) as u64)) & 1 == 1
    }

    /// The marked letter sets.
    pub open spec fn view(&self) -> Set<u32> {
        Set::new(|state: u32| self.has(state))
    }

    /// A store in which nothing is marked.
    pub fn new() -> (store: DeadEnds)
        ensures
            store.wf(),
            store@ == Set::<u32>::empty(),
    {
        let cells: Vec<u64> = vec![0u64; STORE_CELLS];
        let store = DeadEnds { cells };
        proof {
            assert forall|state: u32| !store.has(state) by {
                let off: u64 = (state % 64) as u64;
                assert((0u64 >> off) & 1 == 0) by (bit_vector);
            }
            assert(store@ =~= Set::<u32>::empty());
        }
        store
    }

    /// Whether `word` has been marked as a dead end.
    pub fn is_dead_end(&self, word: WordBitmap) -> (r: bool)
        requires
            self.wf(),
            word.0 <= LETTER_MASK,
        ensures
            r == self@.contains(word.0),
    {
        let index: u32 = word.0;
        let cell: usize = (index / 64) as usize;
        let offset: u64 = (index % 64) as u64;
        let r = self.cells[cell] & (1u64 << offset) != 0;
        proof {
            let x = self.cells@[cell as int];
            assert(offset < 64 ==> ((x & (1u64 << offset) != 0) <==> ((x >> offset) & 1 == 1)))
                by (bit_vector);
        }
        r
    }

    /// Marks `word` as a dead end. Marking it again changes nothing.
    pub fn mark_dead_end(&mut self, word: WordBitmap)
        requires
            old(self).wf(),
            word.0 <= LETTER_MASK,
        ensures
            final(self).wf(),
            final(self)@ == old(self)@.insert(word.0),
    {
        let index: u32 = word.0;
        let cell: usize = (index / 64) as usize;
        let offset: u64 = (index % 64) as u64;
        let before: u64 = self.cells[cell];
        self.cells.set(cell, before | (1u64 << offset));
        proof {
            let after = before | (1u64 << offset);
            assert forall|state: u32| self.has(state) <==> (old(self).has(state) || state
                == word.0) by {
                let c = (state / 64) as int;
                let o: u64 = (state % 64) as u64;
                if state <= LETTER_MASK {
                    if c == cell as int {
                        assert(offset < 64 && o < 64 ==> ((((before | (1u64 << offset)) >> o) & 1
                            == 1) <==> (((before >> o) & 1 == 1) || o == offset)))
                            by (bit_vector);
                    } else {
                        assert(self.cells@[c] == old(self).cells@[c]);
                    }
                }
            }
            assert(self@ =~= old(self)@.insert(word.0));
        }
    }
}

} // verus!
