//! A fixed-size set of small integers.

use vstd::prelude::*;
use crate::utils::bits::{bit, lemma_fill_from, lemma_mask_set, lemma_mask_test, lemma_word_update, word_bit, word_bits};

verus! {

/// A set of the integers below its capacity (the requested size rounded up
/// to a multiple of 64), one bit each.
pub struct BitSet {
    store: Vec<u64>,
}

impl BitSet {
    /// Membership of each position below the capacity.
    pub closed spec fn view(&self) -> Seq<bool> {
        word_bits(self.store@)
    }

    /// The empty set of `0..size`.
    pub fn new(size: usize) -> (s: BitSet)
        requires
            size <= usize::MAX - 64,
        ensures
            size <= s@.len() < size + 64,
            forall|x: int| 0 <= x < s@.len() ==> !s@[x],
    {
        let words: usize = size / 64 + if size % 64 > 0 { 1usize } else { 0usize };
        let mut store: Vec<u64> = Vec::new();
        let mut i: usize = 0;
        while i < words
            invariant
                i <= words,
                store@.len() == i,
                forall|j: int| 0 <= j < i ==> store@[j] == 0u64,
            decreases words - i,
        {
            store.push(0);
            i = i + 1;
        }
        let s = BitSet { store };
        proof {
            lemma_fill_from(0);
            assert forall|x: int| 0 <= x < s@.len() implies !s@[x] by {
                assert(word_bit(s.store@, x) == s@[x]);
                assert(!bit(s.store@[x / 64], (x % 64) as u64));
            }
        }
        s
    }

    /// Adds `x`; returns whether it was absent.
    pub fn insert(&mut self, x: usize) -> (r: bool)
        requires
            x < old(self)@.len(),
        ensures
            final(self)@ == old(self)@.update(x as int, true),
            r == !old(self)@[x as int],
    {
        let word = x / 64;
        let b = (x % 64) as u64;
        let w = self.store[word];
        proof {
            lemma_mask_test(w, b);
            lemma_mask_set(w, b);
            lemma_word_update(self.store@, word as int, w | (1u64 << b));
        }
        let inserted = w & (1u64 << b) == 0;
        let ghost before = self@;
        self.store.set(word, w | (1u64 << b));
        proof {
            assert forall|y: int| 0 <= y < before.len() implies self@[y] == before.update(x as int, true)[y] by {
                assert(word_bit(self.store@, y) == self@[y]);
                if y / 64 == word as int {
                    assert((y % 64) as u64 == b ==> y == x);
                }
            }
            assert(self@ =~= before.update(x as int, true));
        }
        inserted
    }
}

} // verus!
