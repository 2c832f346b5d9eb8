//! A fixed-size set of small integers that counts its absent members.

use vstd::prelude::*;
use crate::utils::bits::{
    bit, count_false, lemma_count_false_bound, lemma_count_false_update, lemma_fill_from,
    lemma_mask_clear, lemma_mask_set, lemma_mask_test, lemma_word_update, word_bit, word_bits,
};

verus! {

/// A set of the integers below its capacity, one bit each. The positions
/// between the requested size and the capacity (a multiple of 64) count as
/// present from the start, so that `unset` counts the absent ones below
/// the size.
pub struct BitSet {
    unset: usize,
    store: Vec<u64>,
}

/// Whether the first `n` entries of `s` are `x >= size`.
pub open spec fn filled_from(s: Seq<bool>, size: int) -> bool {
    forall|x: int| 0 <= x < s.len() ==> s[x] == (x >= size)
}

proof fn lemma_count_filled(s: Seq<bool>, size: int)
    requires
        filled_from(s, size),
        0 <= size,
    ensures
        count_false(s) == if s.len() < size { s.len() as int } else { size },
    decreases s.len(),
{
    if s.len() > 0 {
        lemma_count_filled(s.drop_last(), size);
    }
}

impl BitSet {
    /// Membership of each position below the capacity.
    pub closed spec fn view(&self) -> Seq<bool> {
        word_bits(self.store@)
    }

    pub closed spec fn wf(&self) -> bool {
        &&& self.unset == count_false(self@)
        &&& self@.len() <= usize::MAX
    }

    /// The set of `0..size` with no member.
    pub fn new(size: usize) -> (s: BitSet)
        requires
            size <= usize::MAX - 64,
        ensures
            s.wf(),
            size <= s@.len() < size + 64,
            filled_from(s@, size as int),
            count_false(s@) == size,
    {
        let words: usize = size / 64 + if size % 64 > 0 { 1usize } else { 0usize };
        let mut store: Vec<u64> = Vec::new();
        let mut i: usize = 0;
        while i < words
            invariant
                i <= words,
                store@.len() == i,
                forall|j: int| 0 <= j < i ==> store@[j] == 0u64,
            decreases words - i,
        {
            store.push(0);
            i = i + 1;
        }
        let rem: u64 = (size % 64) as u64;
        if rem > 0 {
            store.set(words - 1, !0u64 << rem);
        }
        let s = BitSet { unset: size, store };
        proof {
            lemma_fill_from(rem);
            assert forall|x: int| 0 <= x < s@.len() implies s@[x] == (x >= size) by {
                assert(word_bit(s.store@, x) == s@[x]);
                if rem > 0 && x / 64 == words - 1 {
                    assert(bit(s.store@[x / 64], (x % 64) as u64) == ((x % 64) as u64 >= rem));
                } else {
                    assert(bit(s.store@[x / 64], (x % 64) as u64) == false);
                }
            }
            lemma_count_filled(s@, size as int);
        }
        s
    }

    /// How many positions below the size are absent.
    pub fn unset(&self) -> (n: usize)
        requires
            self.wf(),
        ensures
            n == count_false(self@),
    {
        self.unset
    }

    pub fn contains(&self, x: usize) -> (r: bool)
        requires
            self.wf(),
            x < self@.len(),
        ensures
            r == self@[x as int],
    {
        let word = x / 64;
        let b = (x % 64) as u64;
        proof {
            lemma_mask_test(self.store@[word as int], b);
        }
        self.store[word] & (1u64 << b) != 0
    }

    /// Adds `x`; returns whether it was absent.
    pub fn insert(&mut self, x: usize) -> (r: bool)
        requires
            old(self).wf(),
            x < old(self)@.len(),
        ensures
            final(self).wf(),
            final(self)@ == old(self)@.update(x as int, true),
            r == !old(self)@[x as int],
    {
        let word = x / 64;
        let b = (x % 64) as u64;
        let w = self.store[word];
        proof {
            lemma_mask_test(w, b);
            lemma_mask_set(w, b);
            lemma_word_update(self.store@, word as int, w | (1u64 << b));
        }
        let inserted = w & (1u64 << b) == 0;
        let ghost before = self@;
        self.store.set(word, w | (1u64 << b));
        proof {
            assert(self@ =~= before.update(x as int, true)) by {
                assert forall|y: int| 0 <= y < before.len() implies self@[y] == before.update(x as int, true)[y] by {
                    assert(word_bit(self.store@, y) == self@[y]);
                    if y / 64 == word as int {
                        assert((y % 64) as u64 == b ==> y == x);
                    }
                }
            }
            lemma_count_false_update(before, x as int, true);
        }
        if inserted {
            self.unset = self.unset - 1;
        }
        inserted
    }

    /// Removes `x`; returns whether it was present.
    pub fn remove(&mut self, x: usize) -> (r: bool)
        requires
            old(self).wf(),
            x < old(self)@.len(),
        ensures
            final(self).wf(),
            final(self)@ == old(self)@.update(x as int, false),
            r == old(self)@[x as int],
    {
        let word = x / 64;
        let b = (x % 64) as u64;
        let w = self.store[word];
        proof {
            lemma_mask_test(w, b);
            lemma_mask_clear(w, b);
            lemma_word_update(self.store@, word as int, w & !(1u64 << b));
        }
        let present = w & (1u64 << b) != 0;
        let ghost before = self@;
        self.store.set(word, w & !(1u64 << b));
        proof {
            assert(self@ =~= before.update(x as int, false)) by {
                assert forall|y: int| 0 <= y < before.len() implies self@[y] == before.update(x as int, false)[y] by {
                    assert(word_bit(self.store@, y) == self@[y]);
                    if y / 64 == word as int {
                        assert((y % 64) as u64 == b ==> y == x);
                    }
                }
            }
            lemma_count_false_update(before, x as int, false);
            lemma_count_false_bound(self@);
        }
        if present {
            self.unset = self.unset + 1;
        }
        present
    }
}

} // verus!
