//! Bits of 64-bit words, and the facts about them that the sets rely on.

use vstd::prelude::*;

verus! {

/// Whether bit `b` of `w` is set.
pub open spec fn bit(w: u64, b: u64) -> bool {
    (w >> b) & 1u64 == 1u64
}

/// Whether bit `x` of a sequence of words is set, counting from bit 0 of
/// the first word.
pub open spec fn word_bit(words: Seq<u64>, x: int) -> bool {
    bit(words[x / 64], (x % 64) as u64)
}

/// The bits of a sequence of words.
pub open spec fn word_bits(words: Seq<u64>) -> Seq<bool> {
    Seq::new(words.len() * 64, |x: int| word_bit(words, x))
}

/// How many entries of `s` are false.
pub open spec fn count_false(s: Seq<bool>) -> nat
    decreases s.len(),
{
    if s.len() == 0 {
        0
    } else {
        count_false(s.drop_last()) + if s.last() { 0nat } else { 1nat }
    }
}

pub proof fn lemma_mask_test(w: u64, b: u64)
    requires
        b < 64,
    ensures
        (w & (1u64 << b) == 0u64) == !bit(w, b),
{
    assert((w & (1u64 << b) == 0u64) == ((w >> b) & 1u64 != 1u64)) by (bit_vector)
        requires
            b < 64,
    ;
}

pub proof fn lemma_mask_set(w: u64, b: u64)
    requires
        b < 64,
    ensures
        forall|c: u64| c < 64 ==> #[trigger] bit(w | (1u64 << b), c) == (c == b || bit(w, c)),
{
    assert forall|c: u64| c < 64 implies #[trigger] bit(w | (1u64 << b), c) == (c == b || bit(w, c)) by {
        assert((((w | (1u64 << b)) >> c) & 1u64 == 1u64) == (c == b || (w >> c) & 1u64 == 1u64)) by (bit_vector)
            requires
                b < 64,
                c < 64,
        ;
    }
}

pub proof fn lemma_mask_clear(w: u64, b: u64)
    requires
        b < 64,
    ensures
        forall|c: u64| c < 64 ==> #[trigger] bit(w & !(1u64 << b), c) == (c != b && bit(w, c)),
{
    assert forall|c: u64| c < 64 implies #[trigger] bit(w & !(1u64 << b), c) == (c != b && bit(w, c)) by {
        assert((((w & !(1u64 << b)) >> c) & 1u64 == 1u64) == (c != b && (w >> c) & 1u64 == 1u64)) by (bit_vector)
            requires
                b < 64,
                c < 64,
        ;
    }
}

pub proof fn lemma_fill_from(r: u64)
    requires
        r < 64,
    ensures
        forall|c: u64| c < 64 ==> #[trigger] bit(!0u64 << r, c) == (c >= r),
        forall|c: u64| c < 64 ==> !#[trigger] bit(0u64, c),
{
    assert forall|c: u64| c < 64 implies #[trigger] bit(!0u64 << r, c) == (c >= r) by {
        assert((((!0u64 << r) >> c) & 1u64 == 1u64) == (c >= r)) by (bit_vector)
            requires
                r < 64,
                c < 64,
        ;
    }
    assert forall|c: u64| c < 64 implies !#[trigger] bit(0u64, c) by {
        assert(((0u64 >> c) & 1u64) != 1u64) by (bit_vector);
    }
}

/// Changing one word changes the bits of that word only.
pub proof fn lemma_word_update(words: Seq<u64>, i: int, w: u64)
    requires
        0 <= i < words.len(),
    ensures
        forall|x: int| 0 <= x < words.len() * 64 && x / 64 != i
            ==> #[trigger] word_bit(words.update(i, w), x) == word_bit(words, x),
        forall|x: int| 0 <= x < words.len() * 64 && x / 64 == i
            ==> #[trigger] word_bit(words.update(i, w), x) == bit(w, (x % 64) as u64),
{
}

/// Setting one false entry to true lowers the count of false entries by one.
pub proof fn lemma_count_false_update(s: Seq<bool>, i: int, v: bool)
    requires
        0 <= i < s.len(),
    ensures
        count_false(s.update(i, v)) + (if s[i] { 0int } else { 1int })
            == count_false(s) + (if v { 0int } else { 1int }),
    decreases s.len(),
{
    let t = s.update(i, v);
    if i == s.len() - 1 {
        assert(t.drop_last() =~= s.drop_last());
    } else {
        lemma_count_false_update(s.drop_last(), i, v);
        assert(t.drop_last() =~= s.drop_last().update(i, v));
    }
}

pub proof fn lemma_count_false_bound(s: Seq<bool>)
    ensures
        count_false(s) <= s.len(),
    decreases s.len(),
{
    if s.len() > 0 {
        lemma_count_false_bound(s.drop_last());
    }
}

} // verus!
