//! A stack of values and holes with lazy checkpoint/restore.
//!
//! Between `push_checkpoint` and the matching `pop_checkpoint` the stack may
//! be changed freely; `pop_checkpoint` brings back exactly the contents it had
//! at the checkpoint. Only the slots below the lowest slot touched since the
//! checkpoint (the watermark) are kept in place; the rest are saved, in
//! reverse order, to a backup area as they are first touched.

use vstd::prelude::*;
use vstd::laws_eq::obeys_concrete_eq;
use vstd::std_specs::cmp::PartialEqSpec;

verus! {

#[derive(Clone, Copy, Debug, PartialEq, Eq)]
struct Checkpoint {
    stack_height: usize,
    backup_start: usize,
}

#[derive(Clone)]
pub struct Stack<T> {
    contents: Vec<Option<T>>,
    backup: Vec<Option<T>>,
    checkpoints: Vec<Checkpoint>,
    saved: Ghost<Seq<Seq<Option<T>>>>,
}

/// The segment of the backup area that belongs to checkpoint `k`.
spec fn segment<T>(backup: Seq<Option<T>>, cps: Seq<Checkpoint>, k: int) -> Seq<Option<T>> {
    let end = if k + 1 < cps.len() { cps[k + 1].backup_start as int } else { backup.len() as int };
    backup.subrange(cps[k].backup_start as int, end)
}

/// Slots below this index still hold what they held at checkpoint `k`.
spec fn watermark<T>(backup: Seq<Option<T>>, cps: Seq<Checkpoint>, k: int) -> int {
    cps[k].stack_height - segment(backup, cps, k).len()
}

/// What checkpoint `k` needs to be restorable: its saved contents are the
/// kept prefix of the level above it (or of the live contents, for the
/// latest checkpoint) followed by its backup segment, reversed.
spec fn level_ok<T>(
    contents: Seq<Option<T>>,
    b: Seq<Option<T>>,
    cps: Seq<Checkpoint>,
    s: Seq<Seq<Option<T>>>,
    k: int,
) -> bool {
    &&& cps[k].backup_start <= b.len()
    &&& (k + 1 < cps.len() ==> cps[k].backup_start <= cps[k + 1].backup_start)
    &&& segment(b, cps, k).len() <= cps[k].stack_height
    &&& s[k].len() == cps[k].stack_height
    &&& {
        let below = if k + 1 < cps.len() { s[k + 1] } else { contents };
        &&& watermark(b, cps, k) <= below.len()
        &&& s[k] == below.take(watermark(b, cps, k)) + segment(b, cps, k).reverse()
    }
}

impl<T: Copy + PartialEq> Stack<T> {
    /// The slots, bottom first.
    pub closed spec fn view(&self) -> Seq<Option<T>> {
        self.contents@
    }

    /// The contents at each open checkpoint, oldest first.
    pub closed spec fn saved(&self) -> Seq<Seq<Option<T>>> {
        self.saved@
    }

    pub closed spec fn wf(&self) -> bool {
        &&& self.saved@.len() == self.checkpoints@.len()
        &&& forall|k: int| 0 <= k < self.checkpoints@.len()
            ==> #[trigger] level_ok(self.contents@, self.backup@, self.checkpoints@, self.saved@, k)
    }

    pub fn new() -> (s: Self)
        ensures
            s.wf(),
            s@ == Seq::<Option<T>>::empty(),
            s.saved() == Seq::<Seq<Option<T>>>::empty(),
    {
        Stack { contents: Vec::new(), backup: Vec::new(), checkpoints: Vec::new(), saved: Ghost(Seq::empty()) }
    }

    pub fn len(&self) -> (n: usize)
        ensures
            n == self@.len(),
    {
        self.contents.len()
    }

    /// Remembers the current contents, to be restored by `pop_checkpoint`.
    pub fn push_checkpoint(&mut self)
        requires
            old(self).wf(),
        ensures
            final(self).wf(),
            final(self)@ == old(self)@,
            final(self).saved() == old(self).saved().push(old(self)@),
    {
        let ghost old_cps = self.checkpoints@;
        let ghost b = self.backup@;
        let ghost c = self.contents@;
        let ghost s = self.saved@;
        let cp = Checkpoint { stack_height: self.contents.len(), backup_start: self.backup.len() };
        self.checkpoints.push(cp);
        self.saved = Ghost(s.push(c));
        proof {
            let cps = self.checkpoints@;
            let t = old_cps.len() as int;
            assert forall|k: int| 0 <= k < cps.len() implies #[trigger] level_ok(self.contents@, b, cps, self.saved@, k) by {
                if k < t {
                    assert(level_ok(c, b, old_cps, s, k));
                    assert(cps[k] == old_cps[k]);
                    assert(segment(b, cps, k) == segment(b, old_cps, k));
                    if k + 1 < t {
                        assert(cps[k + 1] == old_cps[k + 1]);
                    }
                } else {
                    assert(segment(b, cps, k) =~= Seq::<Option<T>>::empty());
                    assert(c.take(c.len() as int) =~= c);
                    assert(c + Seq::<Option<T>>::empty().reverse() =~= c);
                }
            }
        }
    }

    /// Restores the contents remembered by the latest open checkpoint.
    pub fn pop_checkpoint(&mut self)
        requires
            old(self).wf(),
            old(self).saved().len() > 0,
        ensures
            final(self).wf(),
            final(self)@ == old(self).saved().last(),
            final(self).saved() == old(self).saved().drop_last(),
    {
        let ghost cps0 = self.checkpoints@;
        let ghost b0 = self.backup@;
        let ghost s0 = self.saved@;
        let ghost t = cps0.len() - 1;
        let ghost c0 = self.contents@;
        proof {
            assert(level_ok(c0, b0, cps0, s0, t));
        }
        let checkpoint = self.checkpoints.pop().unwrap();
        proof {
            assert(level_ok(self.contents@, b0, cps0, s0, t));
            assert(checkpoint == cps0[t]);
            assert(cps0[t].backup_start <= b0.len());
        }
        let saved_len = self.backup.len() - checkpoint.backup_start;
        self.contents.truncate(checkpoint.stack_height - saved_len);
        let ghost base = self.contents@;
        let ghost seg = b0.subrange(checkpoint.backup_start as int, b0.len() as int);
        while self.backup.len() > checkpoint.backup_start
            invariant
                checkpoint.backup_start <= self.backup@.len() <= b0.len(),
                self.backup@ == b0.subrange(0, self.backup@.len() as int),
                self.contents@ == base + seg.subrange(self.backup@.len() - checkpoint.backup_start, seg.len() as int).reverse(),
                seg == b0.subrange(checkpoint.backup_start as int, b0.len() as int),
                self.checkpoints@ == cps0.drop_last(),
                self.saved@ == s0,
            decreases self.backup@.len(),
        {
            let ghost n = self.backup@.len();
            let x = self.backup.pop().unwrap();
            self.contents.push(x);
            proof {
                let i = n - checkpoint.backup_start;
                assert(x == seg[i - 1]);
                assert(seg.subrange(i - 1, seg.len() as int).reverse()
                    =~= seg.subrange(i, seg.len() as int).reverse().push(seg[i - 1]));
                assert(self.backup@ =~= b0.subrange(0, n - 1));
            }
        }
        self.saved = Ghost(s0.drop_last());
        proof {
            assert(seg.subrange(0, seg.len() as int) =~= seg);
            assert(seg == segment(b0, cps0, t));
            assert(self.contents@ == s0[t]);
            let cps = self.checkpoints@;
            let b = self.backup@;
            assert(b =~= b0.subrange(0, cps0[t].backup_start as int));
            assert forall|k: int| 0 <= k < cps0.len() - 1 implies
                #[trigger] cps0[k].backup_start <= cps0[k + 1].backup_start by {
                assert(level_ok(c0, b0, cps0, s0, k));
            }
            assert forall|k: int| 0 <= k < cps.len() implies #[trigger] level_ok(self.contents@, b, cps, self.saved@, k) by {
                assert(level_ok(c0, b0, cps0, s0, k));
                assert(cps[k] == cps0[k]);
                assert(cps0[k + 1].backup_start <= cps0[t].backup_start) by {
                    Self::lemma_starts_sorted(cps0, b0, k + 1, t);
                }
                assert(self.saved@[k] == s0[k]);
                if k + 1 < cps.len() {
                    assert(cps[k + 1] == cps0[k + 1]);
                    assert(self.saved@[k + 1] == s0[k + 1]);
                } else {
                    assert(k + 1 == t);
                }
                assert(segment(b, cps, k) =~= segment(b0, cps0, k));
                assert(watermark(b, cps, k) == watermark(b0, cps0, k));
                assert(cps[k].backup_start <= b.len());
                assert(k + 1 < cps.len() ==> cps[k].backup_start <= cps[k + 1].backup_start);
                assert(segment(b, cps, k).len() <= cps[k].stack_height);
                assert(self.saved@[k].len() == cps[k].stack_height);
                let below = if k + 1 < cps.len() { self.saved@[k + 1] } else { self.contents@ };
                assert(below == s0[k + 1]);
                assert(watermark(b, cps, k) <= below.len());
            }
        }
    }

    /// Saves, before they change, the slots from `index` up to the
    /// watermark of the latest checkpoint.
    fn backup_from(&mut self, index: usize)
        requires
            old(self).wf(),
            index <= old(self)@.len(),
        ensures
            final(self).wf(),
            final(self)@ == old(self)@,
            final(self).saved() == old(self).saved(),
            final(self).checkpoints@ == old(self).checkpoints@,
            final(self).checkpoints@.len() > 0 ==> watermark(
                final(self).backup@,
                final(self).checkpoints@,
                final(self).checkpoints@.len() - 1,
            ) <= index,
    {
        let n = self.checkpoints.len();
        if n == 0 {
            return;
        }
        let checkpoint = self.checkpoints[n - 1];
        let ghost cps = self.checkpoints@;
        let ghost b0 = self.backup@;
        let ghost c = self.contents@;
        let ghost s = self.saved@;
        let ghost t = n - 1;
        proof {
            assert(level_ok(c, b0, cps, s, t as int));
        }
        let backed_up = self.backup.len() - checkpoint.backup_start;
        let wm = checkpoint.stack_height - backed_up;
        if index < wm {
            let mut j = wm;
            while j > index
                invariant
                    index <= j <= wm,
                    wm <= c.len(),
                    self.contents@ == c,
                    self.checkpoints@ == cps,
                    self.saved@ == s,
                    self.backup@ == b0 + c.subrange(j as int, wm as int).reverse(),
                decreases j,
            {
                let x = self.contents[j - 1];
                self.backup.push(x);
                proof {
                    assert(c.subrange(j - 1, wm as int).reverse()
                        =~= c.subrange(j as int, wm as int).reverse().push(c[j - 1]));
                }
                j = j - 1;
            }
            proof {
                let b = self.backup@;
                let added = c.subrange(index as int, wm as int);
                assert forall|k: int| 0 <= k < cps.len() implies #[trigger] level_ok(c, b, cps, s, k) by {
                    assert(level_ok(c, b0, cps, s, k));
                    if k < t {
                        assert(cps[k + 1].backup_start <= b0.len()) by {
                            assert(level_ok(c, b0, cps, s, k + 1));
                        }
                        assert(segment(b, cps, k) =~= segment(b0, cps, k));
                    } else {
                        let seg0 = segment(b0, cps, k);
                        assert(segment(b, cps, k) =~= seg0 + added.reverse());
                        assert((seg0 + added.reverse()).reverse() =~= added + seg0.reverse());
                        assert(c.take(index as int) + added =~= c.take(wm as int));
                        assert(seg0.len() == b0.len() - cps[k].backup_start);
                        assert(wm == watermark(b0, cps, k));
                        assert(segment(b, cps, k).len() == seg0.len() + (wm - index));
                        assert(watermark(b, cps, k) == index);
                        assert(s[k] == c.take(wm as int) + seg0.reverse());
                        assert(s[k] =~= c.take(index as int) + segment(b, cps, k).reverse());
                    }
                }
            }
        }
    }

    /// Pushes a value, or a hole.
    pub fn push(&mut self, x: Option<T>)
        requires
            old(self).wf(),
        ensures
            final(self).wf(),
            final(self)@ == old(self)@.push(x),
            final(self).saved() == old(self).saved(),
    {
        let ghost c = self.contents@;
        self.contents.push(x);
        proof {
            let cps = self.checkpoints@;
            assert forall|k: int| 0 <= k < cps.len() implies #[trigger] level_ok(self.contents@, self.backup@, cps, self.saved@, k) by {
                assert(level_ok(c, self.backup@, cps, self.saved@, k));
                if k == cps.len() - 1 {
                    assert(self.contents@.take(watermark(self.backup@, cps, k)) =~= c.take(watermark(self.backup@, cps, k)));
                }
            }
        }
    }

    /// Pushes values, in order.
    pub fn extend(&mut self, items: &[T])
        requires
            old(self).wf(),
        ensures
            final(self).wf(),
            final(self)@ == old(self)@ + items@.map_values(|x: T| Some(x)),
            final(self).saved() == old(self).saved(),
    {
        let mut i: usize = 0;
        while i < items.len()
            invariant
                self.wf(),
                i <= items@.len(),
                self@ == old(self)@ + items@.take(i as int).map_values(|x: T| Some(x)),
                self.saved() == old(self).saved(),
            decreases items@.len() - i,
        {
            self.push(Some(items[i]));
            proof {
                assert(items@.take(i + 1).map_values(|x: T| Some(x))
                    =~= items@.take(i as int).map_values(|x: T| Some(x)).push(Some(items@[i as int])));
            }
            i = i + 1;
        }
        assert(items@.take(i as int) =~= items@);
    }

    /// Removes the top `count` slots.
    pub fn popn(&mut self, count: usize)
        requires
            old(self).wf(),
            count <= old(self)@.len(),
        ensures
            final(self).wf(),
            final(self)@ == old(self)@.take(old(self)@.len() - count),
            final(self).saved() == old(self).saved(),
    {
        let new_len = self.contents.len() - count;
        self.backup_from(new_len);
        let ghost c = self.contents@;
        self.contents.truncate(new_len);
        proof {
            let cps = self.checkpoints@;
            let b = self.backup@;
            assert forall|k: int| 0 <= k < cps.len() implies #[trigger] level_ok(self.contents@, b, cps, self.saved@, k) by {
                assert(level_ok(c, b, cps, self.saved@, k));
                if k == cps.len() - 1 {
                    assert(self.contents@.take(watermark(b, cps, k)) =~= c.take(watermark(b, cps, k)));
                }
            }
        }
    }

    /// The value at `depth` slots below the top, if there is one.
    pub fn read(&self, depth: usize) -> (r: Option<T>)
        ensures
            r == (if depth < self@.len() {
                self@[self@.len() - 1 - depth]
            } else {
                None
            }),
    {
        let n = self.contents.len();
        if n == 0 || depth > n - 1 {
            return None;
        }
        self.contents[n - 1 - depth]
    }

    /// How far below the top the uppermost slot holding `x` is.
    pub fn depth(&self, x: T) -> (d: usize)
        requires
            obeys_concrete_eq::<T>(),
            self@.contains(Some(x)),
        ensures
            d < self@.len(),
            self@[self@.len() - 1 - d] == Some(x),
            forall|j: int| self@.len() - 1 - d < j < self@.len() ==> self@[j] != Some(x),
    {
        reveal(obeys_concrete_eq);
        let n = self.contents.len();
        let mut i = n;
        while i > 0
            invariant
                i <= n,
                n == self@.len(),
                forall|j: int| i <= j < n ==> self@[j] != Some(x),
                self@.contains(Some(x)),
                obeys_concrete_eq::<T>(),
                T::obeys_eq_spec(),
                forall|a: T, b: T| a.eq_spec(&b) <==> a == b,
            decreases i,
        {
            if let Some(y) = self.contents[i - 1] {
                if y == x {
                    return n - i;
                }
            }
            i = i - 1;
        }
        proof {
            let j = choose|j: int| 0 <= j < self@.len() && self@[j] == Some(x);
            assert(false);
        }
        0
    }

    /// Exchanges the top slot with the slot `depth` below it.
    pub fn swap(&mut self, depth: usize)
        requires
            old(self).wf(),
            depth < old(self)@.len(),
        ensures
            final(self).wf(),
            final(self)@ == old(self)@
                .update(old(self)@.len() - 1 - depth, old(self)@.last())
                .update(old(self)@.len() - 1, old(self)@[old(self)@.len() - 1 - depth]),
            final(self).saved() == old(self).saved(),
    {
        let top = self.contents.len() - 1;
        let index = top - depth;
        self.backup_from(index);
        let ghost c = self.contents@;
        let a = self.contents[index];
        let b = self.contents[top];
        self.contents.set(index, b);
        self.contents.set(top, a);
        proof {
            let cps = self.checkpoints@;
            let bk = self.backup@;
            assert forall|k: int| 0 <= k < cps.len() implies #[trigger] level_ok(self.contents@, bk, cps, self.saved@, k) by {
                assert(level_ok(c, bk, cps, self.saved@, k));
                if k == cps.len() - 1 {
                    assert(self.contents@.take(watermark(bk, cps, k)) =~= c.take(watermark(bk, cps, k)));
                }
            }
        }
    }

    /// The slots, bottom first.
    pub fn contents(&self) -> (r: &[Option<T>])
        ensures
            r@ == self@,
    {
        self.contents.as_slice()
    }

    /// Backup starts never decrease along the checkpoint list.
    proof fn lemma_starts_sorted(cps: Seq<Checkpoint>, b: Seq<Option<T>>, i: int, j: int)
        requires
            0 <= i <= j < cps.len(),
            forall|k: int| 0 <= k < cps.len() - 1 ==> #[trigger] cps[k].backup_start <= cps[k + 1].backup_start,
        ensures
            cps[i].backup_start <= cps[j].backup_start,
        decreases j - i,
    {
        if i < j {
            Self::lemma_starts_sorted(cps, b, i + 1, j);
            assert(cps[i].backup_start <= cps[i + 1].backup_start);
        }
    }
}

/// A checkpoint restores the stack. Every operation but the two on
/// checkpoints keeps `saved()`, and a nested checkpoint that is popped
/// leaves it as it was; so when `pop_checkpoint` meets the list that the
/// matching `push_checkpoint` made, it gives back the contents of that
/// moment and the checkpoints before it.
pub proof fn lemma_checkpoint_restores<T: Copy + PartialEq>(before: Stack<T>, marked: Stack<T>, later: Stack<T>, restored: Stack<T>)
    requires
        marked@ == before@,
        marked.saved() == before.saved().push(before@),
        later.saved() == marked.saved(),
        restored@ == later.saved().last(),
        restored.saved() == later.saved().drop_last(),
    ensures
        restored@ == before@,
        restored.saved() == before.saved(),
{
    assert(before.saved().push(before@).drop_last() =~= before.saved());
}

} // verus!
