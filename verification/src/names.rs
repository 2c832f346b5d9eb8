//! A map from names (byte strings) to identifiers, with later bindings
//! replacing earlier ones.

use vstd::prelude::*;
use crate::Id;

verus! {

/// Byte-wise equality of two byte strings.
pub fn bytes_eq(a: &[u8], b: &[u8]) -> (r: bool)
    ensures
        r == (a@ == b@),
{
    if a.len() != b.len() {
        return false;
    }
    let mut i: usize = 0;
    while i < a.len()
        invariant
            a@.len() == b@.len(),
            i <= a@.len(),
            forall|j: int| 0 <= j < i ==> a@[j] == b@[j],
        decreases a@.len() - i,
    {
        if a[i] != b[i] {
            return false;
        }
        i = i + 1;
    }
    assert(a@ =~= b@);
    true
}

/// A fresh vector holding the same bytes.
pub fn copy_bytes(a: &[u8]) -> (r: Vec<u8>)
    ensures
        r@ == a@,
{
    let mut r: Vec<u8> = Vec::new();
    let mut i: usize = 0;
    while i < a.len()
        invariant
            i <= a@.len(),
            r@ == a@.take(i as int),
        decreases a@.len() - i,
    {
        r.push(a[i]);
        proof {
            assert(a@.take(i + 1) =~= a@.take(i as int).push(a@[i as int]));
        }
        i = i + 1;
    }
    assert(a@.take(i as int) =~= a@);
    r
}

pub struct NameMap {
    entries: Vec<(Vec<u8>, Id)>,
}

impl NameMap {
    pub closed spec fn wf(&self) -> bool {
        forall|i: int, j: int|
            0 <= i < self.entries@.len() && 0 <= j < self.entries@.len() && i != j
                ==> #[trigger] self.entries@[i].0@ != #[trigger] self.entries@[j].0@
    }

    pub closed spec fn view(&self) -> Map<Seq<u8>, Id> {
        Map::new(
            |k: Seq<u8>| exists|i: int| 0 <= i < self.entries@.len() && #[trigger] self.entries@[i].0@ == k,
            |k: Seq<u8>| self.entries@[choose|i: int| 0 <= i < self.entries@.len() && #[trigger] self.entries@[i].0@ == k].1,
        )
    }

    pub fn new() -> (m: NameMap)
        ensures
            m.wf(),
            m@ == Map::<Seq<u8>, Id>::empty(),
    {
        let m = NameMap { entries: Vec::new() };
        assert(m@ =~= Map::<Seq<u8>, Id>::empty());
        m
    }

    fn find(&self, key: &[u8]) -> (r: Option<usize>)
        requires
            self.wf(),
        ensures
            match r {
                Some(i) => i < self.entries@.len() && self.entries@[i as int].0@ == key@,
                None => !self@.contains_key(key@),
            },
    {
        let mut i: usize = 0;
        while i < self.entries.len()
            invariant
                i <= self.entries@.len(),
                forall|j: int| 0 <= j < i ==> #[trigger] self.entries@[j].0@ != key@,
            decreases self.entries@.len() - i,
        {
            if bytes_eq(self.entries[i].0.as_slice(), key) {
                return Some(i);
            }
            i = i + 1;
        }
        None
    }

    pub fn get(&self, key: &[u8]) -> (r: Option<Id>)
        requires
            self.wf(),
        ensures
            match r {
                Some(id) => self@.contains_key(key@) && self@[key@] == id,
                None => !self@.contains_key(key@),
            },
    {
        match self.find(key) {
            Some(i) => {
                proof {
                    let j = choose|j: int| 0 <= j < self.entries@.len() && #[trigger] self.entries@[j].0@ == key@;
                    if j != i {
                        assert(self.entries@[j].0@ != self.entries@[i as int].0@);
                    }
                }
                Some(self.entries[i].1)
            },
            None => None,
        }
    }

    /// Binds `key` to `id`, returning what it was bound to before.
    pub fn insert(&mut self, key: &[u8], id: Id) -> (r: Option<Id>)
        requires
            old(self).wf(),
        ensures
            final(self).wf(),
            final(self)@ == old(self)@.insert(key@, id),
            match r {
                Some(prev) => old(self)@.contains_key(key@) && old(self)@[key@] == prev,
                None => !old(self)@.contains_key(key@),
            },
    {
        let ghost old_map = self@;
        let ghost old_entries = self.entries@;
        match self.find(key) {
            Some(i) => {
                proof {
                    let j = choose|j: int| 0 <= j < old_entries.len() && #[trigger] old_entries[j].0@ == key@;
                    if j != i {
                        assert(old_entries[j].0@ != old_entries[i as int].0@);
                    }
                }
                let prev = self.entries[i].1;
                let k = copy_bytes(key);
                self.entries.set(i, (k, id));
                proof {
                    assert forall|a: int, b: int|
                        0 <= a < self.entries@.len() && 0 <= b < self.entries@.len() && a != b
                        implies #[trigger] self.entries@[a].0@ != #[trigger] self.entries@[b].0@ by {
                        assert(old_entries[a].0@ != old_entries[b].0@);
                    }
                    assert forall|k2: Seq<u8>| #[trigger] self@.contains_key(k2) == old_map.insert(key@, id).contains_key(k2) by {
                        if old_map.contains_key(k2) {
                            let w = choose|w: int| 0 <= w < old_entries.len() && #[trigger] old_entries[w].0@ == k2;
                            if w == i {
                                assert(self.entries@[w].0@ == k2);
                            } else {
                                assert(self.entries@[w].0@ == k2);
                            }
                        }
                        if self@.contains_key(k2) {
                            let w = choose|w: int| 0 <= w < self.entries@.len() && #[trigger] self.entries@[w].0@ == k2;
                            if w != i {
                                assert(old_entries[w].0@ == k2);
                            }
                        }
                    }
                    assert forall|k2: Seq<u8>| #[trigger] self@.contains_key(k2) implies self@[k2] == old_map.insert(key@, id)[k2] by {
                        let w = choose|w: int| 0 <= w < self.entries@.len() && #[trigger] self.entries@[w].0@ == k2;
                        if w != i {
                            assert(old_entries[w].0@ == k2);
                            let v = choose|v: int| 0 <= v < old_entries.len() && #[trigger] old_entries[v].0@ == k2;
                            if v != w {
                                assert(old_entries[v].0@ != old_entries[w].0@);
                            }
                        }
                    }
                    assert(self@ =~= old_map.insert(key@, id));
                }
                Some(prev)
            },
            None => {
                let k = copy_bytes(key);
                self.entries.push((k, id));
                proof {
                    let n = old_entries.len() as int;
                    assert forall|a: int, b: int|
                        0 <= a < self.entries@.len() && 0 <= b < self.entries@.len() && a != b
                        implies #[trigger] self.entries@[a].0@ != #[trigger] self.entries@[b].0@ by {
                        if a < n && b < n {
                            assert(old_entries[a].0@ != old_entries[b].0@);
                        } else if a == n {
                            assert(!old_map.contains_key(key@));
                            assert(old_entries[b].0@ != key@);
                        } else {
                            assert(!old_map.contains_key(key@));
                            assert(old_entries[a].0@ != key@);
                        }
                    }
                    assert forall|k2: Seq<u8>| #[trigger] self@.contains_key(k2) == old_map.insert(key@, id).contains_key(k2) by {
                        if old_map.contains_key(k2) {
                            let w = choose|w: int| 0 <= w < old_entries.len() && #[trigger] old_entries[w].0@ == k2;
                            assert(self.entries@[w].0@ == k2);
                        }
                        if k2 == key@ {
                            assert(self.entries@[n].0@ == k2);
                        }
                        if self@.contains_key(k2) {
                            let w = choose|w: int| 0 <= w < self.entries@.len() && #[trigger] self.entries@[w].0@ == k2;
                            if w != n {
                                assert(old_entries[w].0@ == k2);
                            }
                        }
                    }
                    assert forall|k2: Seq<u8>| #[trigger] self@.contains_key(k2) implies self@[k2] == old_map.insert(key@, id)[k2] by {
                        let w = choose|w: int| 0 <= w < self.entries@.len() && #[trigger] self.entries@[w].0@ == k2;
                        if w != n {
                            assert(old_entries[w].0@ == k2);
                            let v = choose|v: int| 0 <= v < old_entries.len() && #[trigger] old_entries[v].0@ == k2;
                            if v != w {
                                assert(old_entries[v].0@ != old_entries[w].0@);
                            }
                            if k2 == key@ {
                                assert(old_map.contains_key(key@));
                            }
                        } else {
                            let v = choose|v: int| 0 <= v < self.entries@.len() && #[trigger] self.entries@[v].0@ == k2;
                            if v != n {
                                assert(self.entries@[v].0@ != self.entries@[n].0@);
                            }
                        }
                    }
                    assert(self@ =~= old_map.insert(key@, id));
                }
                None
            },
        }
    }

    pub fn duplicate(&self) -> (m: NameMap)
        requires
            self.wf(),
        ensures
            m.wf(),
            m@ == self@,
    {
        let mut entries: Vec<(Vec<u8>, Id)> = Vec::new();
        let mut i: usize = 0;
        while i < self.entries.len()
            invariant
                i <= self.entries@.len(),
                entries@.len() == i,
                forall|j: int| 0 <= j < i ==> #[trigger] entries@[j].0@ == self.entries@[j].0@ && entries@[j].1 == self.entries@[j].1,
            decreases self.entries@.len() - i,
        {
            let k = copy_bytes(self.entries[i].0.as_slice());
            entries.push((k, self.entries[i].1));
            i = i + 1;
        }
        let m = NameMap { entries };
        proof {
            assert forall|a: int, b: int|
                0 <= a < m.entries@.len() && 0 <= b < m.entries@.len() && a != b
                implies #[trigger] m.entries@[a].0@ != #[trigger] m.entries@[b].0@ by {
                assert(self.entries@[a].0@ != self.entries@[b].0@);
            }
            assert forall|k: Seq<u8>| #[trigger] m@.contains_key(k) == self@.contains_key(k) by {
                if m@.contains_key(k) {
                    let w = choose|w: int| 0 <= w < m.entries@.len() && #[trigger] m.entries@[w].0@ == k;
                    assert(self.entries@[w].0@ == k);
                }
                if self@.contains_key(k) {
                    let w = choose|w: int| 0 <= w < self.entries@.len() && #[trigger] self.entries@[w].0@ == k;
                    assert(m.entries@[w].0@ == k);
                }
            }
            assert forall|k: Seq<u8>| #[trigger] m@.contains_key(k) implies m@[k] == self@[k] by {
                let w = choose|w: int| 0 <= w < m.entries@.len() && #[trigger] m.entries@[w].0@ == k;
                let v = choose|v: int| 0 <= v < self.entries@.len() && #[trigger] self.entries@[v].0@ == k;
                assert(self.entries@[w].0@ == k);
                if v != w {
                    assert(self.entries@[v].0@ != self.entries@[w].0@);
                }
            }
            assert(m@ =~= self@);
        }
        m
    }
}

} // verus!
