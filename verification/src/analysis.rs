//! Data-flow analyses over a procedure's control-flow graph: which
//! variables are live into and out of each block, and which live values
//! must stay where they are on the stack when control leaves a block.

use vstd::prelude::*;
use crate::graph::{edges_in_range, lemma_predecessors_contains, lemma_predecessors_in_range, lists_view, predecessors, EdgeArray, EntryNode, Graph, Idx, NodeOrder, Predecessors, Successors, Tree};
use crate::utils::bits::{count_false, lemma_count_false_update};
use crate::utils::set::BitSet;

verus! {

/// Whether an instruction defines or uses a variable.
#[derive(Clone, Copy, Debug, PartialEq, Eq, Structural)]
pub enum DefUse {
    Def,
    Use,
}

/// What the liveness analysis knows of a variable in a block.
#[derive(Clone, Copy, Debug, PartialEq, Eq, Structural)]
pub struct VarLiveness {
    pub live_in: bool,
    pub live_out: bool,
    pub used: bool,
}

/// A finite map from variables to values, as a list of distinct keys.
pub struct VarMap<V> {
    entries: Vec<(usize, V)>,
}

impl<V: Copy> VarMap<V> {
    pub closed spec fn view(&self) -> Map<usize, V> {
        Map::new(
            |k: usize| exists|i: int| 0 <= i < self.entries@.len() && #[trigger] self.entries@[i].0 == k,
            |k: usize| self.entries@[choose|i: int| 0 <= i < self.entries@.len() && #[trigger] self.entries@[i].0 == k].1,
        )
    }

    pub closed spec fn wf(&self) -> bool {
        forall|i: int, j: int|
            0 <= i < self.entries@.len() && 0 <= j < self.entries@.len() && i != j
                ==> #[trigger] self.entries@[i].0 != #[trigger] self.entries@[j].0
    }

    /// The entries, in insertion order.
    pub closed spec fn list(&self) -> Seq<(usize, V)> {
        self.entries@
    }

    pub proof fn lemma_list(&self)
        requires
            self.wf(),
        ensures
            forall|i: int| 0 <= i < self.list().len() ==> #[trigger] self@.contains_key(self.list()[i].0)
                && self@[self.list()[i].0] == self.list()[i].1,
            forall|k: usize| #[trigger] self@.contains_key(k) ==> exists|i: int| 0 <= i < self.list().len() && self.list()[i].0 == k,
    {
        assert forall|i: int| 0 <= i < self.list().len() implies #[trigger] self@.contains_key(self.list()[i].0)
            && self@[self.list()[i].0] == self.list()[i].1 by {
            let k = self.entries@[i].0;
            let j = choose|j: int| 0 <= j < self.entries@.len() && #[trigger] self.entries@[j].0 == k;
            if j != i {
                assert(self.entries@[j].0 != self.entries@[i].0);
            }
        }
        assert forall|k: usize| #[trigger] self@.contains_key(k) implies exists|i: int| 0 <= i < self.list().len() && self.list()[i].0 == k by {
            let i = choose|i: int| 0 <= i < self.entries@.len() && #[trigger] self.entries@[i].0 == k;
            assert(self.list()[i].0 == k);
        }
    }

    pub fn new() -> (m: Self)
        ensures
            m.wf(),
            m@ == Map::<usize, V>::empty(),
    {
        let m = VarMap { entries: Vec::new() };
        assert(m@ =~= Map::<usize, V>::empty());
        m
    }

    fn find(&self, key: usize) -> (r: Option<usize>)
        requires
            self.wf(),
        ensures
            match r {
                Some(i) => i < self.entries@.len() && self.entries@[i as int].0 == key
                    && self@.contains_key(key) && self@[key] == self.entries@[i as int].1,
                None => !self@.contains_key(key),
            },
    {
        let mut i: usize = 0;
        while i < self.entries.len()
            invariant
                self.wf(),
                i <= self.entries@.len(),
                forall|j: int| 0 <= j < i ==> #[trigger] self.entries@[j].0 != key,
            decreases self.entries@.len() - i,
        {
            if self.entries[i].0 == key {
                proof {
                    self.lemma_list();
                }
                return Some(i);
            }
            i = i + 1;
        }
        None
    }

    pub fn get(&self, key: usize) -> (r: Option<V>)
        requires
            self.wf(),
        ensures
            r == (if self@.contains_key(key) { Some(self@[key]) } else { None::<V> }),
    {
        match self.find(key) {
            Some(i) => Some(self.entries[i].1),
            None => None,
        }
    }

    pub fn contains_key(&self, key: usize) -> (r: bool)
        requires
            self.wf(),
        ensures
            r == self@.contains_key(key),
    {
        self.find(key).is_some()
    }

    /// Binds `key` to `value`.
    pub fn insert(&mut self, key: usize, value: V)
        requires
            old(self).wf(),
        ensures
            final(self).wf(),
            final(self)@ == old(self)@.insert(key, value),
    {
        let ghost old_map = self@;
        let ghost old_entries = self.entries@;
        match self.find(key) {
            Some(i) => {
                self.entries.set(i, (key, value));
                proof {
                    assert forall|a: int, b: int|
                        0 <= a < self.entries@.len() && 0 <= b < self.entries@.len() && a != b
                        implies #[trigger] self.entries@[a].0 != #[trigger] self.entries@[b].0 by {
                        assert(old_entries[a].0 != old_entries[b].0);
                    }
                    self.lemma_list();
                    assert forall|k: usize| #[trigger] self@.contains_key(k) == old_map.insert(key, value).contains_key(k) by {
                        if old_map.contains_key(k) {
                            let w = choose|w: int| 0 <= w < old_entries.len() && #[trigger] old_entries[w].0 == k;
                            assert(self.entries@[w].0 == k);
                        }
                        if self@.contains_key(k) {
                            let w = choose|w: int| 0 <= w < self.entries@.len() && #[trigger] self.entries@[w].0 == k;
                            assert(old_entries[w].0 == k);
                        }
                    }
                    assert forall|k: usize| #[trigger] self@.contains_key(k) implies self@[k] == old_map.insert(key, value)[k] by {
                        let w = choose|w: int| 0 <= w < self.entries@.len() && #[trigger] self.entries@[w].0 == k;
                        assert(self.list()[w].0 == k);
                        if w != i {
                            let v = choose|v: int| 0 <= v < old_entries.len() && #[trigger] old_entries[v].0 == k;
                            if v != w {
                                assert(old_entries[v].0 != old_entries[w].0);
                            }
                        }
                    }
                    assert(self@ =~= old_map.insert(key, value));
                }
            },
            None => {
                self.entries.push((key, value));
                proof {
                    let n = old_entries.len() as int;
                    assert forall|a: int, b: int|
                        0 <= a < self.entries@.len() && 0 <= b < self.entries@.len() && a != b
                        implies #[trigger] self.entries@[a].0 != #[trigger] self.entries@[b].0 by {
                        if a < n && b < n {
                            assert(old_entries[a].0 != old_entries[b].0);
                        } else if a == n {
                            assert(old_entries[b].0 != key);
                        } else {
                            assert(old_entries[a].0 != key);
                        }
                    }
                    self.lemma_list();
                    assert forall|k: usize| #[trigger] self@.contains_key(k) == old_map.insert(key, value).contains_key(k) by {
                        if old_map.contains_key(k) {
                            let w = choose|w: int| 0 <= w < old_entries.len() && #[trigger] old_entries[w].0 == k;
                            assert(self.entries@[w].0 == k);
                        }
                        if k == key {
                            assert(self.entries@[n].0 == k);
                        }
                        if self@.contains_key(k) {
                            let w = choose|w: int| 0 <= w < self.entries@.len() && #[trigger] self.entries@[w].0 == k;
                            if w != n {
                                assert(old_entries[w].0 == k);
                            }
                        }
                    }
                    assert forall|k: usize| #[trigger] self@.contains_key(k) implies self@[k] == old_map.insert(key, value)[k] by {
                        let w = choose|w: int| 0 <= w < self.entries@.len() && #[trigger] self.entries@[w].0 == k;
                        assert(self.list()[w].0 == k);
                        if w != n {
                            let v = choose|v: int| 0 <= v < old_entries.len() && #[trigger] old_entries[v].0 == k;
                            if v != w {
                                assert(old_entries[v].0 != old_entries[w].0);
                            }
                        }
                    }
                    assert(self@ =~= old_map.insert(key, value));
                }
            },
        }
    }

    /// The keys whose values satisfy nothing in particular: all of them.
    pub fn len(&self) -> (n: usize)
        ensures
            n == self.list().len(),
    {
        self.entries.len()
    }

    /// The entry at `i` of the list.
    pub fn entry_at(&self, i: usize) -> (r: (usize, V))
        requires
            i < self.list().len(),
        ensures
            r == self.list()[i as int],
    {
        self.entries[i]
    }
}


/// One block's liveness: what is known of each variable the block touches
/// or passes on, and how many variables the block itself uses or defines.
pub struct BlockLiveness {
    vars: VarMap<VarLiveness>,
    used_count: usize,
}

impl BlockLiveness {
    pub closed spec fn vars(&self) -> Map<usize, VarLiveness> {
        self.vars@
    }

    pub closed spec fn used(&self) -> nat {
        self.used_count as nat
    }

    pub closed spec fn wf(&self) -> bool {
        self.vars.wf()
    }

    pub fn empty() -> (b: BlockLiveness)
        ensures
            b.wf(),
            b.vars() == Map::<usize, VarLiveness>::empty(),
            b.used() == 0,
    {
        BlockLiveness { vars: VarMap::new(), used_count: 0 }
    }

    /// Whether `var` is live on entry to the block.
    pub fn live_in(&self, var: usize) -> (r: bool)
        requires
            self.wf(),
        ensures
            r == (self.vars().contains_key(var) && self.vars()[var].live_in),
    {
        match self.vars.get(var) {
            Some(l) => l.live_in,
            None => false,
        }
    }

    /// Whether `var` is live on exit from the block.
    pub fn live_out(&self, var: usize) -> (r: bool)
        requires
            self.wf(),
        ensures
            r == (self.vars().contains_key(var) && self.vars()[var].live_out),
    {
        match self.vars.get(var) {
            Some(l) => l.live_out,
            None => false,
        }
    }

    /// The variables live on entry, each once.
    pub fn live_in_vars(&self) -> (r: Vec<usize>)
        requires
            self.wf(),
        ensures
            r@.no_duplicates(),
            forall|x: usize| r@.contains(x) == (self.vars().contains_key(x) && self.vars()[x].live_in),
    {
        self.vars_where(true)
    }

    /// The variables live on exit, each once.
    pub fn live_out_vars(&self) -> (r: Vec<usize>)
        requires
            self.wf(),
        ensures
            r@.no_duplicates(),
            forall|x: usize| r@.contains(x) == (self.vars().contains_key(x) && self.vars()[x].live_out),
    {
        self.vars_where(false)
    }

    fn vars_where(&self, entry: bool) -> (r: Vec<usize>)
        requires
            self.wf(),
        ensures
            r@.no_duplicates(),
            forall|x: usize| r@.contains(x) == (self.vars().contains_key(x)
                && if entry { self.vars()[x].live_in } else { self.vars()[x].live_out }),
    {
        proof {
            self.vars.lemma_list();
        }
        let ghost list = self.vars.list();
        let mut r: Vec<usize> = Vec::new();
        let mut i: usize = 0;
        while i < self.vars.len()
            invariant
                self.wf(),
                list == self.vars.list(),
                i <= list.len(),
                r@.no_duplicates(),
                forall|x: usize| r@.contains(x) == exists|j: int| 0 <= j < i && #[trigger] list[j].0 == x
                    && (if entry { list[j].1.live_in } else { list[j].1.live_out }),
            decreases list.len() - i,
        {
            let (x, info) = self.vars.entry_at(i);
            let flag = if entry { info.live_in } else { info.live_out };
            let ghost r0 = r@;
            if flag {
                proof {
                    assert(!r0.contains(x)) by {
                        if r0.contains(x) {
                            let j = choose|j: int| 0 <= j < i && #[trigger] list[j].0 == x
                                && (if entry { list[j].1.live_in } else { list[j].1.live_out });
                            assert(list[j].0 != list[i as int].0);
                        }
                    }
                }
                r.push(x);
                proof {
                    assert forall|a: int, b: int| 0 <= a < r@.len() && 0 <= b < r@.len() && a != b implies r@[a] != r@[b] by {
                        if a < r0.len() && b < r0.len() {
                            assert(r0[a] != r0[b]);
                        } else if a < r0.len() {
                            assert(r0.contains(r0[a]));
                        } else {
                            assert(r0.contains(r0[b]));
                        }
                    }
                }
            }
            proof {
                assert forall|y: usize| r@.contains(y) == exists|j: int| 0 <= j < i + 1 && #[trigger] list[j].0 == y
                    && (if entry { list[j].1.live_in } else { list[j].1.live_out }) by {
                    let p_old = exists|j: int| 0 <= j < i && #[trigger] list[j].0 == y
                        && (if entry { list[j].1.live_in } else { list[j].1.live_out });
                    let p_new = exists|j: int| 0 <= j < i + 1 && #[trigger] list[j].0 == y
                        && (if entry { list[j].1.live_in } else { list[j].1.live_out });
                    assert(r0.contains(y) == p_old);
                    if p_old {
                        let j = choose|j: int| 0 <= j < i && #[trigger] list[j].0 == y
                            && (if entry { list[j].1.live_in } else { list[j].1.live_out });
                        assert(0 <= j < i + 1);
                        assert(p_new);
                    }
                    if p_new {
                        let j = choose|j: int| 0 <= j < i + 1 && #[trigger] list[j].0 == y
                            && (if entry { list[j].1.live_in } else { list[j].1.live_out });
                        if j < i {
                            assert(p_old);
                        } else {
                            assert(flag && y == x);
                        }
                    }
                    if flag {
                        if r@.contains(y) && y != x {
                            let k = choose|k: int| 0 <= k < r@.len() && r@[k] == y;
                            assert(r0[k] == y);
                        }
                        if y == x {
                            assert(r@[r@.len() - 1] == y);
                        }
                        if r0.contains(y) {
                            let k = choose|k: int| 0 <= k < r0.len() && r0[k] == y;
                            assert(r@[k] == y);
                        }
                    }
                }
            }
            i = i + 1;
        }
        proof {
            assert forall|x: usize| r@.contains(x) == (self.vars().contains_key(x)
                && if entry { self.vars()[x].live_in } else { self.vars()[x].live_out }) by {
                if self.vars().contains_key(x) {
                    let j = choose|j: int| 0 <= j < list.len() && list[j].0 == x;
                    assert(self.vars()[list[j].0] == list[j].1);
                }
                if r@.contains(x) {
                    let j = choose|j: int| 0 <= j < list.len() && #[trigger] list[j].0 == x
                        && (if entry { list[j].1.live_in } else { list[j].1.live_out });
                    assert(self.vars().contains_key(list[j].0));
                }
            }
        }
        r
    }

    pub fn used_count(&self) -> (n: usize)
        ensures
            n == self.used(),
    {
        self.used_count
    }
}

/// The variables live into a block, by what is known of them there.
pub open spec fn live_ins(m: Map<usize, VarLiveness>) -> Set<usize> {
    Set::new(|x: usize| m.contains_key(x) && m[x].live_in)
}

/// Reading one instruction, backwards: a variable first met is used in the
/// block (and counted); a definition ends its liveness on entry.
pub open spec fn live_step(m: Map<usize, VarLiveness>, cnt: nat, x: usize, du: DefUse) -> (Map<usize, VarLiveness>, nat) {
    if m.contains_key(x) {
        let info = m[x];
        (
            m.insert(x, VarLiveness { live_in: if du == DefUse::Def { false } else { info.live_in }, live_out: info.live_out, used: true }),
            if info.used { cnt } else { cnt + 1 },
        )
    } else {
        (m.insert(x, VarLiveness { live_in: du == DefUse::Use, live_out: false, used: true }), cnt + 1)
    }
}

/// Reading the first `i` instructions, last first.
pub open spec fn live_scan(ins: Seq<(usize, DefUse)>, i: int, m: Map<usize, VarLiveness>, cnt: nat) -> (Map<usize, VarLiveness>, nat)
    decreases i,
{
    if i <= 0 || i > ins.len() {
        (m, cnt)
    } else {
        let (m1, c1) = live_step(m, cnt, ins[i - 1].0, ins[i - 1].1);
        live_scan(ins, i - 1, m1, c1)
    }
}

/// Whether every edge leads to a node earlier in the order (as in the
/// postorder of an acyclic graph).
pub open spec fn forward_order(g: Seq<Seq<usize>>, order: &NodeOrder) -> bool {
    forall|b: int, j: int| 0 <= b < g.len() && 0 <= j < g[b].len() ==> order.pos(#[trigger] g[b][j]) < order.pos(b as usize)
}

/// The liveness of the block at position `k` of the order: what flows in
/// from its successors, then its instructions read backwards.
pub open spec fn block_live(g: Seq<Seq<usize>>, ins: Seq<Seq<(usize, DefUse)>>, order: &NodeOrder, k: int) -> (Map<usize, VarLiveness>, nat)
    decreases k, 1nat, 0int,
{
    if k < 0 || k >= order@.len() || order@[k] >= g.len() || order@[k] >= ins.len() {
        (Map::empty(), 0)
    } else {
        let b = order@[k] as int;
        let flowing = succ_live(g, ins, order, k, g[b].len() as int);
        let init = Map::new(|x: usize| flowing.contains(x), |x: usize| VarLiveness { live_in: true, live_out: true, used: false });
        live_scan(ins[b], ins[b].len() as int, init, 0)
    }
}

/// The variables live into the first `j` successors of the block at
/// position `k`.
pub open spec fn succ_live(g: Seq<Seq<usize>>, ins: Seq<Seq<(usize, DefUse)>>, order: &NodeOrder, k: int, j: int) -> Set<usize>
    decreases k, 0nat, j,
{
    if j <= 0 || k < 0 || k >= order@.len() || order@[k] >= g.len() || j > g[order@[k] as int].len() {
        Set::empty()
    } else {
        let a = g[order@[k] as int][j - 1];
        let pa = order.pos(a);
        succ_live(g, ins, order, k, j - 1) + if 0 <= pa < k { live_ins(block_live(g, ins, order, pa).0) } else { Set::empty() }
    }
}

/// Some of the first `i` instructions mentions `x`.
pub open spec fn occurs_in(ins: Seq<(usize, DefUse)>, i: int, x: usize) -> bool {
    exists|j: int| 0 <= j < i && #[trigger] ins[j].0 == x
}

/// Some of the first `i` instructions defines `x`.
pub open spec fn defined_in(ins: Seq<(usize, DefUse)>, i: int, x: usize) -> bool {
    exists|j: int| 0 <= j < i && #[trigger] ins[j] == (x, DefUse::Def)
}

/// What reading the first `i` instructions backwards from `m0` gives,
/// stated directly: the variables met are added; a variable is live on
/// entry when it was (or, newly met, is mentioned) and no instruction read
/// defines it; live on exit only as it was; used when it was or is
/// mentioned.
pub proof fn lemma_live_scan(ins: Seq<(usize, DefUse)>, i: int, m0: Map<usize, VarLiveness>, c0: nat)
    requires
        0 <= i <= ins.len(),
    ensures
        forall|x: usize| #[trigger] live_scan(ins, i, m0, c0).0.contains_key(x) <==> m0.contains_key(x) || occurs_in(ins, i, x),
        forall|x: usize| #[trigger] live_scan(ins, i, m0, c0).0.contains_key(x) ==> {
            let v = live_scan(ins, i, m0, c0).0[x];
            &&& v.live_in == ((if m0.contains_key(x) { m0[x].live_in } else { true }) && !defined_in(ins, i, x))
            &&& v.live_out == (m0.contains_key(x) && m0[x].live_out)
            &&& v.used == ((m0.contains_key(x) && m0[x].used) || occurs_in(ins, i, x))
        },
    decreases i,
{
    if i > 0 {
        let (m1, c1) = live_step(m0, c0, ins[i - 1].0, ins[i - 1].1);
        lemma_live_scan(ins, i - 1, m1, c1);
        assert(live_scan(ins, i, m0, c0) == live_scan(ins, i - 1, m1, c1));
        let y = ins[i - 1].0;
        assert forall|x: usize| occurs_in(ins, i, x) <==> occurs_in(ins, i - 1, x) || x == y by {
            if occurs_in(ins, i, x) && x != y {
                let j = choose|j: int| 0 <= j < i && #[trigger] ins[j].0 == x;
                assert(j < i - 1);
            }
        }
        assert forall|x: usize| defined_in(ins, i, x) <==> defined_in(ins, i - 1, x) || ins[i - 1] == (x, DefUse::Def) by {
            if defined_in(ins, i, x) && ins[i - 1] != (x, DefUse::Def) {
                let j = choose|j: int| 0 <= j < i && #[trigger] ins[j] == (x, DefUse::Def);
                assert(j < i - 1);
            }
            if ins[i - 1] == (x, DefUse::Def) {
                assert(ins[i - 1] == (x, DefUse::Def));
            }
        }
        assert(occurs_in(ins, i, y)) by {
            assert(ins[i - 1].0 == y);
        }
    } else {
        assert forall|x: usize| !occurs_in(ins, i, x) && !defined_in(ins, i, x) by {}
    }
}

/// The liveness of the block at position `k` of the order, stated as the
/// dataflow equations: a variable is met in the block when it flows in from
/// a successor or an instruction mentions it; it is live on exit exactly
/// when it is live on entry to some successor; it is live on entry exactly
/// when no instruction of the block defines it (for a variable only used,
/// or live on exit and not redefined).
pub proof fn lemma_block_live_equations(g: Seq<Seq<usize>>, ins: Seq<Seq<(usize, DefUse)>>, order: &NodeOrder, k: int)
    requires
        0 <= k < order@.len(),
        order@[k] < g.len(),
        order@[k] < ins.len(),
    ensures
        ({
            let b = order@[k] as int;
            let m = block_live(g, ins, order, k).0;
            let flowing = succ_live(g, ins, order, k, g[b].len() as int);
            &&& forall|x: usize| #[trigger] m.contains_key(x) <==> flowing.contains(x) || occurs_in(ins[b], ins[b].len() as int, x)
            &&& forall|x: usize| #[trigger] m.contains_key(x) ==> (m[x].live_out <==> flowing.contains(x))
                && (m[x].live_in <==> !defined_in(ins[b], ins[b].len() as int, x))
                && (m[x].used <==> occurs_in(ins[b], ins[b].len() as int, x))
            &&& forall|x: usize| flowing.contains(x) <==> exists|j: int| 0 <= j < g[b].len()
                && 0 <= #[trigger] order.pos(g[b][j]) < k
                && live_ins(block_live(g, ins, order, order.pos(g[b][j])).0).contains(x)
        }),
{
    let b = order@[k] as int;
    let flowing = succ_live(g, ins, order, k, g[b].len() as int);
    let init = Map::new(|x: usize| flowing.contains(x), |x: usize| VarLiveness { live_in: true, live_out: true, used: false });
    lemma_live_scan(ins[b], ins[b].len() as int, init, 0);
    lemma_succ_live(g, ins, order, k, g[b].len() as int);
}

proof fn lemma_succ_live(g: Seq<Seq<usize>>, ins: Seq<Seq<(usize, DefUse)>>, order: &NodeOrder, k: int, j: int)
    requires
        0 <= k < order@.len(),
        order@[k] < g.len(),
        0 <= j <= g[order@[k] as int].len(),
    ensures
        forall|x: usize| succ_live(g, ins, order, k, j).contains(x) <==> exists|t: int| 0 <= t < j
            && 0 <= #[trigger] order.pos(g[order@[k] as int][t]) < k
            && live_ins(block_live(g, ins, order, order.pos(g[order@[k] as int][t])).0).contains(x),
    decreases j,
{
    let b = order@[k] as int;
    if j > 0 {
        lemma_succ_live(g, ins, order, k, j - 1);
        assert forall|x: usize| succ_live(g, ins, order, k, j).contains(x) <==> exists|t: int| 0 <= t < j
            && 0 <= #[trigger] order.pos(g[b][t]) < k
            && live_ins(block_live(g, ins, order, order.pos(g[b][t])).0).contains(x) by {
            let a = g[b][j - 1];
            let pa = order.pos(a);
            assert(succ_live(g, ins, order, k, j) == succ_live(g, ins, order, k, j - 1)
                + if 0 <= pa < k { live_ins(block_live(g, ins, order, pa).0) } else { Set::empty() });
            if exists|t: int| 0 <= t < j && 0 <= #[trigger] order.pos(g[b][t]) < k
                && live_ins(block_live(g, ins, order, order.pos(g[b][t])).0).contains(x) {
                let t = choose|t: int| 0 <= t < j && 0 <= #[trigger] order.pos(g[b][t]) < k
                    && live_ins(block_live(g, ins, order, order.pos(g[b][t])).0).contains(x);
                if t < j - 1 {
                    assert(succ_live(g, ins, order, k, j - 1).contains(x));
                }
            }
            if succ_live(g, ins, order, k, j).contains(x) {
                if !succ_live(g, ins, order, k, j - 1).contains(x) {
                    assert(0 <= order.pos(g[b][j - 1]) < k);
                } else {
                    let t = choose|t: int| 0 <= t < j - 1 && 0 <= #[trigger] order.pos(g[b][t]) < k
                        && live_ins(block_live(g, ins, order, order.pos(g[b][t])).0).contains(x);
                    assert(0 <= t < j);
                }
            }
        }
    }
}

/// Liveness of every variable in every block of an acyclic control-flow
/// graph, blocks taken in postorder so that each block's successors come
/// first.
pub fn liveness(succs: &Vec<Vec<usize>>, instrs: &Vec<Vec<(usize, DefUse)>>, order: &NodeOrder) -> (r: Vec<BlockLiveness>)
    requires
        order.wf(),
        succs@.len() == order@.len(),
        instrs@.len() == order@.len(),
        edges_in_range(lists_view(succs@)),
        forward_order(lists_view(succs@), order),
    ensures
        r@.len() == order@.len(),
        forall|b: usize| (b as int) < r@.len() ==> #[trigger] r@[b as int].wf()
            && (r@[b as int].vars(), r@[b as int].used())
                == block_live(lists_view(succs@), lists_view_pairs(instrs@), order, order.pos(b)),
{
    let ghost g = lists_view(succs@);
    let ghost ins = lists_view_pairs(instrs@);
    let n = order.len();
    let mut result: Vec<BlockLiveness> = Vec::new();
    let mut k: usize = 0;
    while k < n
        invariant
            k <= n,
            result@.len() == k,
            forall|j: int| 0 <= j < k ==> #[trigger] result@[j].wf(),
        decreases n - k,
    {
        result.push(BlockLiveness::empty());
        k = k + 1;
    }
    let mut bpo: usize = 0;
    while bpo < n
        invariant
            order.wf(),
            n == order@.len(),
            g == lists_view(succs@),
            ins == lists_view_pairs(instrs@),
            succs@.len() == n,
            instrs@.len() == n,
            edges_in_range(g),
            forward_order(g, order),
            bpo <= n,
            result@.len() == n,
            forall|b: usize| (b as int) < n ==> #[trigger] result@[b as int].wf(),
            forall|b: usize| (b as int) < n && order.pos(b) < bpo ==>
                (#[trigger] result@[b as int].vars(), result@[b as int].used()) == block_live(g, ins, order, order.pos(b)),
        decreases n - bpo,
    {
        let block = order.node_at(bpo);
        let mut live = BlockLiveness::empty();
        let row = &succs[block];
        let mut j: usize = 0;
        while j < row.len()
            invariant
                order.wf(),
                n == order@.len(),
                g == lists_view(succs@),
                ins == lists_view_pairs(instrs@),
                succs@.len() == n,
                edges_in_range(g),
                forward_order(g, order),
                bpo < n,
                block == order@[bpo as int],
                order.pos(block) == bpo as int,
                (block as int) < n,
                row@ == g[block as int],
                j <= row@.len(),
                result@.len() == n,
                forall|b: usize| (b as int) < n ==> #[trigger] result@[b as int].wf(),
                forall|b: usize| (b as int) < n && order.pos(b) < bpo ==>
                    (#[trigger] result@[b as int].vars(), result@[b as int].used()) == block_live(g, ins, order, order.pos(b)),
                live.wf(),
                live.used() == 0,
                live.vars() == Map::new(|x: usize| succ_live(g, ins, order, bpo as int, j as int).contains(x),
                    |x: usize| VarLiveness { live_in: true, live_out: true, used: false }),
            decreases row@.len() - j,
        {
            let a = row[j];
            assert((a as int) < n && order.pos(a) < bpo) by {
                assert(row@[j as int] == a);
                assert(g[block as int][j as int] == a);
                assert(g[block as int][j as int] < g.len());
                assert(order.pos(g[block as int][j as int]) < order.pos(block));
            }
            let from = &result[a];
            proof {
                assert(result@[a as int].wf());
                from.vars.lemma_list();
            }
            let ghost before = live.vars();
            let ghost list = from.vars.list();
            let mut e: usize = 0;
            while e < from.vars.len()
                invariant
                    from.wf(),
                    list == from.vars.list(),
                    e <= list.len(),
                    live.wf(),
                    live.used() == 0,
                    forall|x: usize| #[trigger] live.vars().contains_key(x) ==> live.vars()[x]
                        == (VarLiveness { live_in: true, live_out: true, used: false }),
                    forall|x: usize| #[trigger] live.vars().contains_key(x) == (before.contains_key(x)
                        || exists|i: int| 0 <= i < e && list[i].0 == x && list[i].1.live_in),
                decreases list.len() - e,
            {
                let (x, info) = from.vars.entry_at(e);
                let ghost lv0 = live.vars();
                if info.live_in && !live.vars.contains_key(x) {
                    live.vars.insert(x, VarLiveness { live_in: true, live_out: true, used: false });
                    assert(live.vars() == lv0.insert(x, VarLiveness { live_in: true, live_out: true, used: false }));
                }
                proof {
                    assert forall|y: usize| #[trigger] live.vars().contains_key(y) implies live.vars()[y]
                        == (VarLiveness { live_in: true, live_out: true, used: false }) by {
                        if y != x || !(info.live_in && !lv0.contains_key(x)) {
                            assert(lv0.contains_key(y));
                        }
                    }
                    assert forall|y: usize| #[trigger] live.vars().contains_key(y) == (before.contains_key(y)
                        || exists|i: int| 0 <= i < e + 1 && list[i].0 == y && list[i].1.live_in) by {
                        let p_old = exists|i: int| 0 <= i < e && list[i].0 == y && list[i].1.live_in;
                        let p_new = exists|i: int| 0 <= i < e + 1 && list[i].0 == y && list[i].1.live_in;
                        assert(lv0.contains_key(y) == (before.contains_key(y) || p_old));
                        if p_old {
                            let i = choose|i: int| 0 <= i < e && list[i].0 == y && list[i].1.live_in;
                            assert(0 <= i < e + 1);
                            assert(p_new);
                        }
                        if p_new {
                            let i = choose|i: int| 0 <= i < e + 1 && list[i].0 == y && list[i].1.live_in;
                            if i < e {
                                assert(p_old);
                            } else {
                                assert(y == x && info.live_in);
                            }
                        }
                    }
                }
                e = e + 1;
            }
            proof {
                let m_a = block_live(g, ins, order, order.pos(a)).0;
                assert(from.vars() == m_a);
                assert(order.pos(a) >= 0);
                assert(live_ins(m_a) =~= Set::new(|x: usize| exists|i: int| 0 <= i < list.len() && list[i].0 == x && list[i].1.live_in)) by {
                    assert forall|x: usize| live_ins(m_a).contains(x) implies exists|i: int| 0 <= i < list.len() && list[i].0 == x && list[i].1.live_in by {
                        let i = choose|i: int| 0 <= i < list.len() && list[i].0 == x;
                        assert(m_a[list[i].0] == list[i].1);
                    }
                    assert forall|x: usize| (exists|i: int| 0 <= i < list.len() && list[i].0 == x && list[i].1.live_in) implies live_ins(m_a).contains(x) by {
                        let i = choose|i: int| 0 <= i < list.len() && list[i].0 == x && list[i].1.live_in;
                        assert(m_a.contains_key(list[i].0) && m_a[list[i].0] == list[i].1);
                    }
                }
                assert(live.vars() =~= Map::new(|x: usize| succ_live(g, ins, order, bpo as int, j + 1).contains(x),
                    |x: usize| VarLiveness { live_in: true, live_out: true, used: false }));
            }
            j = j + 1;
        }
        let block_ins = &instrs[block];
        let ghost init = live.vars();
        let mut i: usize = block_ins.len();
        while i > 0
            invariant
                i <= block_ins@.len(),
                block_ins@.len() <= usize::MAX,
                live.wf(),
                live.used() <= block_ins@.len() - i,
                live_scan(block_ins@, i as int, live.vars(), live.used()) == live_scan(block_ins@, block_ins@.len() as int, init, 0),
            decreases i,
        {
            let (x, du) = block_ins[i - 1];
            match live.vars.get(x) {
                Some(info) => {
                    if !info.used {
                        live.used_count = live.used_count + 1;
                    }
                    let live_in = if du == DefUse::Def { false } else { info.live_in };
                    live.vars.insert(x, VarLiveness { live_in, live_out: info.live_out, used: true });
                },
                None => {
                    live.used_count = live.used_count + 1;
                    live.vars.insert(x, VarLiveness { live_in: du == DefUse::Use, live_out: false, used: true });
                },
            }
            i = i - 1;
        }
        proof {
            assert(ins[block as int] == block_ins@);
            assert(live_scan(block_ins@, 0, live.vars(), live.used()) == (live.vars(), live.used()));
            assert(g.len() == n && ins.len() == n);
            assert(block_live(g, ins, order, bpo as int) == (live.vars(), live.used()));
            order.lemma_pos();
        }
        let ghost result0 = result@;
        result.set(block, live);
        proof {
            assert forall|b: usize| (b as int) < n && order.pos(b) < bpo + 1 implies
                (#[trigger] result@[b as int].vars(), result@[b as int].used()) == block_live(g, ins, order, order.pos(b)) by {
                if b != block {
                    assert(result@[b as int] == result0[b as int]);
                    if order.pos(b) == bpo {
                        assert(order@[order.pos(b)] == b);
                    }
                }
            }
            assert forall|b: usize| (b as int) < n implies #[trigger] result@[b as int].wf() by {
                if b != block {
                    assert(result@[b as int] == result0[b as int]);
                }
            }
        }
        bpo = bpo + 1;
    }
    proof {
        order.lemma_pos();
    }
    result
}

/// The lists of a vector of instruction lists, as sequences.
pub open spec fn lists_view_pairs(v: Seq<Vec<(usize, DefUse)>>) -> Seq<Seq<(usize, DefUse)>> {
    v.map_values(|l: Vec<(usize, DefUse)>| l@)
}


/// Whether a live value stays pinned through a block, or only at its exit.
#[derive(Clone, Copy, Debug, PartialEq, Eq, Structural)]
pub enum PinState {
    PinOut,
    PinThrough,
}

/// The variables pinned at a block's exit: present means pinned at exit;
/// `PinThrough` means pinned at entry too.
pub struct Pinning {
    pinned: VarMap<PinState>,
}

impl Pinning {
    pub closed spec fn view(&self) -> Map<usize, PinState> {
        self.pinned@
    }

    pub closed spec fn wf(&self) -> bool {
        self.pinned.wf()
    }

    /// Whether `var` is pinned at the block's exit.
    pub fn is_pinned_out(&self, var: usize) -> (r: bool)
        requires
            self.wf(),
        ensures
            r == self@.contains_key(var),
    {
        self.pinned.contains_key(var)
    }

    /// Whether `var` is pinned at the block's entry and exit.
    pub fn is_pinned(&self, var: usize) -> (r: bool)
        requires
            self.wf(),
        ensures
            r == (self@.contains_key(var) && self@[var] == PinState::PinThrough),
    {
        match self.pinned.get(var) {
            Some(PinState::PinThrough) => true,
            _ => false,
        }
    }
}

/// The index of the pair `(b, t)` in an `n` by `n` table.
#[verifier::opaque]
pub open spec fn cell(n: int, b: int, t: int) -> int {
    b * n + t
}

proof fn lemma_cell(n: int, b: int, t: int)
    requires
        0 <= b < n,
        0 <= t < n,
    ensures
        0 <= cell(n, b, t) < n * n,
        forall|b2: int, t2: int| 0 <= b2 < n && 0 <= t2 < n && #[trigger] cell(n, b2, t2) == cell(n, b, t) ==> b2 == b && t2 == t,
{
    reveal(cell);
    assert(0 <= b * n + t < n * n) by (nonlinear_arith)
        requires
            0 <= b < n,
            0 <= t < n,
    ;
    assert forall|b2: int, t2: int| 0 <= b2 < n && 0 <= t2 < n && #[trigger] cell(n, b2, t2) == cell(n, b, t) implies b2 == b && t2 == t by {
        reveal(cell);
        assert(b2 == b && t2 == t) by (nonlinear_arith)
            requires
                0 <= b < n,
                0 <= t < n,
                0 <= b2 < n,
                0 <= t2 < n,
                b2 * n + t2 == b * n + t,
        ;
    }
}


/// Where a cell of the `n` by `n` table lies: its row and its column.
proof fn lemma_cell_split(n: int, c: int)
    requires
        0 < n,
        0 <= c < n * n,
    ensures
        0 <= c / n < n,
        0 <= c % n < n,
        c == cell(n, c / n, c % n),
{
    reveal(cell);
    vstd::arithmetic::div_mod::lemma_fundamental_div_mod(c, n);
    vstd::arithmetic::div_mod::lemma_mod_pos_bound(c, n);
    let q = c / n;
    let r = c % n;
    assert(0 <= q < n) by (nonlinear_arith)
        requires
            c == n * q + r,
            0 <= r < n,
            0 <= c < n * n,
            0 < n,
    ;
    vstd::arithmetic::mul::lemma_mul_is_commutative(n, q);
}

/// The row and column of a cell are the block and target it was made of.
proof fn lemma_cell_parts(n: int, b: int, t: int)
    requires
        0 <= b < n,
        0 <= t < n,
    ensures
        cell(n, b, t) / n == b,
        cell(n, b, t) % n == t,
{
    reveal(cell);
    assert(cell(n, b, t) == b * n + t);
    vstd::arithmetic::div_mod::lemma_fundamental_div_mod_converse(cell(n, b, t), n, b, t);
}

/// Pins kept as one bit set per block, read as an `n` by `n` table.
pub struct PinTable {
    n: usize,
    rows: Vec<BitSet>,
}

impl PinTable {
    /// The table, row by row: cell `cell(n, b, t)` tells whether `b` pins `t`.
    pub closed spec fn view(&self) -> Seq<bool> {
        Seq::new((self.n * self.n) as nat, |c: int| self.rows@[c / self.n as int]@[c % self.n as int])
    }

    pub closed spec fn size(&self) -> nat {
        self.n as nat
    }

    pub closed spec fn wf(&self) -> bool {
        &&& self.rows@.len() == self.n
        &&& forall|b: int| 0 <= b < self.n ==> (#[trigger] self.rows@[b]).wf() && self.rows@[b]@.len() >= self.n
    }

    /// A table of `n` blocks without pins.
    pub fn new(n: usize) -> (p: PinTable)
        requires
            n <= usize::MAX - 64,
        ensures
            p.wf(),
            p.size() == n,
            p@.len() == n * n,
            forall|c: int| 0 <= c < n * n ==> !p@[c],
    {
        let mut rows: Vec<BitSet> = Vec::new();
        let mut b: usize = 0;
        while b < n
            invariant
                b <= n,
                n <= usize::MAX - 64,
                rows@.len() == b,
                forall|k: int| 0 <= k < b ==> (#[trigger] rows@[k]).wf() && rows@[k]@.len() >= n
                    && crate::utils::set::filled_from(rows@[k]@, n as int),
            decreases n - b,
        {
            rows.push(BitSet::new(n));
            b = b + 1;
        }
        let p = PinTable { n, rows };
        proof {
            assert forall|c: int| 0 <= c < n * n implies !p@[c] by {
                if n > 0 {
                    lemma_cell_split(n as int, c);
                } else {
                    assert(n * n == 0) by (nonlinear_arith)
                        requires
                            n == 0,
                    ;
                }
            }
        }
        p
    }

    /// Whether `b` pins `t`.
    pub fn contains(&self, b: usize, t: usize) -> (r: bool)
        requires
            self.wf(),
            b < self.size(),
            t < self.size(),
        ensures
            r == self@[cell(self.size() as int, b as int, t as int)],
    {
        proof {
            lemma_cell(self.n as int, b as int, t as int);
            lemma_cell_parts(self.n as int, b as int, t as int);
        }
        self.rows[b].contains(t)
    }

    /// Makes `b` pin `t`; tells whether it did not before.
    pub fn insert(&mut self, b: usize, t: usize) -> (r: bool)
        requires
            old(self).wf(),
            b < old(self).size(),
            t < old(self).size(),
        ensures
            final(self).wf(),
            final(self).size() == old(self).size(),
            final(self)@ == old(self)@.update(cell(old(self).size() as int, b as int, t as int), true),
            r == !old(self)@[cell(old(self).size() as int, b as int, t as int)],
    {
        let ghost before = self@;
        let ghost n = self.n as int;
        let ghost c0 = cell(n, b as int, t as int);
        proof {
            lemma_cell(n, b as int, t as int);
            lemma_cell_parts(n, b as int, t as int);
        }
        let mut row = BitSet::new(0);
        std::mem::swap(&mut row, &mut self.rows[b]);
        let r = row.insert(t);
        std::mem::swap(&mut row, &mut self.rows[b]);
        proof {
            assert forall|k: int| 0 <= k < n implies (#[trigger] self.rows@[k]).wf() && self.rows@[k]@.len() >= n by {
            }
            assert forall|c: int| 0 <= c < n * n implies self@[c] == before.update(c0, true)[c] by {
                lemma_cell_split(n, c);
                if c / n == b as int && c % n == t as int {
                    assert(c == c0);
                } else if c == c0 {
                    lemma_cell_parts(n, b as int, t as int);
                }
            }
            assert(self@ =~= before.update(c0, true));
        }
        r
    }
}

pub open spec fn has_pin(pins: Seq<bool>, n: nat, b: int, t: int) -> bool {
    pins[cell(n as int, b, t)]
}

/// Whether `a` dominates `b`: the dominator tree's walk is inside `a` all
/// the while it is inside `b`.
pub open spec fn dominates(tree: &Tree, a: int, b: int) -> bool {
    tree.intervals()[a].0 <= tree.intervals()[b].0 && tree.intervals()[b].1 <= tree.intervals()[a].1
}

/// The pins a block starts with: successors that it does not dominate, and
/// itself when it is its own successor.
pub open spec fn pin_init(g: Seq<Seq<usize>>, tree: &Tree, b: int, t: int) -> bool {
    g[b].contains(t as usize) && (b == t || !dominates(tree, b, t))
}

/// A pin of successor `s` that `s` does not own as the dominator tree
/// parent passes up to the block.
pub open spec fn pin_passes(g: Seq<Seq<usize>>, tree: &Tree, pins: Seq<bool>, n: nat, b: int, s: int, t: int) -> bool {
    g[b].contains(s as usize) && s != b && has_pin(pins, n, s, t) && tree.parents()[t] != Some(s as usize)
}

pub open spec fn closed_at(g: Seq<Seq<usize>>, tree: &Tree, pins: Seq<bool>, n: nat, b: int) -> bool {
    forall|s: int, t: int| 0 <= s < n && 0 <= t < n && #[trigger] pin_passes(g, tree, pins, n, b, s, t) ==> has_pin(pins, n, b, t)
}

/// The pins of every block hold the initial pins, take in what their
/// successors pass up, and hold nothing without one of these reasons.
pub open spec fn pins_solution(g: Seq<Seq<usize>>, tree: &Tree, pins: Seq<bool>, n: nat) -> bool {
    &&& pins.len() >= n * n
    &&& forall|b: int, t: int| 0 <= b < n && 0 <= t < n && #[trigger] pin_init(g, tree, b, t) ==> has_pin(pins, n, b, t)
    &&& forall|b: int| 0 <= b < n ==> #[trigger] closed_at(g, tree, pins, n, b)
    &&& forall|b: int, t: int| 0 <= b < n && 0 <= t < n && #[trigger] has_pin(pins, n, b, t) ==> pin_init(g, tree, b, t)
        || exists|s: int| 0 <= s < n && #[trigger] pin_passes(g, tree, pins, n, b, s, t)
}

/// A set of pins that holds the initial pins and takes in whatever the
/// successors pass up.
pub open spec fn pins_closed(g: Seq<Seq<usize>>, tree: &Tree, q: Seq<bool>, n: nat) -> bool {
    &&& q.len() >= n * n
    &&& forall|b: int, t: int| 0 <= b < n && 0 <= t < n && #[trigger] pin_init(g, tree, b, t) ==> has_pin(q, n, b, t)
    &&& forall|b: int| 0 <= b < n ==> #[trigger] closed_at(g, tree, q, n, b)
}

/// Every pin of `p` is a pin of `q`.
pub open spec fn pins_below(p: Seq<bool>, q: Seq<bool>, n: nat) -> bool {
    forall|b: int, t: int| 0 <= b < n && 0 <= t < n && #[trigger] has_pin(p, n, b, t) ==> has_pin(q, n, b, t)
}

/// `p` lies below every closed set of pins: it is the least one.
pub open spec fn pins_least(g: Seq<Seq<usize>>, tree: &Tree, p: Seq<bool>, n: nat) -> bool {
    forall|q: Seq<bool>| #[trigger] pins_closed(g, tree, q, n) ==> pins_below(p, q, n)
}

/// Two least solutions have the same pins, so the pins that `pinning`
/// reports are fixed by the graph and the dominator tree alone.
pub proof fn lemma_least_solution_unique(g: Seq<Seq<usize>>, tree: &Tree, p: Seq<bool>, q: Seq<bool>, n: nat)
    requires
        pins_solution(g, tree, p, n),
        pins_least(g, tree, p, n),
        pins_solution(g, tree, q, n),
        pins_least(g, tree, q, n),
    ensures
        forall|b: int, t: int| 0 <= b < n && 0 <= t < n ==> #[trigger] has_pin(p, n, b, t) == has_pin(q, n, b, t),
{
    assert(pins_closed(g, tree, q, n));
    assert(pins_closed(g, tree, p, n));
    assert(pins_below(p, q, n));
    assert(pins_below(q, p, n));
}

pub open spec fn live_in_at(live: Seq<BlockLiveness>, t: int, x: usize) -> bool {
    live[t].vars().contains_key(x) && live[t].vars()[x].live_in
}

/// What pinning `t` at `b` contributes for `x`.
pub open spec fn contributes(tree: &Tree, pins: Seq<bool>, n: nat, live: Seq<BlockLiveness>, b: int, t: int, x: usize) -> bool {
    has_pin(pins, n, b, t) && live_in_at(live, t, x)
}

/// The pinned variables of `b`, from its pins among the first `k` blocks:
/// a variable live into a pinned block is pinned, through the block unless
/// every such pinned block is a child of `b` in the dominator tree.
pub open spec fn pinned_upto(tree: &Tree, pins: Seq<bool>, n: nat, live: Seq<BlockLiveness>, b: int, k: int) -> Map<usize, PinState> {
    Map::new(
        |x: usize| exists|t: int| 0 <= t < k && #[trigger] contributes(tree, pins, n, live, b, t, x),
        |x: usize| if exists|t: int| 0 <= t < k && #[trigger] contributes(tree, pins, n, live, b, t, x) && tree.parents()[t] != Some(b as usize) {
            PinState::PinThrough
        } else {
            PinState::PinOut
        },
    )
}


/// The initial pins of every block.
fn init_pins(succs: &Vec<Vec<usize>>, dom_tree: &Tree, n: usize) -> (pins: PinTable)
    requires
        succs@.len() == n,
        n <= usize::MAX - 64,
        edges_in_range(lists_view(succs@)),
        dom_tree.wf(),
        dom_tree.parents().len() == n,
    ensures
        pins.wf(),
        pins.size() == n,
        pins@.len() >= n * n,
        forall|b: int, t: int| 0 <= b < n && 0 <= t < n ==>
            #[trigger] has_pin(pins@, n as nat, b, t) == pin_init(lists_view(succs@), dom_tree, b, t),
{
    let ghost g = lists_view(succs@);
    let mut pins = PinTable::new(n);
    proof {
        assert forall|b: int, t: int| 0 <= b < n && 0 <= t < n implies !#[trigger] has_pin(pins@, n as nat, b, t) by {
            lemma_cell(n as int, b, t);
        }
    }
    let mut b: usize = 0;
    while b < n
        invariant
            succs@.len() == n,
            n <= usize::MAX - 64,
            g == lists_view(succs@),
            edges_in_range(g),
            dom_tree.wf(),
            dom_tree.parents().len() == n,
            b <= n,
            pins.wf(),
            pins.size() == n,
            pins@.len() >= n * n,
            forall|b2: int, t: int| 0 <= b2 < n && 0 <= t < n ==>
                #[trigger] has_pin(pins@, n as nat, b2, t) == (b2 < b && pin_init(g, dom_tree, b2, t)),
        decreases n - b,
    {
        let row = &succs[b];
        let mut j: usize = 0;
        while j < row.len()
            invariant
                succs@.len() == n,
                n <= usize::MAX - 64,
                g == lists_view(succs@),
                edges_in_range(g),
                dom_tree.wf(),
                dom_tree.parents().len() == n,
                b < n,
                row@ == g[b as int],
                j <= row@.len(),
                pins.wf(),
                pins.size() == n,
                pins@.len() >= n * n,
                forall|b2: int, t: int| 0 <= b2 < n && 0 <= t < n ==>
                    #[trigger] has_pin(pins@, n as nat, b2, t) == (b2 < b && pin_init(g, dom_tree, b2, t)
                        || b2 == b && row@.take(j as int).contains(t as usize) && (b2 == t || !dominates(dom_tree, b2, t))),
            decreases row@.len() - j,
        {
            let t = row[j];
            assert((t as int) < n) by {
                assert(g[b as int][j as int] < g.len());
            }
            let ghost before = pins@;
            if b == t || !dom_tree.is_ancestor(b, t) {
                pins.insert(b, t);
            }
            proof {
                assert(row@.take(j + 1) =~= row@.take(j as int).push(t));
                lemma_cell(n as int, b as int, t as int);
                assert forall|b2: int, t2: int| 0 <= b2 < n && 0 <= t2 < n implies
                    #[trigger] has_pin(pins@, n as nat, b2, t2) == (b2 < b && pin_init(g, dom_tree, b2, t2)
                        || b2 == b && row@.take(j + 1).contains(t2 as usize) && (b2 == t2 || !dominates(dom_tree, b2, t2))) by {
                    lemma_cell(n as int, b2, t2);
                    if b2 == b && t2 == t {
                        assert(row@.take(j + 1)[j as int] == t);
                    } else {
                        assert(has_pin(pins@, n as nat, b2, t2) == has_pin(before, n as nat, b2, t2));
                        if b2 == b {
                            if row@.take(j + 1).contains(t2 as usize) {
                                let k = choose|k: int| 0 <= k < j + 1 && #[trigger] row@.take(j + 1)[k] == t2 as usize;
                                assert(k < j);
                                assert(row@.take(j as int)[k] == t2 as usize);
                            }
                            if row@.take(j as int).contains(t2 as usize) {
                                let k = choose|k: int| 0 <= k < j && #[trigger] row@.take(j as int)[k] == t2 as usize;
                                assert(row@.take(j + 1)[k] == t2 as usize);
                            }
                        }
                    }
                }
            }
            j = j + 1;
        }
        proof {
            assert(row@.take(row@.len() as int) =~= row@);
        }
        b = b + 1;
    }
    pins
}


/// Whether the parent of `t` in the tree is something other than `s`.
fn parent_is_not(dom_tree: &Tree, t: usize, s: usize) -> (r: bool)
    requires
        dom_tree.wf(),
        (t as int) < dom_tree.parents().len(),
    ensures
        r == (dom_tree.parents()[t as int] != Some(s)),
{
    match dom_tree.parent(t) {
        Some(p) => p != s,
        None => true,
    }
}

/// Pins pass from successors up to blocks until nothing changes; a block
/// whose pins grew is looked at again by its predecessors.
fn propagate(
    succs: &Vec<Vec<usize>>,
    preds: &EdgeArray,
    dom_tree: &Tree,
    order: &NodeOrder,
    n: usize,
    pins: &mut PinTable,
)
    requires
        succs@.len() == n,
        n <= usize::MAX - 64,
        edges_in_range(lists_view(succs@)),
        preds@.len() == n,
        forall|w: int| 0 <= w < n ==> #[trigger] preds@[w] == predecessors(lists_view(succs@), w as usize),
        dom_tree.wf(),
        dom_tree.parents().len() == n,
        order.wf(),
        order@.len() == n,
        old(pins).wf(),
        old(pins).size() == n,
        old(pins)@.len() >= n * n,
        forall|b: int, t: int| 0 <= b < n && 0 <= t < n ==>
            #[trigger] has_pin(old(pins)@, n as nat, b, t) == pin_init(lists_view(succs@), dom_tree, b, t),
    ensures
        final(pins).wf(),
        final(pins).size() == n,
        pins_solution(lists_view(succs@), dom_tree, final(pins)@, n as nat),
        pins_least(lists_view(succs@), dom_tree, final(pins)@, n as nat),
{
    let ghost g = lists_view(succs@);
    let ghost nn = n as nat;
    proof {
        assert forall|q: Seq<bool>| #[trigger] pins_closed(g, dom_tree, q, nn) implies pins_below(pins@, q, nn) by {
            assert forall|b: int, t: int| 0 <= b < n && 0 <= t < n && #[trigger] has_pin(pins@, nn, b, t)
                implies has_pin(q, nn, b, t) by {
                assert(pin_init(g, dom_tree, b, t));
            }
        }
    }
    let mut worklist: Vec<usize> = Vec::new();
    let mut k: usize = 0;
    proof {
        order.lemma_pos();
    }
    while k < n
        invariant
            order.wf(),
            order@.len() == n,
            k <= n,
            worklist@ == order@.take(k as int),
        decreases n - k,
    {
        worklist.push(order.node_at(k));
        assert(order@.take(k + 1) =~= order@.take(k as int).push(order@[k as int]));
        k = k + 1;
    }
    let mut not_queued = BitSet::new(n);
    proof {
        assert(worklist@ =~= order@);
        assert forall|c: usize| (c as int) < n implies worklist@.contains(c) by {
            assert(worklist@[order.pos(c)] == c);
        }
        assert forall|i: int| 0 <= i < worklist@.len() implies #[trigger] worklist@[i] < n by {
            assert(order@[i] < n);
        }
        assert(worklist@.no_duplicates()) by {
            assert forall|i: int, j: int| 0 <= i < worklist@.len() && 0 <= j < worklist@.len() && i != j
                implies worklist@[i] != worklist@[j] by {
                assert(order.pos(order@[i]) == i);
                assert(order.pos(order@[j]) == j);
            }
        }
    }
    loop
        invariant
            succs@.len() == n,
            n <= usize::MAX - 64,
            g == lists_view(succs@),
            nn == n as nat,
            edges_in_range(g),
            preds@.len() == n,
            forall|w: int| 0 <= w < n ==> #[trigger] preds@[w] == predecessors(g, w as usize),
            dom_tree.wf(),
            dom_tree.parents().len() == n,
            pins.wf(),
            pins.size() == n,
            pins@.len() >= n * n,
            forall|b: int, t: int| 0 <= b < n && 0 <= t < n && #[trigger] pin_init(g, dom_tree, b, t) ==> has_pin(pins@, nn, b, t),
            forall|b: int, t: int| 0 <= b < n && 0 <= t < n && #[trigger] has_pin(pins@, nn, b, t) ==> pin_init(g, dom_tree, b, t)
                || exists|s: int| 0 <= s < n && #[trigger] pin_passes(g, dom_tree, pins@, nn, b, s, t),
            worklist@.no_duplicates(),
            forall|i: int| 0 <= i < worklist@.len() ==> #[trigger] worklist@[i] < n,
            not_queued.wf(),
            not_queued@.len() >= n,
            forall|c: usize| (c as int) < n ==> (not_queued@[c as int] == !#[trigger] worklist@.contains(c)),
            forall|c: int| 0 <= c < n && not_queued@[c] ==> #[trigger] closed_at(g, dom_tree, pins@, nn, c),
            pins_least(g, dom_tree, pins@, nn),
        ensures
            pins.wf(),
            pins.size() == n,
            pins@.len() >= n * n,
            pins_solution(g, dom_tree, pins@, nn),
            pins_least(g, dom_tree, pins@, nn),
        decreases count_false(pins@), worklist@.len(),
    {
        let ghost wpre = worklist@;
        let b = match worklist.pop() {
            Some(b) => b,
            None => {
                proof {
                    assert forall|c: int| 0 <= c < n implies #[trigger] closed_at(g, dom_tree, pins@, nn, c) by {
                        assert(!worklist@.contains(c as usize));
                        assert(not_queued@[c]);
                    }
                }
                break;
            },
        };
        let ghost w0 = worklist@.push(b);
        assert(wpre =~= w0);
        let ghost pins0 = pins@;
        let ghost nq0 = not_queued@;
        proof {
            assert(w0[w0.len() - 1] == b);
            assert(b < n);
            assert(!worklist@.contains(b)) by {
                if worklist@.contains(b) {
                    let i = choose|i: int| 0 <= i < worklist@.len() && worklist@[i] == b;
                    assert(w0[i] == w0[w0.len() - 1]);
                }
            }
            assert forall|c: usize| (c as int) < n && c != b implies worklist@.contains(c) == w0.contains(c) by {
                if w0.contains(c) {
                    let i = choose|i: int| 0 <= i < w0.len() && w0[i] == c;
                    assert(worklist@[i] == c);
                }
                if worklist@.contains(c) {
                    let i = choose|i: int| 0 <= i < worklist@.len() && worklist@[i] == c;
                    assert(w0[i] == c);
                }
            }
        }
        not_queued.insert(b);
        let ghost nq1 = not_queued@;
        let ghost wl1 = worklist@;
        proof {
            assert forall|c: usize| (c as int) < n implies (nq1[c as int] == !#[trigger] wl1.contains(c)) by {
                if c != b {
                    assert(nq1[c as int] == nq0[c as int]);
                    assert(nq0[c as int] == !wpre.contains(c));
                    assert(wl1.contains(c) == w0.contains(c));
                }
            }
        }
        let row = &succs[b];
        let mut changed = false;
        let mut j: usize = 0;
        while j < row.len()
            invariant
                succs@.len() == n,
                n <= usize::MAX - 64,
                g == lists_view(succs@),
                nn == n as nat,
                edges_in_range(g),
                dom_tree.wf(),
                dom_tree.parents().len() == n,
                (b as int) < n,
                row@ == g[b as int],
                j <= row@.len(),
                pins.wf(),
                pins.size() == n,
                pins@.len() >= n * n,
                pins0.len() == pins@.len(),
                forall|x: int| 0 <= x < pins0.len() && #[trigger] pins0[x] ==> pins@[x],
                forall|s: int, t: int| 0 <= s < n && 0 <= t < n && s != b ==> #[trigger] has_pin(pins@, nn, s, t) == has_pin(pins0, nn, s, t),
                changed ==> count_false(pins@) < count_false(pins0),
                !changed ==> pins@ == pins0,
                forall|b2: int, t: int| 0 <= b2 < n && 0 <= t < n && #[trigger] has_pin(pins@, nn, b2, t) ==> pin_init(g, dom_tree, b2, t)
                    || exists|s: int| 0 <= s < n && #[trigger] pin_passes(g, dom_tree, pins@, nn, b2, s, t),
                forall|jj: int, t: int| 0 <= jj < j && 0 <= t < n && row@[jj] != b
                    && #[trigger] pin_passes(g, dom_tree, pins@, nn, b as int, row@[jj] as int, t) ==> has_pin(pins@, nn, b as int, t),
                pins_least(g, dom_tree, pins@, nn),
            decreases row@.len() - j,
        {
            let s = row[j];
            assert((s as int) < n) by {
                assert(g[b as int][j as int] < g.len());
            }
            if s != b {
                let mut t: usize = 0;
                while t < n
                    invariant
                        succs@.len() == n,
                        n <= usize::MAX - 64,
                        g == lists_view(succs@),
                        nn == n as nat,
                        edges_in_range(g),
                        dom_tree.wf(),
                        dom_tree.parents().len() == n,
                        (b as int) < n,
                        (s as int) < n,
                        s != b,
                        row@ == g[b as int],
                        j < row@.len(),
                        row@[j as int] == s,
                        t <= n,
                        pins.wf(),
                        pins.size() == n,
                        pins@.len() >= n * n,
                        pins0.len() == pins@.len(),
                        forall|x: int| 0 <= x < pins0.len() && #[trigger] pins0[x] ==> pins@[x],
                        forall|s2: int, t2: int| 0 <= s2 < n && 0 <= t2 < n && s2 != b ==> #[trigger] has_pin(pins@, nn, s2, t2) == has_pin(pins0, nn, s2, t2),
                        changed ==> count_false(pins@) < count_false(pins0),
                        !changed ==> pins@ == pins0,
                        forall|b2: int, t2: int| 0 <= b2 < n && 0 <= t2 < n && #[trigger] has_pin(pins@, nn, b2, t2) ==> pin_init(g, dom_tree, b2, t2)
                            || exists|s2: int| 0 <= s2 < n && #[trigger] pin_passes(g, dom_tree, pins@, nn, b2, s2, t2),
                        forall|jj: int, t2: int| 0 <= jj < j && 0 <= t2 < n && row@[jj] != b
                            && #[trigger] pin_passes(g, dom_tree, pins@, nn, b as int, row@[jj] as int, t2) ==> has_pin(pins@, nn, b as int, t2),
                        forall|t2: int| 0 <= t2 < t
                            && #[trigger] pin_passes(g, dom_tree, pins@, nn, b as int, s as int, t2) ==> has_pin(pins@, nn, b as int, t2),
                        pins_least(g, dom_tree, pins@, nn),
                    decreases n - t,
                {
                    let ghost before = pins@;
                    if pins.contains(s, t) && parent_is_not(dom_tree, t, s) {
                        let ghost cbt = cell(n as int, b as int, t as int);
                        proof {
                            lemma_cell(n as int, b as int, t as int);
                            assert(g[b as int].contains(s)) by {
                                assert(g[b as int][j as int] == s);
                            }
                            assert(pin_passes(g, dom_tree, before, nn, b as int, s as int, t as int));
                        }
                        if pins.insert(b, t) {
                            changed = true;
                        }
                        proof {
                            assert forall|q: Seq<bool>| #[trigger] pins_closed(g, dom_tree, q, nn) implies pins_below(pins@, q, nn) by {
                                assert(pins_below(before, q, nn));
                                lemma_cell(n as int, s as int, t as int);
                                assert(has_pin(before, nn, s as int, t as int));
                                assert(has_pin(q, nn, s as int, t as int));
                                assert(pin_passes(g, dom_tree, q, nn, b as int, s as int, t as int));
                                assert(closed_at(g, dom_tree, q, nn, b as int));
                                assert forall|b2: int, t2: int| 0 <= b2 < n && 0 <= t2 < n && #[trigger] has_pin(pins@, nn, b2, t2)
                                    implies has_pin(q, nn, b2, t2) by {
                                    lemma_cell(n as int, b2, t2);
                                    if !(b2 == b && t2 == t) {
                                        assert(has_pin(before, nn, b2, t2));
                                    }
                                }
                            }
                            lemma_count_false_update(before, cbt, true);
                            assert forall|x: int| 0 <= x < pins0.len() && #[trigger] pins0[x] implies pins@[x] by {
                                assert(before[x]);
                            }
                            assert forall|s2: int, t2: int| 0 <= s2 < n && 0 <= t2 < n && s2 != b implies
                                #[trigger] has_pin(pins@, nn, s2, t2) == has_pin(pins0, nn, s2, t2) by {
                                lemma_cell(n as int, s2, t2);
                                assert(has_pin(before, nn, s2, t2) == has_pin(pins0, nn, s2, t2));
                            }
                            assert forall|b2: int, t2: int| 0 <= b2 < n && 0 <= t2 < n && #[trigger] has_pin(pins@, nn, b2, t2) implies
                                pin_init(g, dom_tree, b2, t2)
                                || exists|s2: int| 0 <= s2 < n && #[trigger] pin_passes(g, dom_tree, pins@, nn, b2, s2, t2) by {
                                lemma_cell(n as int, b2, t2);
                                if b2 == b && t2 == t {
                                    lemma_cell(n as int, s as int, t as int);
                                    assert(pin_passes(g, dom_tree, pins@, nn, b2, s as int, t2));
                                } else {
                                    assert(has_pin(before, nn, b2, t2));
                                    if !pin_init(g, dom_tree, b2, t2) {
                                        let s3 = choose|s3: int| 0 <= s3 < n && #[trigger] pin_passes(g, dom_tree, before, nn, b2, s3, t2);
                                        lemma_cell(n as int, s3, t2);
                                        assert(pin_passes(g, dom_tree, pins@, nn, b2, s3, t2));
                                    }
                                }
                            }
                            assert forall|jj: int, t2: int| 0 <= jj < j && 0 <= t2 < n && row@[jj] != b
                                && #[trigger] pin_passes(g, dom_tree, pins@, nn, b as int, row@[jj] as int, t2) implies has_pin(pins@, nn, b as int, t2) by {
                                let s3 = row@[jj] as int;
                                assert(0 <= s3 < n) by {
                                    assert(g[b as int][jj] < g.len());
                                }
                                lemma_cell(n as int, s3, t2);
                                lemma_cell(n as int, b as int, t2);
                                assert(pin_passes(g, dom_tree, before, nn, b as int, s3, t2));
                                assert(has_pin(before, nn, b as int, t2));
                            }
                            assert forall|t2: int| 0 <= t2 < t + 1
                                && #[trigger] pin_passes(g, dom_tree, pins@, nn, b as int, s as int, t2) implies has_pin(pins@, nn, b as int, t2) by {
                                lemma_cell(n as int, s as int, t2);
                                lemma_cell(n as int, b as int, t2);
                                if t2 < t {
                                    assert(pin_passes(g, dom_tree, before, nn, b as int, s as int, t2));
                                    assert(has_pin(before, nn, b as int, t2));
                                }
                            }
                        }
                    } else {
                        proof {
                            lemma_cell(n as int, s as int, t as int);
                            if pin_passes(g, dom_tree, pins@, nn, b as int, s as int, t as int) {
                                assert(has_pin(pins@, nn, s as int, t as int));
                            }
                        }
                    }
                    t = t + 1;
                }
            }
            j = j + 1;
        }
        proof {
            assert forall|s2: int, t2: int| 0 <= s2 < n && 0 <= t2 < n && #[trigger] pin_passes(g, dom_tree, pins@, nn, b as int, s2, t2)
                implies has_pin(pins@, nn, b as int, t2) by {
                let jj = choose|jj: int| 0 <= jj < row@.len() && row@[jj] == s2 as usize;
                assert(pin_passes(g, dom_tree, pins@, nn, b as int, row@[jj] as int, t2));
            }
            assert(closed_at(g, dom_tree, pins@, nn, b as int));
            assert forall|b2: int, t2: int| 0 <= b2 < n && 0 <= t2 < n && #[trigger] pin_init(g, dom_tree, b2, t2) implies has_pin(pins@, nn, b2, t2) by {
                lemma_cell(n as int, b2, t2);
                assert(has_pin(pins0, nn, b2, t2));
            }
            assert(not_queued@ == nq1);
            assert(worklist@ == wl1);
            assert forall|c: int| 0 <= c < n && not_queued@[c] implies #[trigger] closed_at(g, dom_tree, pins@, nn, c)
                || g[c].contains(b) by {
                if c != b as int && !g[c].contains(b) {
                    assert(nq0[c]);
                    assert(closed_at(g, dom_tree, pins0, nn, c));
                    assert forall|s2: int, t2: int| 0 <= s2 < n && 0 <= t2 < n && #[trigger] pin_passes(g, dom_tree, pins@, nn, c, s2, t2)
                        implies has_pin(pins@, nn, c, t2) by {
                        assert(s2 != b as int);
                        assert(has_pin(pins@, nn, s2, t2) == has_pin(pins0, nn, s2, t2));
                        assert(pin_passes(g, dom_tree, pins0, nn, c, s2, t2));
                        assert(has_pin(pins0, nn, c, t2));
                        lemma_cell(n as int, c, t2);
                    }
                }
            }
        }
        if changed {
            let ps = preds.edges_from(b);
            let mut i: usize = 0;
            while i < ps.len()
                invariant
                    succs@.len() == n,
                    g == lists_view(succs@),
                    nn == n as nat,
                    edges_in_range(g),
                    preds@.len() == n,
                    forall|w: int| 0 <= w < n ==> #[trigger] preds@[w] == predecessors(g, w as usize),
                    (b as int) < n,
                    ps@ == preds@[b as int],
                    i <= ps@.len(),
                    worklist@.no_duplicates(),
                    forall|x: int| 0 <= x < worklist@.len() ==> #[trigger] worklist@[x] < n,
                    not_queued.wf(),
                    not_queued@.len() >= n,
                    forall|c: usize| (c as int) < n ==> (not_queued@[c as int] == !#[trigger] worklist@.contains(c)),
                    forall|c: int| 0 <= c < n && not_queued@[c] ==> #[trigger] closed_at(g, dom_tree, pins@, nn, c)
                        || (g[c].contains(b) && !ps@.take(i as int).contains(c as usize)),
                decreases ps@.len() - i,
            {
                let p = ps[i];
                proof {
                    lemma_predecessors_in_range(g, b);
                    assert(ps@[i as int] < n);
                }
                let ghost wl0 = worklist@;
                let ghost nqa = not_queued@;
                if not_queued.remove(p) {
                    worklist.push(p);
                    proof {
                        assert(!wl0.contains(p));
                        assert forall|a: int, c: int| 0 <= a < worklist@.len() && 0 <= c < worklist@.len() && a != c
                            implies worklist@[a] != worklist@[c] by {
                            if a < wl0.len() && c < wl0.len() {
                                assert(wl0[a] != wl0[c]);
                            } else if a < wl0.len() {
                                assert(wl0.contains(wl0[a]));
                            } else {
                                assert(wl0.contains(wl0[c]));
                            }
                        }
                        assert forall|c: usize| (c as int) < n implies (not_queued@[c as int] == !#[trigger] worklist@.contains(c)) by {
                            if c == p {
                                assert(worklist@[worklist@.len() - 1] == c);
                            } else {
                                if worklist@.contains(c) {
                                    let x = choose|x: int| 0 <= x < worklist@.len() && worklist@[x] == c;
                                    assert(wl0[x] == c);
                                }
                                if wl0.contains(c) {
                                    let x = choose|x: int| 0 <= x < wl0.len() && wl0[x] == c;
                                    assert(worklist@[x] == c);
                                }
                            }
                        }
                    }
                }
                proof {
                    assert(ps@.take(i + 1) =~= ps@.take(i as int).push(p));
                    assert forall|c: int| 0 <= c < n && not_queued@[c] implies #[trigger] closed_at(g, dom_tree, pins@, nn, c)
                        || (g[c].contains(b) && !ps@.take(i + 1).contains(c as usize)) by {
                        assert(nqa[c]);
                        if c != p as int && ps@.take(i + 1).contains(c as usize) {
                            let x = choose|x: int| 0 <= x < i + 1 && #[trigger] ps@.take(i + 1)[x] == c as usize;
                            assert(x != i);
                            assert(ps@.take(i as int)[x] == c as usize);
                        }
                    }
                }
                i = i + 1;
            }
            proof {
                assert(ps@.take(ps@.len() as int) =~= ps@);
                assert forall|c: int| 0 <= c < n && not_queued@[c] implies #[trigger] closed_at(g, dom_tree, pins@, nn, c) by {
                    if !closed_at(g, dom_tree, pins@, nn, c) {
                        lemma_predecessors_contains(g, b, c as usize);
                    }
                }
            }
        } else {
            proof {
                assert forall|c: int| 0 <= c < n && not_queued@[c] implies #[trigger] closed_at(g, dom_tree, pins@, nn, c) by {
                    if c != b as int {
                        assert(nq0[c]);
                        assert(closed_at(g, dom_tree, pins0, nn, c));
                    }
                }
            }
        }
    }
}


/// `pinned_upto` for the blocks below `t`, together with the variables
/// `extra` of block `t`, pinned through when `through` holds.
pub open spec fn pinned_partial(tree: &Tree, pins: Seq<bool>, n: nat, live: Seq<BlockLiveness>, b: int, t: int,
    extra: Set<usize>, through: bool) -> Map<usize, PinState> {
    Map::new(
        |x: usize| (exists|t2: int| 0 <= t2 < t && #[trigger] contributes(tree, pins, n, live, b, t2, x)) || extra.contains(x),
        |x: usize| if (exists|t2: int| 0 <= t2 < t && #[trigger] contributes(tree, pins, n, live, b, t2, x) && tree.parents()[t2] != Some(b as usize))
            || (through && extra.contains(x)) {
            PinState::PinThrough
        } else {
            PinState::PinOut
        },
    )
}

proof fn lemma_pinned_step(tree: &Tree, pins: Seq<bool>, n: nat, live: Seq<BlockLiveness>, b: int, t: int)
    requires
        0 <= t,
    ensures
        has_pin(pins, n, b, t) ==> pinned_upto(tree, pins, n, live, b, t + 1)
            == pinned_partial(tree, pins, n, live, b, t, Set::new(|x: usize| live_in_at(live, t, x)), tree.parents()[t] != Some(b as usize)),
        !has_pin(pins, n, b, t) ==> pinned_upto(tree, pins, n, live, b, t + 1) == pinned_upto(tree, pins, n, live, b, t),
        pinned_upto(tree, pins, n, live, b, t) == pinned_partial(tree, pins, n, live, b, t, Set::empty(), false),
{
    let extra = Set::new(|x: usize| live_in_at(live, t, x));
    let through = tree.parents()[t] != Some(b as usize);
    assert(pinned_upto(tree, pins, n, live, b, t) =~= pinned_partial(tree, pins, n, live, b, t, Set::empty(), false));
    let a = pinned_upto(tree, pins, n, live, b, t + 1);
    if has_pin(pins, n, b, t) {
        let c = pinned_partial(tree, pins, n, live, b, t, extra, through);
        assert forall|x: usize| #[trigger] a.contains_key(x) == c.contains_key(x) by {
            if a.contains_key(x) {
                let t2 = choose|t2: int| 0 <= t2 < t + 1 && #[trigger] contributes(tree, pins, n, live, b, t2, x);
                if t2 < t {
                    assert(exists|t3: int| 0 <= t3 < t && #[trigger] contributes(tree, pins, n, live, b, t3, x));
                }
            }
            if c.contains_key(x) && extra.contains(x) {
                assert(contributes(tree, pins, n, live, b, t, x));
            }
        }
        assert forall|x: usize| #[trigger] a.contains_key(x) implies a[x] == c[x] by {
            let pa = exists|t2: int| 0 <= t2 < t + 1 && #[trigger] contributes(tree, pins, n, live, b, t2, x) && tree.parents()[t2] != Some(b as usize);
            let pc = (exists|t2: int| 0 <= t2 < t && #[trigger] contributes(tree, pins, n, live, b, t2, x) && tree.parents()[t2] != Some(b as usize))
                || (through && extra.contains(x));
            if pa {
                let t2 = choose|t2: int| 0 <= t2 < t + 1 && #[trigger] contributes(tree, pins, n, live, b, t2, x) && tree.parents()[t2] != Some(b as usize);
                if t2 < t {
                    assert(exists|t3: int| 0 <= t3 < t && #[trigger] contributes(tree, pins, n, live, b, t3, x) && tree.parents()[t3] != Some(b as usize));
                }
            }
            if pc {
                if through && extra.contains(x) {
                    assert(contributes(tree, pins, n, live, b, t, x));
                } else {
                    let t2 = choose|t2: int| 0 <= t2 < t && #[trigger] contributes(tree, pins, n, live, b, t2, x) && tree.parents()[t2] != Some(b as usize);
                    assert(0 <= t2 < t + 1);
                }
            }
            assert(pa == pc);
        }
        assert(a =~= c);
    } else {
        let c = pinned_upto(tree, pins, n, live, b, t);
        assert forall|x: usize| #[trigger] a.contains_key(x) == c.contains_key(x) by {
            if a.contains_key(x) {
                let t2 = choose|t2: int| 0 <= t2 < t + 1 && #[trigger] contributes(tree, pins, n, live, b, t2, x);
                assert(t2 != t);
            }
        }
        assert forall|x: usize| #[trigger] a.contains_key(x) implies a[x] == c[x] by {
            let pa = exists|t2: int| 0 <= t2 < t + 1 && #[trigger] contributes(tree, pins, n, live, b, t2, x) && tree.parents()[t2] != Some(b as usize);
            if pa {
                let t2 = choose|t2: int| 0 <= t2 < t + 1 && #[trigger] contributes(tree, pins, n, live, b, t2, x) && tree.parents()[t2] != Some(b as usize);
                assert(t2 != t);
            }
        }
        assert(a =~= c);
    }
}

fn pinned_of_block(b: usize, n: usize, pins: &PinTable, dom_tree: &Tree, liveness: &Vec<BlockLiveness>) -> (r: Pinning)
    requires
        pins.wf(),
        pins.size() == n,
        pins@.len() >= n * n,
        n <= usize::MAX - 64,
        b < n,
        dom_tree.wf(),
        dom_tree.parents().len() == n,
        liveness@.len() == n,
        forall|t: int| 0 <= t < n ==> #[trigger] liveness@[t].wf(),
    ensures
        r.wf(),
        r@ == pinned_upto(dom_tree, pins@, n as nat, liveness@, b as int, n as int),
{
    let ghost nn = n as nat;
    let mut pm: VarMap<PinState> = VarMap::new();
    proof {
        lemma_pinned_step(dom_tree, pins@, nn, liveness@, b as int, 0);
        assert(pinned_partial(dom_tree, pins@, nn, liveness@, b as int, 0, Set::empty(), false) =~= Map::empty());
    }
    let mut t: usize = 0;
    while t < n
        invariant
            pins.wf(),
            pins.size() == n,
            pins@.len() >= n * n,
            n <= usize::MAX - 64,
            nn == n as nat,
            b < n,
            dom_tree.wf(),
            dom_tree.parents().len() == n,
            liveness@.len() == n,
            forall|t2: int| 0 <= t2 < n ==> #[trigger] liveness@[t2].wf(),
            t <= n,
            pm.wf(),
            pm@ == pinned_upto(dom_tree, pins@, nn, liveness@, b as int, t as int),
        decreases n - t,
    {
        proof {
            lemma_pinned_step(dom_tree, pins@, nn, liveness@, b as int, t as int);
        }
        if pins.contains(b, t) {
            let through = parent_is_not(dom_tree, t, b);
            let state = if through { PinState::PinThrough } else { PinState::PinOut };
            let vars = liveness[t].live_in_vars();
            let ghost extra = Set::new(|x: usize| live_in_at(liveness@, t as int, x));
            let mut i: usize = 0;
            while i < vars.len()
                invariant
                    pm.wf(),
                    i <= vars@.len(),
                    vars@.no_duplicates(),
                    forall|x: usize| vars@.contains(x) == extra.contains(x),
                    state == (if through { PinState::PinThrough } else { PinState::PinOut }),
                    pm@ == pinned_partial(dom_tree, pins@, nn, liveness@, b as int, t as int,
                        Set::new(|x: usize| vars@.take(i as int).contains(x)), through),
                decreases vars@.len() - i,
            {
                let x = vars[i];
                let ghost pm0 = pm@;
                match pm.get(x) {
                    Some(_) => {
                        if through {
                            pm.insert(x, PinState::PinThrough);
                        }
                    },
                    None => {
                        pm.insert(x, state);
                    },
                }
                proof {
                    let s0 = Set::new(|y: usize| vars@.take(i as int).contains(y));
                    let s1 = Set::new(|y: usize| vars@.take(i + 1).contains(y));
                    assert(vars@.take(i + 1) =~= vars@.take(i as int).push(x));
                    assert forall|y: usize| s1.contains(y) == (s0.contains(y) || y == x) by {
                        if s1.contains(y) && y != x {
                            let k = choose|k: int| 0 <= k < i + 1 && #[trigger] vars@.take(i + 1)[k] == y;
                            assert(vars@.take(i as int)[k] == y);
                        }
                        if s0.contains(y) {
                            let k = choose|k: int| 0 <= k < i && #[trigger] vars@.take(i as int)[k] == y;
                            assert(vars@.take(i + 1)[k] == y);
                        }
                        if y == x {
                            assert(vars@.take(i + 1)[i as int] == y);
                        }
                    }
                    let target = pinned_partial(dom_tree, pins@, nn, liveness@, b as int, t as int, s1, through);
                    assert(pm@ =~= target);
                }
                i = i + 1;
            }
            proof {
                assert(vars@.take(vars@.len() as int) =~= vars@);
                assert(Set::new(|x: usize| vars@.take(vars@.len() as int).contains(x)) =~= extra);
            }
        }
        t = t + 1;
    }
    Pinning { pinned: pm }
}

/// For each block, the live variables that must stay where they are on
/// the stack when control leaves it: those live into a successor that the
/// block does not dominate (or into itself), and, passed up from
/// successors, those pinned there for a block other than the successor's
/// dominator tree child. The pins are the least set that these rules close.
pub fn pinning(
    succs: &Vec<Vec<usize>>,
    preds: &EdgeArray,
    order: &NodeOrder,
    dom_tree: &Tree,
    liveness: &Vec<BlockLiveness>,
) -> (r: Vec<Pinning>)
    requires
        succs@.len() == order@.len(),
        order@.len() <= usize::MAX - 64,
        edges_in_range(lists_view(succs@)),
        preds@.len() == succs@.len(),
        forall|w: int| 0 <= w < succs@.len() ==> #[trigger] preds@[w] == predecessors(lists_view(succs@), w as usize),
        order.wf(),
        dom_tree.wf(),
        dom_tree.parents().len() == succs@.len(),
        liveness@.len() == succs@.len(),
        forall|t: int| 0 <= t < succs@.len() ==> #[trigger] liveness@[t].wf(),
    ensures
        r@.len() == succs@.len(),
        exists|pins: Seq<bool>| {
            &&& #[trigger] pins_solution(lists_view(succs@), dom_tree, pins, succs@.len())
            &&& pins_least(lists_view(succs@), dom_tree, pins, succs@.len())
            &&& forall|b: int| 0 <= b < succs@.len() ==> #[trigger] r@[b].wf()
                && r@[b]@ == pinned_upto(dom_tree, pins, succs@.len(), liveness@, b, succs@.len() as int)
        },
{
    let n = succs.len();
    let mut pins = init_pins(succs, dom_tree, n);
    propagate(succs, preds, dom_tree, order, n, &mut pins);
    let mut r: Vec<Pinning> = Vec::new();
    let mut b: usize = 0;
    while b < n
        invariant
            n == succs@.len(),
            pins.wf(),
            pins.size() == n,
            pins@.len() >= n * n,
            n <= usize::MAX - 64,
            dom_tree.wf(),
            dom_tree.parents().len() == n,
            liveness@.len() == n,
            forall|t: int| 0 <= t < n ==> #[trigger] liveness@[t].wf(),
            b <= n,
            r@.len() == b,
            forall|b2: int| 0 <= b2 < b ==> #[trigger] r@[b2].wf()
                && r@[b2]@ == pinned_upto(dom_tree, pins@, n as nat, liveness@, b2, n as int),
        decreases n - b,
    {
        let p = pinned_of_block(b, n, &pins, dom_tree, liveness);
        r.push(p);
        b = b + 1;
    }
    proof {
        assert(pins_solution(lists_view(succs@), dom_tree, pins@, n as nat));
        assert(pins_least(lists_view(succs@), dom_tree, pins@, n as nat));
    }
    r
}


/// A control-flow graph: numbered blocks, an entry, and edges both ways.
pub trait Cfg: Graph + EntryNode + Successors + Predecessors {}

impl<T: Graph + EntryNode + Successors + Predecessors> Cfg for T {}

/// A procedure as the analyses see it: a control-flow graph, and in each
/// block the variables each instruction defines or uses, in order.
pub trait Procedure {
    type BlockId: Idx;
    type VarId;
    type InstrIdx;
    type Flow: Cfg<Node = Self::BlockId>;

    spec fn proc_wf(&self) -> bool;

    /// The graph of the procedure.
    spec fn cfg_view(&self) -> Self::Flow;

    /// The instructions of block `b`, each with its place, its variable and
    /// whether it defines or uses it.
    spec fn instr_view(&self, b: usize) -> Seq<(Self::InstrIdx, Self::VarId, DefUse)>;

    fn cfg(&self) -> (r: &Self::Flow)
        requires
            self.proc_wf(),
        ensures
            *r == self.cfg_view(),
            r.graph_wf();

    fn instructions(&self, b: Self::BlockId) -> (r: Vec<(Self::InstrIdx, Self::VarId, DefUse)>)
        requires
            self.proc_wf(),
            b.idx_view() < self.cfg_view().node_total(),
        ensures
            r@ == self.instr_view(b.idx_view());
}

} // verus!
