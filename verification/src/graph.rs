//! Directed graphs on the nodes `0..n`, given by successor lists, and the
//! algorithms the code generator runs on them: predecessor lists, depth-first
//! postorder, immediate dominators, and rooted trees with their walks.

use vstd::prelude::*;
use crate::utils::bitset::BitSet;
use crate::ancestry::{up, is_above, common_above, nearest_common, lemma_above_trans, lemma_above_parent};
use crate::utils::shift_stack::ShiftStack;

verus! {

/// The lists of a vector of vectors, as sequences.
pub open spec fn lists_view(v: Seq<Vec<usize>>) -> Seq<Seq<usize>> {
    v.map_values(|l: Vec<usize>| l@)
}

/// Whether every edge of `g` leads to a node of `g`.
pub open spec fn edges_in_range(g: Seq<Seq<usize>>) -> bool {
    forall|v: int, i: int| 0 <= v < g.len() && 0 <= i < g[v].len() ==> #[trigger] g[v][i] < g.len()
}

/// Edge lists, one per node.
pub struct EdgeArray {
    lists: Vec<Vec<usize>>,
}

impl EdgeArray {
    pub closed spec fn view(&self) -> Seq<Seq<usize>> {
        lists_view(self.lists@)
    }

    /// The edges that leave `node`.
    pub fn edges_from(&self, node: usize) -> (r: &[usize])
        requires
            node < self@.len(),
        ensures
            r@ == self@[node as int],
    {
        self.lists[node].as_slice()
    }

    pub fn node_count(&self) -> (n: usize)
        ensures
            n == self@.len(),
    {
        self.lists.len()
    }
}

/// The sources `u` of the edges `u → w` among the first `i` edges of row `u`.
pub open spec fn row_sources(row: Seq<usize>, i: int, u: usize, w: usize) -> Seq<usize>
    decreases i,
{
    if i <= 0 || i > row.len() {
        Seq::empty()
    } else {
        row_sources(row, i - 1, u, w) + if row[i - 1] == w { seq![u] } else { Seq::empty() }
    }
}

/// The sources of the edges into `w` from the nodes below `v`, in the order
/// of the successor lists.
pub open spec fn sources(g: Seq<Seq<usize>>, v: int, w: usize) -> Seq<usize>
    decreases v,
{
    if v <= 0 || v > g.len() {
        Seq::empty()
    } else {
        sources(g, v - 1, w) + row_sources(g[v - 1], g[v - 1].len() as int, (v - 1) as usize, w)
    }
}

/// The predecessor list of `w`: the sources of its incoming edges, last
/// found first, one entry per edge.
pub open spec fn predecessors(g: Seq<Seq<usize>>, w: usize) -> Seq<usize> {
    sources(g, g.len() as int, w).reverse()
}

/// Computes the predecessor lists of a graph given by successor lists.
pub fn predecessor_edges(succs: &Vec<Vec<usize>>) -> (r: EdgeArray)
    requires
        edges_in_range(lists_view(succs@)),
    ensures
        r@.len() == succs@.len(),
        forall|w: int| 0 <= w < r@.len() ==> #[trigger] r@[w] == predecessors(lists_view(succs@), w as usize),
{
    let ghost g = lists_view(succs@);
    let n = succs.len();
    let mut lists: Vec<Vec<usize>> = Vec::new();
    let mut k: usize = 0;
    while k < n
        invariant
            k <= n,
            n == succs@.len(),
            lists@.len() == k,
            forall|w: int| 0 <= w < k ==> #[trigger] lists@[w]@ == Seq::<usize>::empty(),
        decreases n - k,
    {
        lists.push(Vec::new());
        k = k + 1;
    }
    let mut v: usize = 0;
    while v < n
        invariant
            v <= n,
            n == succs@.len(),
            g == lists_view(succs@),
            edges_in_range(g),
            lists@.len() == n,
            forall|w: int| 0 <= w < n ==> #[trigger] lists@[w]@ == sources(g, v as int, w as usize),
        decreases n - v,
    {
        let row = &succs[v];
        let mut i: usize = 0;
        while i < row.len()
            invariant
                i <= row@.len(),
                v < n,
                n == succs@.len(),
                g == lists_view(succs@),
                row@ == g[v as int],
                edges_in_range(g),
                lists@.len() == n,
                forall|w: int| 0 <= w < n ==> #[trigger] lists@[w]@
                    == sources(g, v as int, w as usize) + row_sources(row@, i as int, v, w as usize),
            decreases row@.len() - i,
        {
            let w = row[i];
            assert(w < n) by {
                assert(g[v as int][i as int] < g.len());
            }
            let ghost before = lists@;
            lists[w].push(v);
            proof {
                assert forall|x: int| 0 <= x < n implies #[trigger] lists@[x]@
                    == sources(g, v as int, x as usize) + row_sources(row@, i + 1, v, x as usize) by {
                    if x == w as int {
                        assert(lists@[x]@ == before[x]@.push(v));
                    } else {
                        assert(lists@[x] == before[x]);
                    }
                }
            }
            i = i + 1;
        }
        v = v + 1;
    }
    let mut w: usize = 0;
    while w < n
        invariant
            w <= n,
            n == succs@.len(),
            g == lists_view(succs@),
            lists@.len() == n,
            forall|x: int| 0 <= x < w ==> #[trigger] lists@[x]@ == predecessors(g, x as usize),
            forall|x: int| w <= x < n ==> #[trigger] lists@[x]@ == sources(g, n as int, x as usize),
        decreases n - w,
    {
        let ghost before = lists@;
        let mut fwd: Vec<usize> = Vec::new();
        std::mem::swap(&mut fwd, &mut lists[w]);
        let mut rev: Vec<usize> = Vec::new();
        let mut j: usize = fwd.len();
        while j > 0
            invariant
                j <= fwd@.len(),
                rev@ == fwd@.subrange(j as int, fwd@.len() as int).reverse(),
            decreases j,
        {
            rev.push(fwd[j - 1]);
            assert(fwd@.subrange(j - 1, fwd@.len() as int).reverse()
                =~= fwd@.subrange(j as int, fwd@.len() as int).reverse().push(fwd@[j - 1]));
            j = j - 1;
        }
        assert(fwd@.subrange(0, fwd@.len() as int) =~= fwd@);
        lists.set(w, rev);
        proof {
            assert forall|x: int| 0 <= x < n && x != w implies #[trigger] lists@[x] == before[x] by {}
        }
        w = w + 1;
    }
    let r = EdgeArray { lists };
    assert(r@.len() == n);
    r
}


/// Entering (`exit` false) or leaving (`exit` true) a node in a walk.
#[derive(Clone, Copy, Debug, PartialEq, Eq, Structural)]
pub struct NodeVisit {
    pub node: usize,
    pub exit: bool,
}

/// The depth-first walk from `v` down its child lists, to at most `fuel`
/// levels: enter `v`, walk each child in order, leave `v`. A tree on `n`
/// nodes is at most `n` levels deep.
pub open spec fn walk(ch: Seq<Seq<usize>>, v: usize, fuel: nat) -> Seq<NodeVisit>
    decreases fuel, 0nat, 0int,
{
    if fuel == 0 || v >= ch.len() {
        Seq::empty()
    } else {
        seq![NodeVisit { node: v, exit: false }]
            + walk_children(ch, ch[v as int], ch[v as int].len() as int, (fuel - 1) as nat)
            + seq![NodeVisit { node: v, exit: true }]
    }
}

/// The walks from the first `k` nodes of `cs`, one after the other.
pub open spec fn walk_children(ch: Seq<Seq<usize>>, cs: Seq<usize>, k: int, fuel: nat) -> Seq<NodeVisit>
    decreases fuel, 1nat, k,
{
    if k <= 0 || k > cs.len() {
        Seq::empty()
    } else {
        walk_children(ch, cs, k - 1, fuel) + walk(ch, cs[k - 1], fuel)
    }
}

/// The successor lists that lead from each node to its parent.
pub open spec fn parent_lists(parents: Seq<Option<usize>>) -> Seq<Seq<usize>> {
    Seq::new(parents.len(), |v: int| match parents[v] {
        Some(p) => seq![p],
        None => Seq::empty(),
    })
}

/// The state after the first `i` visits of a walk: each node's entry and
/// exit times, the time (visits entered so far), the depth and the
/// greatest depth reached.
pub open spec fn interval_state(events: Seq<NodeVisit>, i: int, n: nat) -> (Seq<(usize, usize)>, int, int, int)
    decreases i,
{
    if i <= 0 || i > events.len() {
        (Seq::new(n, |v: int| (0usize, 0usize)), 0, 0, 0)
    } else {
        let (r, t, d, h) = interval_state(events, i - 1, n);
        let e = events[i - 1];
        if !e.exit {
            (r.update(e.node as int, (t as usize, r[e.node as int].1)), t + 1, d + 1, if d + 1 > h { d + 1 } else { h })
        } else {
            (r.update(e.node as int, (r[e.node as int].0, t as usize)), t, if d > 0 { d - 1 } else { 0 }, h)
        }
    }
}

pub(crate) proof fn lemma_walk_nodes(ch: Seq<Seq<usize>>, v: usize, fuel: nat)
    requires
        edges_in_range(ch),
    ensures
        forall|i: int| 0 <= i < walk(ch, v, fuel).len() ==> #[trigger] walk(ch, v, fuel)[i].node < ch.len(),
    decreases fuel, 0nat, 0int,
{
    if fuel > 0 && v < ch.len() {
        let wc = walk_children(ch, ch[v as int], ch[v as int].len() as int, (fuel - 1) as nat);
        lemma_walk_children_nodes(ch, ch[v as int], ch[v as int].len() as int, (fuel - 1) as nat);
        let w = walk(ch, v, fuel);
        assert forall|i: int| 0 <= i < w.len() implies #[trigger] w[i].node < ch.len() by {
            if 0 < i <= wc.len() {
                assert(w[i] == wc[i - 1]);
            }
        }
    }
}

pub(crate) proof fn lemma_walk_children_nodes(ch: Seq<Seq<usize>>, cs: Seq<usize>, k: int, fuel: nat)
    requires
        edges_in_range(ch),
    ensures
        forall|i: int| 0 <= i < walk_children(ch, cs, k, fuel).len()
            ==> #[trigger] walk_children(ch, cs, k, fuel)[i].node < ch.len(),
    decreases fuel, 1nat, k,
{
    if k > 0 && k <= cs.len() {
        lemma_walk_children_nodes(ch, cs, k - 1, fuel);
        lemma_walk_nodes(ch, cs[k - 1], fuel);
        let a = walk_children(ch, cs, k - 1, fuel);
        let b = walk(ch, cs[k - 1], fuel);
        let w = walk_children(ch, cs, k, fuel);
        assert forall|i: int| 0 <= i < w.len() implies #[trigger] w[i].node < ch.len() by {
            if i < a.len() {
                assert(w[i] == a[i]);
            } else {
                assert(w[i] == b[i - a.len()]);
            }
        }
    }
}

/// A rooted tree on the nodes `0..n`, given by each node's parent.
pub struct Tree {
    root: usize,
    parents: Vec<Option<usize>>,
    children: EdgeArray,
    intervals: Vec<(usize, usize)>,
    height: usize,
}

impl Tree {
    pub closed spec fn root(&self) -> usize {
        self.root
    }

    pub closed spec fn parents(&self) -> Seq<Option<usize>> {
        self.parents@
    }

    /// Each node's children, in the order the walk visits them.
    pub closed spec fn children(&self) -> Seq<Seq<usize>> {
        self.children@
    }

    /// The depth-first walk of the tree from its root.
    pub open spec fn events(&self) -> Seq<NodeVisit> {
        walk(self.children(), self.root(), self.parents().len())
    }

    /// Each node's entry and exit times in the walk.
    pub closed spec fn intervals(&self) -> Seq<(usize, usize)> {
        self.intervals@
    }

    pub closed spec fn height_spec(&self) -> nat {
        self.height as nat
    }

    pub closed spec fn wf(&self) -> bool {
        &&& self.root < self.parents@.len()
        &&& self.children@.len() == self.parents@.len()
        &&& edges_in_range(self.children@)
        &&& forall|v: int| 0 <= v < self.parents@.len() ==> match #[trigger] self.parents@[v] {
            Some(p) => p < self.parents@.len(),
            None => true,
        }
        &&& self.intervals@.len() == self.parents@.len()
        &&& self.parents@.len() <= usize::MAX
        &&& forall|p: int| 0 <= p < self.parents@.len() ==> #[trigger] self.children@[p]
            == predecessors(parent_lists(self.parents@), p as usize)
        &&& self.intervals@ == interval_state(self.events(), self.events().len() as int, self.parents@.len()).0
    }

    /// The tree with root `root` in which `parents[v]` is the parent of `v`.
    pub fn new(root: usize, parents: Vec<Option<usize>>) -> (t: Tree)
        requires
            root < parents@.len(),
            parents@[root as int] is None,
            forall|v: int| 0 <= v < parents@.len() ==> match #[trigger] parents@[v] {
                Some(p) => p < parents@.len(),
                None => true,
            },
        ensures
            t.wf(),
            t.root() == root,
            t.parents() == parents@,
            forall|p: int| 0 <= p < parents@.len() ==> #[trigger] t.children()[p] == predecessors(parent_lists(parents@), p as usize),
            ({
                let (r, time, depth, height) = interval_state(t.events(), t.events().len() as int, parents@.len());
                t.intervals() == r && t.height_spec() == height
            }),
    {
        let n = parents.len();
        let mut lists: Vec<Vec<usize>> = Vec::new();
        let mut v: usize = 0;
        while v < n
            invariant
                v <= n,
                n == parents@.len(),
                lists@.len() == v,
                forall|u: int| 0 <= u < v ==> #[trigger] lists@[u]@ == parent_lists(parents@)[u],
            decreases n - v,
        {
            let mut l: Vec<usize> = Vec::new();
            match parents[v] {
                Some(p) => l.push(p),
                None => {},
            }
            lists.push(l);
            proof {
                assert(lists@[v as int]@ =~= parent_lists(parents@)[v as int]);
            }
            v = v + 1;
        }
        assert(lists_view(lists@) =~= parent_lists(parents@));
        let children = predecessor_edges(&lists);
        let mut tree = Tree { root, parents, children, intervals: Vec::new(), height: 0 };
        proof {
            assert forall|p: int, i: int| 0 <= p < tree.children@.len() && 0 <= i < tree.children@[p].len()
                implies #[trigger] tree.children@[p][i] < tree.children@.len() by {
                lemma_predecessors_in_range(parent_lists(tree.parents@), p as usize);
            }
        }
        let events = tree.dfs();
        proof {
            lemma_walk_nodes(tree.children@, root, n as nat);
        }
        let (intervals, height) = dfs_intervals(&events, n);
        tree.intervals = intervals;
        tree.height = height;
        tree
    }

    /// What a well-formed tree guarantees of its parts.
    pub proof fn lemma_wf(&self)
        requires
            self.wf(),
        ensures
            self.root() < self.parents().len(),
            self.children().len() == self.parents().len(),
            edges_in_range(self.children()),
            forall|v: int| 0 <= v < self.parents().len() ==> match #[trigger] self.parents()[v] {
                Some(p) => p < self.parents().len(),
                None => true,
            },
            self.intervals().len() == self.parents().len(),
            self.parents().len() <= usize::MAX,
            forall|p: int| 0 <= p < self.parents().len() ==> #[trigger] self.children()[p]
                == predecessors(parent_lists(self.parents()), p as usize),
            self.intervals() == interval_state(self.events(), self.events().len() as int, self.parents().len()).0,
    {
    }

    pub fn parent(&self, node: usize) -> (r: Option<usize>)
        requires
            self.wf(),
            node < self.parents().len(),
        ensures
            r == self.parents()[node as int],
    {
        self.parents[node]
    }

    pub fn height(&self) -> (h: usize)
        ensures
            h == self.height_spec(),
    {
        self.height
    }

    pub fn node_count(&self) -> (n: usize)
        ensures
            n == self.parents().len(),
    {
        self.parents.len()
    }

    /// The children of `node`.
    pub fn successors(&self, node: usize) -> (r: &[usize])
        requires
            self.wf(),
            node < self.parents().len(),
        ensures
            r@ == self.children()[node as int],
    {
        self.children.edges_from(node)
    }

    /// Whether the walk is inside `a` all the while it is inside `b`: in a
    /// tree whose nodes all lead to the root, whether `a` is `b` or one of
    /// its ancestors (`ancestry::lemma_intervals_follow_ancestry`).
    pub fn is_ancestor(&self, a: usize, b: usize) -> (r: bool)
        requires
            self.wf(),
            a < self.parents().len(),
            b < self.parents().len(),
        ensures
            r == (self.intervals()[a as int].0 <= self.intervals()[b as int].0
                && self.intervals()[b as int].1 <= self.intervals()[a as int].1),
    {
        let (a_start, a_end) = self.intervals[a];
        let (b_start, b_end) = self.intervals[b];
        a_start <= b_start && b_end <= a_end
    }

    /// The nearest common ancestor of `lhs` and `rhs`: both climb towards the
    /// root, step by step, until one is an ancestor of the other. In a tree
    /// whose nodes all lead to the root the climb always ends, at the
    /// nearest common ancestor (`ancestry::lemma_nca_is_nearest`).
    pub fn nca(&self, lhs: usize, rhs: usize) -> (r: usize)
        requires
            self.wf(),
            lhs < self.parents().len(),
            rhs < self.parents().len(),
            self.nca_walk(lhs, rhs, self.parents().len()) is Some,
        ensures
            Some(r) == self.nca_walk(lhs, rhs, self.parents().len()),
    {
        let mut a = lhs;
        let mut b = rhs;
        let mut fuel = self.parents.len();
        loop
            invariant
                self.wf(),
                a < self.parents().len(),
                b < self.parents().len(),
                self.nca_walk(a, b, fuel as nat) == self.nca_walk(lhs, rhs, self.parents().len()),
                self.nca_walk(a, b, fuel as nat) is Some,
            decreases fuel,
        {
            if self.is_ancestor(a, b) {
                return a;
            }
            if self.is_ancestor(b, a) {
                return b;
            }
            match (self.parents[a], self.parents[b]) {
                (Some(pa), Some(pb)) => {
                    a = pa;
                    b = pb;
                    fuel = fuel - 1;
                },
                _ => {
                    return a;
                },
            }
        }
    }

    /// The climb of `nca` from `a` and `b`, for at most `fuel` steps.
    pub open spec fn nca_walk(&self, a: usize, b: usize, fuel: nat) -> Option<usize>
        decreases fuel,
    {
        let iv = self.intervals();
        if iv[a as int].0 <= iv[b as int].0 && iv[b as int].1 <= iv[a as int].1 {
            Some(a)
        } else if iv[b as int].0 <= iv[a as int].0 && iv[a as int].1 <= iv[b as int].1 {
            Some(b)
        } else if fuel == 0 {
            None
        } else {
            match (self.parents()[a as int], self.parents()[b as int]) {
                (Some(pa), Some(pb)) => self.nca_walk(pa, pb, (fuel - 1) as nat),
                _ => None,
            }
        }
    }

    /// The depth-first walk from the root.
    pub fn dfs(&self) -> (r: Vec<NodeVisit>)
        requires
            self.root() < self.parents().len(),
            self.children().len() == self.parents().len(),
            edges_in_range(self.children()),
        ensures
            r@ == self.events(),
    {
        let mut out: Vec<NodeVisit> = Vec::new();
        self.walk_from_unchecked(self.root, self.parents.len(), &mut out);
        assert(out@ =~= self.events());
        out
    }

    fn walk_from_unchecked(&self, v: usize, fuel: usize, out: &mut Vec<NodeVisit>)
        requires
            v < self.parents().len(),
            self.children().len() == self.parents().len(),
            edges_in_range(self.children()),
        ensures
            final(out)@ == old(out)@ + walk(self.children(), v, fuel as nat),
        decreases fuel, 0nat, 0int,
    {
        if fuel == 0 {
            assert(old(out)@ + walk(self.children(), v, fuel as nat) =~= old(out)@);
            return;
        }
        out.push(NodeVisit { node: v, exit: false });
        let cs = self.children.edges_from(v);
        let ghost start = out@;
        let mut i: usize = 0;
        while i < cs.len()
            invariant
                v < self.parents().len(),
                self.children().len() == self.parents().len(),
                edges_in_range(self.children()),
                fuel > 0,
                i <= cs@.len(),
                cs@ == self.children()[v as int],
                out@ == start + walk_children(self.children(), cs@, i as int, (fuel - 1) as nat),
            decreases cs@.len() - i,
        {
            let c = cs[i];
            assert(c < self.parents().len()) by {
                assert(self.children@[v as int][i as int] < self.children@.len());
            }
            self.walk_from_unchecked(c, fuel - 1, out);
            assert(start + walk_children(self.children(), cs@, i + 1, (fuel - 1) as nat)
                =~= start + walk_children(self.children(), cs@, i as int, (fuel - 1) as nat)
                    + walk(self.children(), c, (fuel - 1) as nat));
            i = i + 1;
        }
        out.push(NodeVisit { node: v, exit: true });
        assert(out@ =~= old(out)@ + walk(self.children(), v, fuel as nat));
    }
}

proof fn lemma_row_sources_in(row: Seq<usize>, i: int, u: usize, w: usize, n: nat)
    requires
        u < n,
    ensures
        forall|j: int| 0 <= j < row_sources(row, i, u, w).len() ==> #[trigger] row_sources(row, i, u, w)[j] < n,
    decreases i,
{
    if i > 0 && i <= row.len() {
        lemma_row_sources_in(row, i - 1, u, w, n);
        let a = row_sources(row, i - 1, u, w);
        let r = row_sources(row, i, u, w);
        assert forall|j: int| 0 <= j < r.len() implies #[trigger] r[j] < n by {
            if j < a.len() {
                assert(r[j] == a[j]);
            }
        }
    }
}

proof fn lemma_sources_in(g: Seq<Seq<usize>>, v: int, w: usize)
    requires
        g.len() <= usize::MAX,
    ensures
        forall|j: int| 0 <= j < sources(g, v, w).len() ==> #[trigger] sources(g, v, w)[j] < g.len(),
    decreases v,
{
    if v > 0 && v <= g.len() {
        lemma_sources_in(g, v - 1, w);
        lemma_row_sources_in(g[v - 1], g[v - 1].len() as int, (v - 1) as usize, w, g.len());
        let a = sources(g, v - 1, w);
        let b = row_sources(g[v - 1], g[v - 1].len() as int, (v - 1) as usize, w);
        let r = sources(g, v, w);
        assert forall|j: int| 0 <= j < r.len() implies #[trigger] r[j] < g.len() by {
            if j < a.len() {
                assert(r[j] == a[j]);
            } else {
                assert(r[j] == b[j - a.len()]);
            }
        }
    }
}

/// Every predecessor is a node of the graph.
pub proof fn lemma_predecessors_in_range(g: Seq<Seq<usize>>, w: usize)
    requires
        g.len() <= usize::MAX,
    ensures
        forall|j: int| 0 <= j < predecessors(g, w).len() ==> #[trigger] predecessors(g, w)[j] < g.len(),
{
    lemma_sources_in(g, g.len() as int, w);
    let s = sources(g, g.len() as int, w);
    assert forall|j: int| 0 <= j < predecessors(g, w).len() implies #[trigger] predecessors(g, w)[j] < g.len() by {
        assert(predecessors(g, w)[j] == s[s.len() - 1 - j]);
    }
}

/// Entry and exit times of each node in a walk, and the walk's greatest
/// depth.
pub fn dfs_intervals(events: &Vec<NodeVisit>, n: usize) -> (r: (Vec<(usize, usize)>, usize))
    requires
        forall|i: int| 0 <= i < events@.len() ==> #[trigger] events@[i].node < n,
    ensures
        ({
            let (iv, t, d, h) = interval_state(events@, events@.len() as int, n as nat);
            r.0@ == iv && r.1 == h
        }),
        r.0@.len() == n,
{
    let mut ranges: Vec<(usize, usize)> = Vec::new();
    let mut k: usize = 0;
    while k < n
        invariant
            k <= n,
            ranges@.len() == k,
            forall|j: int| 0 <= j < k ==> #[trigger] ranges@[j] == (0usize, 0usize),
        decreases n - k,
    {
        ranges.push((0, 0));
        k = k + 1;
    }
    assert(ranges@ =~= Seq::new(n as nat, |v: int| (0usize, 0usize)));
    let mut time: usize = 0;
    let mut depth: usize = 0;
    let mut height: usize = 0;
    let mut i: usize = 0;
    while i < events.len()
        invariant
            i <= events@.len(),
            forall|j: int| 0 <= j < events@.len() ==> #[trigger] events@[j].node < n,
            ranges@.len() == n,
            time <= i,
            depth <= i,
            height <= i,
            interval_state(events@, i as int, n as nat) == (ranges@, time as int, depth as int, height as int),
        decreases events@.len() - i,
    {
        let visit = events[i];
        let node = visit.node;
        if !visit.exit {
            let (_, end) = ranges[node];
            ranges.set(node, (time, end));
            time = time + 1;
            depth = depth + 1;
            if depth > height {
                height = depth;
            }
        } else {
            let (start, _) = ranges[node];
            ranges.set(node, (start, time));
            if depth > 0 {
                depth = depth - 1;
            }
        }
        i = i + 1;
    }
    (ranges, height)
}


/// Whether there is a path from `from` to `v` along the edges of `g`.
pub open spec fn reachable(g: Seq<Seq<usize>>, from: usize, v: usize) -> bool {
    exists|path: Seq<usize>| #[trigger] is_path(g, path) && path[0] == from && path.last() == v
}

pub open spec fn pushed_of(b: ShiftStack<usize>) -> Seq<usize> {
    b.front() + b.stack()
}

pub open spec fn is_path(g: Seq<Seq<usize>>, path: Seq<usize>) -> bool {
    &&& path.len() > 0
    &&& forall|i: int| 0 <= i < path.len() - 1 ==> #[trigger] g[path[i] as int].contains(path[i + 1])
}

/// Whether `s` lists each of the nodes `0..n` exactly once.
pub open spec fn is_order(s: Seq<usize>, n: nat) -> bool {
    &&& s.len() == n
    &&& s.no_duplicates()
    &&& forall|i: int| 0 <= i < s.len() ==> #[trigger] s[i] < n
}

/// A set of nodes that holds `from` and every successor of its members
/// holds every node reachable from `from`.
proof fn lemma_closed_holds_reachable(g: Seq<Seq<usize>>, from: usize, closed: Set<usize>, v: usize)
    requires
        closed.contains(from),
        forall|u: usize, w: usize| closed.contains(u) && (u as int) < g.len() && #[trigger] g[u as int].contains(w)
            ==> closed.contains(w),
        forall|u: usize| closed.contains(u) ==> (u as int) < g.len(),
        reachable(g, from, v),
    ensures
        closed.contains(v),
{
    let path = choose|path: Seq<usize>| #[trigger] is_path(g, path) && path[0] == from && path.last() == v;
    lemma_path_in_closed(g, path, closed, path.len() - 1);
}

proof fn lemma_path_in_closed(g: Seq<Seq<usize>>, path: Seq<usize>, closed: Set<usize>, i: int)
    requires
        is_path(g, path),
        0 <= i < path.len(),
        closed.contains(path[0]),
        forall|u: usize, w: usize| closed.contains(u) && (u as int) < g.len() && #[trigger] g[u as int].contains(w)
            ==> closed.contains(w),
        forall|u: usize| closed.contains(u) ==> (u as int) < g.len(),
    ensures
        closed.contains(path[i]),
    decreases i,
{
    if i > 0 {
        lemma_path_in_closed(g, path, closed, i - 1);
        let j = i - 1;
        assert(g[path[j] as int].contains(path[j + 1]));
    }
}

/// A sequence of distinct nodes below `m` is no longer than `m`; one of
/// length `m` holds every node below `m`.
pub(crate) proof fn lemma_distinct_nodes(s: Seq<usize>, m: nat)
    requires
        m <= usize::MAX,
        s.no_duplicates(),
        forall|i: int| 0 <= i < s.len() ==> #[trigger] s[i] < m,
    ensures
        s.len() <= m,
        s.len() == m ==> forall|v: usize| (v as int) < m ==> s.contains(v),
        (forall|v: usize| (v as int) < m ==> s.contains(v)) ==> s.len() == m,
{
    let t = s.map_values(|x: usize| x as int);
    assert forall|i: int, j: int| 0 <= i < t.len() && 0 <= j < t.len() && i != j implies t[i] != t[j] by {
        assert(s[i] != s[j]);
    }
    assert(t.no_duplicates());
    t.unique_seq_to_set();
    vstd::set_lib::lemma_int_range(0, m as int);
    let range = vstd::set_lib::set_int_range(0, m as int);
    assert(t.to_set().subset_of(range)) by {
        assert forall|x: int| t.to_set().contains(x) implies range.contains(x) by {
            let i = choose|i: int| 0 <= i < t.len() && t[i] == x;
            assert(s[i] < m);
        }
    }
    vstd::set_lib::lemma_len_subset(t.to_set(), range);
    if s.len() == m {
        vstd::set_lib::lemma_subset_equality(t.to_set(), range);
        assert forall|v: usize| (v as int) < m implies s.contains(v) by {
            assert(range.contains(v as int));
            assert(t.to_set().contains(v as int));
            let i = choose|i: int| 0 <= i < t.len() && t[i] == v as int;
            assert(s[i] == v);
        }
    }
    if forall|v: usize| (v as int) < m ==> s.contains(v) {
        assert(range.subset_of(t.to_set())) by {
            assert forall|x: int| range.contains(x) implies t.to_set().contains(x) by {
                assert(s.contains(x as usize));
                let i = choose|i: int| 0 <= i < s.len() && s[i] == x as usize;
                assert(t[i] == x);
            }
        }
        vstd::set_lib::lemma_len_subset(range, t.to_set());
    }
}

/// The nodes in the order a depth-first search from `entry` finishes them:
/// a node is finished once every successor has been reached and finished.
pub fn postorder(succs: &Vec<Vec<usize>>, entry: usize) -> (r: Vec<usize>)
    requires
        entry < succs@.len(),
        succs@.len() <= usize::MAX / 4,
        edges_in_range(lists_view(succs@)),
        forall|v: usize| (v as int) < succs@.len() ==> #[trigger] reachable(lists_view(succs@), entry, v),
    ensures
        is_order(r@, succs@.len()),
        r@.last() == entry,
        later_predecessor(lists_view(succs@), r@),
{
    let ghost g = lists_view(succs@);
    let n = succs.len();
    let mut flags = BitSet::new(2 * n);
    let mut buffer: ShiftStack<usize> = ShiftStack::new(n);
    flags.insert(n + entry);
    buffer.push(entry);
    let ghost mut visited: Set<usize> = Set::empty();
    proof {
        let pushed = buffer.front() + buffer.stack();
        assert(pushed =~= seq![entry]);
        assert(pushers_ok(g, entry, buffer.front(), buffer.stack())) by {
            reveal(pushers_ok);
        }
        assert forall|x: usize| (x as int) < n implies (flags@[n + x] == #[trigger] pushed.contains(x)) by {
            if x == entry {
                assert(pushed[0] == x);
            } else {
                assert(!pushed.contains(x)) by {
                    if pushed.contains(x) {
                        let j = choose|j: int| 0 <= j < pushed.len() && pushed[j] == x;
                        assert(j == 0);
                    }
                }
            }
        }
        assert forall|x: usize| (x as int) < n implies (flags@[x as int] == #[trigger] visited.contains(x)) by {}
    }
    loop
        invariant
            n == succs@.len(),
            n <= usize::MAX / 4,
            g == lists_view(succs@),
            edges_in_range(g),
            entry < n,
            buffer.wf(),
            buffer.size() == n,
            flags@.len() >= 2 * n,
            pushed_of(buffer).no_duplicates(),
            forall|i: int| 0 <= i < pushed_of(buffer).len() ==> #[trigger] pushed_of(buffer)[i] < n,
            forall|x: usize| (x as int) < n ==> (flags@[n + x] == #[trigger] pushed_of(buffer).contains(x)),
            forall|x: usize| (x as int) < n ==> (flags@[x as int] == #[trigger] visited.contains(x)),
            forall|x: usize| #[trigger] visited.contains(x) ==> pushed_of(buffer).contains(x) && (x as int) < n,
            forall|i: int| 0 <= i < buffer.front().len() ==> #[trigger] visited.contains(buffer.front()[i]),
            forall|u: usize, w: usize| visited.contains(u) && #[trigger] g[u as int].contains(w) ==> pushed_of(buffer).contains(w),
            buffer.stack().len() > 0 ==> buffer.stack()[0] == entry,
            buffer.stack().len() == 0 ==> buffer.front().len() > 0 && buffer.front().last() == entry,
            visited.finite(),
            visited.len() <= n,
            pushers_ok(g, entry, buffer.front(), buffer.stack()),
        ensures
            n == succs@.len(),
            g == lists_view(succs@),
            entry < n,
            buffer.wf(),
            buffer.size() == n,
            buffer.stack().len() == 0,
            ({
                let pushed = buffer.front() + buffer.stack();
                &&& pushed.no_duplicates()
                &&& forall|i: int| 0 <= i < pushed.len() ==> #[trigger] pushed[i] < n
                &&& forall|i: int| 0 <= i < buffer.front().len() ==> #[trigger] visited.contains(buffer.front()[i])
                &&& forall|u: usize, w: usize| visited.contains(u) && #[trigger] g[u as int].contains(w) ==> pushed.contains(w)
                &&& forall|x: usize| #[trigger] visited.contains(x) ==> pushed.contains(x) && (x as int) < n
                &&& buffer.front().len() > 0 && buffer.front().last() == entry
            }),
            pushers_ok(g, entry, buffer.front(), buffer.stack()),
        decreases 2 * n - visited.len() - buffer.front().len(),
    {
        proof {
            let pushed = buffer.front() + buffer.stack();
            lemma_distinct_nodes(pushed, n as nat);
        }
        let v = match buffer.top() {
            Some(v) => *v,
            None => break,
        };
        let ghost before = buffer.front() + buffer.stack();
        proof {
            assert(before[before.len() - 1] == v);
            assert(v < n);
        }
        let ghost visited0 = visited;
        let ghost front0 = buffer.front();
        if flags.insert(v) {
            proof {
                assert(before.contains(v));
                assert(!visited0.contains(v));
                visited = visited.insert(v);
                assert(visited.len() == visited0.len() + 1);
                lemma_members_bound(visited, before, n as nat);
            }
            let ghost vi = buffer.stack().len() - 1;
            let row = &succs[v];
            let mut i: usize = 0;
            while i < row.len()
                invariant
                    n == succs@.len(),
                    n <= usize::MAX / 4,
                    g == lists_view(succs@),
                    edges_in_range(g),
                    entry < n,
                    (v as int) < n,
                    row@ == g[v as int],
                    i <= row@.len(),
                    buffer.wf(),
                    buffer.size() == n,
                    flags@.len() >= 2 * n,
                    buffer.stack().len() > 0,
                    buffer.stack()[0] == entry,
                    ({
                        let pushed = buffer.front() + buffer.stack();
                        &&& pushed.no_duplicates()
                        &&& forall|k: int| 0 <= k < pushed.len() ==> #[trigger] pushed[k] < n
                        &&& forall|x: usize| (x as int) < n ==> (flags@[n + x] == #[trigger] pushed.contains(x))
                        &&& forall|x: usize| (x as int) < n ==> (flags@[x as int] == #[trigger] visited.contains(x))
                        &&& forall|x: usize| #[trigger] visited.contains(x) ==> pushed.contains(x) && (x as int) < n
                        &&& forall|k: int| 0 <= k < buffer.front().len() ==> #[trigger] visited.contains(buffer.front()[k])
                        &&& forall|u: usize, w: usize| visited.contains(u) && u != v && #[trigger] g[u as int].contains(w) ==> pushed.contains(w)
                        &&& forall|k: int| 0 <= k < i ==> pushed.contains(#[trigger] row@[k])
                    }),
                    visited.finite(),
                    visited.contains(v),
                    visited == visited0.insert(v),
                    visited.len() == visited0.len() + 1,
                    buffer.front() == front0,
                    0 <= vi < buffer.stack().len(),
                    buffer.stack()[vi] == v,
                    pushers_ok(g, entry, buffer.front(), buffer.stack()),
                decreases row@.len() - i,
            {
                let w = row[i];
                assert(w < n) by {
                    assert(g[v as int][i as int] < g.len());
                }
                let ghost pushed0 = buffer.front() + buffer.stack();
                if flags.insert(n + w) {
                    proof {
                        lemma_distinct_nodes(pushed0, n as nat);
                        if pushed0.len() == n {
                            assert(pushed0.contains(w));
                        }
                        assert(g[buffer.stack()[vi] as int][i as int] == w);
                        lemma_pushers_push(g, entry, buffer.front(), buffer.stack(), vi, w);
                    }
                    buffer.push(w);
                    proof {
                        let pushed = buffer.front() + buffer.stack();
                        assert(pushed =~= pushed0.push(w));
                        assert(!pushed0.contains(w));
                        assert forall|a: int, b: int| 0 <= a < pushed.len() && 0 <= b < pushed.len() && a != b
                            implies pushed[a] != pushed[b] by {
                            if a < pushed0.len() && b < pushed0.len() {
                                assert(pushed0[a] != pushed0[b]);
                            } else if a < pushed0.len() {
                                assert(pushed0[a] != w);
                            } else {
                                assert(pushed0[b] != w);
                            }
                        }
                        assert forall|k: int| 0 <= k < buffer.front().len() implies #[trigger] visited.contains(buffer.front()[k]) by {
                            assert(buffer.front()[k] == pushed0[k]);
                        }
                        assert forall|x: usize| (x as int) < n implies (flags@[n + x] == #[trigger] pushed.contains(x)) by {
                            if x == w {
                                assert(pushed[pushed.len() - 1] == w);
                            } else {
                                assert(flags@[n + x] == flags@.update(n + w, true)[n + x]);
                                if pushed0.contains(x) {
                                    let j = choose|j: int| 0 <= j < pushed0.len() && pushed0[j] == x;
                                    assert(pushed[j] == x);
                                }
                                if pushed.contains(x) {
                                    let j = choose|j: int| 0 <= j < pushed.len() && pushed[j] == x;
                                    assert(j < pushed0.len());
                                    assert(pushed0[j] == x);
                                }
                            }
                        }
                        assert forall|x: usize| (x as int) < n implies (flags@[x as int] == #[trigger] visited.contains(x)) by {
                            assert(flags@[x as int] == flags@.update(n + w, true)[x as int]);
                        }
                        assert(buffer.stack()[0] == entry);
                    }
                } else {
                    proof {
                        assert(flags@[n + w]);
                    }
                }
                proof {
                    let pushed = buffer.front() + buffer.stack();
                    assert forall|k: int| 0 <= k < i + 1 implies pushed.contains(#[trigger] row@[k]) by {
                        if k < i {
                            assert(pushed0.contains(row@[k]));
                            let j = choose|j: int| 0 <= j < pushed0.len() && pushed0[j] == row@[k];
                            assert(pushed[j] == row@[k]);
                        } else {
                            assert(pushed.contains(w));
                        }
                    }
                    assert forall|u: usize, x: usize| visited.contains(u) && u != v && #[trigger] g[u as int].contains(x)
                        implies pushed.contains(x) by {
                        assert(pushed0.contains(x));
                        let j = choose|j: int| 0 <= j < pushed0.len() && pushed0[j] == x;
                        assert(pushed[j] == x);
                    }
                    assert forall|x: usize| #[trigger] visited.contains(x) implies pushed.contains(x) && (x as int) < n by {
                        assert(pushed0.contains(x));
                        let j = choose|j: int| 0 <= j < pushed0.len() && pushed0[j] == x;
                        assert(pushed[j] == x);
                    }
                }
                i = i + 1;
            }
            proof {
                let pushed = buffer.front() + buffer.stack();
                lemma_members_bound(visited, pushed, n as nat);
                assert forall|u: usize, w: usize| visited.contains(u) && #[trigger] g[u as int].contains(w) implies pushed.contains(w) by {
                    if u == v {
                        let k = choose|k: int| 0 <= k < row@.len() && row@[k] == w;
                        assert(pushed.contains(row@[k]));
                    }
                }
            }
        } else {
            proof {
                assert(visited.contains(v));
            }
            let ghost f0 = buffer.front();
            let ghost s0 = buffer.stack();
            buffer.shift();
            proof {
                lemma_pushers_shift(g, entry, f0, s0);
                let pushed = buffer.front() + buffer.stack();
                lemma_shift_keeps_members(f0, s0);
                assert(pushed =~= f0.push(s0.last()) + s0.drop_last());
                assert forall|i: int| 0 <= i < pushed.len() implies #[trigger] pushed[i] < n by {
                    assert(pushed.contains(pushed[i]));
                    assert(before.contains(pushed[i]));
                    let j = choose|j: int| 0 <= j < before.len() && before[j] == pushed[i];
                    assert(before[j] < n);
                }
                assert forall|x: usize| (x as int) < n implies (flags@[n + x] == #[trigger] pushed_of(buffer).contains(x)) by {
                    assert(before.contains(x) == pushed.contains(x));
                }
                if buffer.stack().len() == 0 {
                    assert(s0.len() == 1);
                    assert(buffer.front().last() == s0[0]);
                }
                assert forall|i: int| 0 <= i < buffer.front().len() implies #[trigger] visited.contains(buffer.front()[i]) by {
                    if i < f0.len() {
                        assert(buffer.front()[i] == f0[i]);
                    } else {
                        assert(buffer.front()[i] == v);
                    }
                }
                if buffer.stack().len() > 0 {
                    assert(buffer.stack()[0] == s0[0]);
                }
            }
        }
    }
    proof {
        let pushed = buffer.front() + buffer.stack();
        assert(pushed =~= buffer.front());
        let closed = Set::new(|x: usize| pushed.contains(x));
        assert forall|u: usize, w: usize| closed.contains(u) && (u as int) < g.len() && #[trigger] g[u as int].contains(w)
            implies closed.contains(w) by {
            let j = choose|j: int| 0 <= j < pushed.len() && pushed[j] == u;
            assert(visited.contains(buffer.front()[j]));
        }
        assert(pushed[0] == entry || pushed.contains(entry)) by {
            assert(buffer.front()[buffer.front().len() - 1] == entry);
        }
        assert forall|v: usize| (v as int) < n implies pushed.contains(v) by {
            assert(reachable(g, entry, v));
            lemma_closed_holds_reachable(g, entry, closed, v);
        }
        lemma_distinct_nodes(pushed, n as nat);
        assert(buffer.stack().reverse() =~= Seq::<usize>::empty());
        assert(buffer.stack() =~= Seq::<usize>::empty());
        lemma_pushers_done(g, entry, buffer.front());
    }
    let r = buffer.into_boxed_slice();
    assert(r@ =~= buffer.front());
    r
}

/// Shifting the top of the stack to the front part keeps the members.
proof fn lemma_shift_keeps_members(f0: Seq<usize>, s0: Seq<usize>)
    requires
        s0.len() > 0,
    ensures
        (f0.push(s0.last()) + s0.drop_last()).len() == (f0 + s0).len(),
        forall|x: usize| (f0 + s0).contains(x) == (f0.push(s0.last()) + s0.drop_last()).contains(x),
        (f0 + s0).no_duplicates() ==> (f0.push(s0.last()) + s0.drop_last()).no_duplicates(),
{
    let a = f0 + s0;
    let b = f0.push(s0.last()) + s0.drop_last();
    let nf = f0.len() as int;
    let na = a.len() as int;
    let m = |i: int| if i < nf { i } else if i == nf { na - 1 } else { i - 1 };
    assert forall|i: int| 0 <= i < b.len() implies 0 <= m(i) < na && b[i] == a[m(i)] by {
        if i < nf {
        } else if i == nf {
        } else {
            assert(b[i] == s0.drop_last()[i - nf - 1]);
            assert(a[i - 1] == s0[i - 1 - nf]);
        }
    }
    assert forall|x: usize| a.contains(x) == b.contains(x) by {
        if b.contains(x) {
            let i = choose|i: int| 0 <= i < b.len() && b[i] == x;
            assert(a[m(i)] == x);
        }
        if a.contains(x) {
            let j = choose|j: int| 0 <= j < a.len() && a[j] == x;
            let i = if j < nf { j } else if j == na - 1 { nf } else { j + 1 };
            assert(m(i) == j);
            assert(b[i] == x);
        }
    }
    if a.no_duplicates() {
        assert forall|i: int, k: int| 0 <= i < b.len() && 0 <= k < b.len() && i != k implies b[i] != b[k] by {
            assert(m(i) != m(k));
            assert(a[m(i)] != a[m(k)]);
        }
        assert(b.no_duplicates());
    }
}

/// A set of members of a sequence of distinct nodes below `n` has at most
/// `n` members.
proof fn lemma_members_bound(set: Set<usize>, s: Seq<usize>, n: nat)
    requires
        n <= usize::MAX,
        s.no_duplicates(),
        forall|i: int| 0 <= i < s.len() ==> #[trigger] s[i] < n,
        forall|x: usize| #[trigger] set.contains(x) ==> s.contains(x),
    ensures
        set.finite(),
        set.len() <= n,
{
    lemma_distinct_nodes(s, n);
    s.unique_seq_to_set();
    assert(set.subset_of(s.to_set()));
    vstd::set_lib::lemma_len_subset(set, s.to_set());
}


/// Every node of `s` but the last has a predecessor placed after it in `s`.
pub open spec fn later_predecessor(g: Seq<Seq<usize>>, s: Seq<usize>) -> bool {
    forall|i: int| 0 <= i < s.len() - 1 ==> #[trigger] has_later_predecessor(g, s, i)
}

/// The node at position `i` of `s` has a predecessor at a later position.
pub open spec fn has_later_predecessor(g: Seq<Seq<usize>>, s: Seq<usize>, i: int) -> bool {
    exists|j: int| i < j < s.len() && #[trigger] g[s[j] as int].contains(s[i])
}

/// The state of the depth-first search in which every node but `entry` was
/// put on the stack by a predecessor: one below it on the stack while the
/// node is there, and one still on the stack or finished after it once the
/// node is finished.
#[verifier::opaque]
spec fn pushers_ok(g: Seq<Seq<usize>>, entry: usize, f: Seq<usize>, s: Seq<usize>) -> bool {
    &&& forall|i: int| #![trigger s[i]] 0 <= i < s.len() && s[i] != entry ==> exists|j: int|
        0 <= j < i && #[trigger] g[s[j] as int].contains(s[i])
    &&& forall|i: int| #![trigger f[i]] 0 <= i < f.len() && f[i] != entry ==>
        (exists|j: int| 0 <= j < s.len() && #[trigger] g[s[j] as int].contains(f[i]))
        || (exists|j: int| i < j < f.len() && #[trigger] g[f[j] as int].contains(f[i]))
}

proof fn lemma_pushers_push(g: Seq<Seq<usize>>, entry: usize, f: Seq<usize>, s: Seq<usize>, k: int, w: usize)
    requires
        pushers_ok(g, entry, f, s),
        0 <= k < s.len(),
        g[s[k] as int].contains(w),
    ensures
        pushers_ok(g, entry, f, s.push(w)),
{
    reveal(pushers_ok);
    let t = s.push(w);
    assert forall|i: int| #![trigger t[i]] 0 <= i < t.len() && t[i] != entry implies exists|j: int|
        0 <= j < i && #[trigger] g[t[j] as int].contains(t[i]) by {
        if i < s.len() {
            assert(s[i] != entry);
            let j = choose|j: int| 0 <= j < i && #[trigger] g[s[j] as int].contains(s[i]);
            assert(t[j] == s[j]);
        } else {
            assert(t[k] == s[k]);
            assert(g[t[k] as int].contains(t[i]));
        }
    }
    assert forall|i: int| #![trigger f[i]] 0 <= i < f.len() && f[i] != entry implies
        (exists|j: int| 0 <= j < t.len() && #[trigger] g[t[j] as int].contains(f[i]))
        || (exists|j: int| i < j < f.len() && #[trigger] g[f[j] as int].contains(f[i])) by {
        if exists|j: int| 0 <= j < s.len() && #[trigger] g[s[j] as int].contains(f[i]) {
            let j = choose|j: int| 0 <= j < s.len() && #[trigger] g[s[j] as int].contains(f[i]);
            assert(t[j] == s[j]);
        }
    }
}

proof fn lemma_pushers_shift(g: Seq<Seq<usize>>, entry: usize, f: Seq<usize>, s: Seq<usize>)
    requires
        pushers_ok(g, entry, f, s),
        s.len() > 0,
    ensures
        pushers_ok(g, entry, f.push(s.last()), s.drop_last()),
{
    reveal(pushers_ok);
    let f2 = f.push(s.last());
    let s2 = s.drop_last();
    let top = s.len() - 1;
    assert forall|i: int| #![trigger s2[i]] 0 <= i < s2.len() && s2[i] != entry implies exists|j: int|
        0 <= j < i && #[trigger] g[s2[j] as int].contains(s2[i]) by {
        assert(s[i] == s2[i]);
        let j = choose|j: int| 0 <= j < i && #[trigger] g[s[j] as int].contains(s[i]);
        assert(s2[j] == s[j]);
    }
    assert forall|i: int| #![trigger f2[i]] 0 <= i < f2.len() && f2[i] != entry implies
        (exists|j: int| 0 <= j < s2.len() && #[trigger] g[s2[j] as int].contains(f2[i]))
        || (exists|j: int| i < j < f2.len() && #[trigger] g[f2[j] as int].contains(f2[i])) by {
        if i < f.len() {
            assert(f2[i] == f[i]);
            if exists|j: int| 0 <= j < s.len() && #[trigger] g[s[j] as int].contains(f[i]) {
                let j = choose|j: int| 0 <= j < s.len() && #[trigger] g[s[j] as int].contains(f[i]);
                if j < top {
                    assert(s2[j] == s[j]);
                } else {
                    assert(f2[f.len() as int] == s[j]);
                }
            } else {
                let j = choose|j: int| i < j < f.len() && #[trigger] g[f[j] as int].contains(f[i]);
                assert(f2[j] == f[j]);
            }
        } else {
            assert(f2[i] == s[top]);
            assert(s[top] != entry);
            let j = choose|j: int| 0 <= j < top && #[trigger] g[s[j] as int].contains(s[top]);
            assert(s2[j] == s[j]);
        }
    }
}

/// Once the stack is empty, every finished node but the last has a
/// predecessor finished after it.
proof fn lemma_pushers_done(g: Seq<Seq<usize>>, entry: usize, f: Seq<usize>)
    requires
        pushers_ok(g, entry, f, Seq::empty()),
        f.no_duplicates(),
        f.len() > 0,
        f.last() == entry,
    ensures
        later_predecessor(g, f),
{
    reveal(pushers_ok);
    assert forall|i: int| 0 <= i < f.len() - 1 implies #[trigger] has_later_predecessor(g, f, i) by {
        assert(f[i] != f[f.len() - 1]);
        let e = Seq::<usize>::empty();
        assert(!(exists|j: int| 0 <= j < e.len() && #[trigger] g[e[j] as int].contains(f[i])));
    }
}

/// An order of the nodes `0..n`, with each node's position in it.
pub struct NodeOrder {
    nodes: Vec<usize>,
    positions: Vec<usize>,
}

impl NodeOrder {
    /// The nodes, in order.
    pub closed spec fn view(&self) -> Seq<usize> {
        self.nodes@
    }

    /// The position of each node.
    pub closed spec fn positions(&self) -> Seq<usize> {
        self.positions@
    }

    pub open spec fn pos(&self, v: usize) -> int {
        self.positions()[v as int] as int
    }

    pub closed spec fn wf(&self) -> bool {
        &&& is_order(self.nodes@, self.nodes@.len())
        &&& self.positions@.len() == self.nodes@.len()
        &&& forall|v: usize| (v as int) < self.nodes@.len() ==> #[trigger] self.positions@[v as int] < self.nodes@.len()
            && self.nodes@[self.positions@[v as int] as int] == v
    }

    pub fn new(nodes: Vec<usize>) -> (o: NodeOrder)
        requires
            is_order(nodes@, nodes@.len()),
        ensures
            o.wf(),
            o@ == nodes@,
    {
        let n = nodes.len();
        let mut positions: Vec<usize> = Vec::new();
        let mut k: usize = 0;
        while k < n
            invariant
                k <= n,
                positions@.len() == k,
            decreases n - k,
        {
            positions.push(0);
            k = k + 1;
        }
        let mut i: usize = 0;
        while i < n
            invariant
                i <= n,
                n == nodes@.len(),
                is_order(nodes@, n as nat),
                positions@.len() == n,
                forall|j: int| 0 <= j < i ==> #[trigger] positions@[nodes@[j] as int] == j,
            decreases n - i,
        {
            let ghost before = positions@;
            positions.set(nodes[i], i);
            proof {
                assert forall|j: int| 0 <= j < i + 1 implies #[trigger] positions@[nodes@[j] as int] == j by {
                    if j < i {
                        assert(nodes@[j] != nodes@[i as int]);
                        assert(positions@[nodes@[j] as int] == before[nodes@[j] as int]);
                    }
                }
            }
            i = i + 1;
        }
        let o = NodeOrder { nodes, positions };
        proof {
            lemma_distinct_nodes(o.nodes@, n as nat);
            assert forall|v: usize| (v as int) < n implies #[trigger] o.positions@[v as int] < n
                && o.nodes@[o.positions@[v as int] as int] == v by {
                assert(o.nodes@.contains(v));
                let j = choose|j: int| 0 <= j < n && o.nodes@[j] == v;
                assert(o.positions@[o.nodes@[j] as int] == j);
            }
        }
        o
    }

    /// The order `0, 1, ..., n - 1`.
    pub fn identity(n: usize) -> (o: NodeOrder)
        ensures
            o.wf(),
            o@ == Seq::new(n as nat, |i: int| i as usize),
    {
        let mut nodes: Vec<usize> = Vec::new();
        let mut i: usize = 0;
        while i < n
            invariant
                i <= n,
                nodes@ == Seq::new(i as nat, |j: int| j as usize),
            decreases n - i,
        {
            nodes.push(i);
            assert(nodes@ =~= Seq::new((i + 1) as nat, |j: int| j as usize));
            i = i + 1;
        }
        NodeOrder::new(nodes)
    }

    pub fn len(&self) -> (n: usize)
        ensures
            n == self@.len(),
    {
        self.nodes.len()
    }

    /// Positions and nodes are inverse to each other.
    pub proof fn lemma_pos(&self)
        requires
            self.wf(),
        ensures
            forall|v: usize| (v as int) < self@.len() ==> 0 <= #[trigger] self.pos(v) < self@.len() && self@[self.pos(v)] == v,
            forall|i: int| 0 <= i < self@.len() ==> (#[trigger] self@[i] as int) < self@.len() && self.pos(self@[i]) == i,
    {
        assert forall|i: int| 0 <= i < self@.len() implies (#[trigger] self@[i] as int) < self@.len() && self.pos(self@[i]) == i by {
            let v = self.nodes@[i];
            assert(self.nodes@[self.positions@[v as int] as int] == v);
            assert(self.nodes@.no_duplicates());
            if self.positions@[v as int] as int != i {
                assert(self.nodes@[self.positions@[v as int] as int] != self.nodes@[i]);
            }
        }
    }

    pub fn position(&self, node: usize) -> (p: usize)
        requires
            self.wf(),
            (node as int) < self@.len(),
        ensures
            p == self.pos(node),
            p < self@.len(),
            self@[p as int] == node,
    {
        self.positions[node]
    }

    pub fn node_at(&self, position: usize) -> (v: usize)
        requires
            self.wf(),
            (position as int) < self@.len(),
        ensures
            v == self@[position as int],
            (v as int) < self@.len(),
            self.pos(v) == position,
    {
        let v = self.nodes[position];
        proof {
            assert(self.nodes@[position as int] < self.nodes@.len());
            assert(self.nodes@[self.positions@[v as int] as int] == v);
        }
        v
    }
}

/// The invariant of the dominator computation: each node's candidate is
/// unset (0) or the position, plus one, of a node no earlier in the order.
pub open spec fn candidates_ok(parents: Seq<usize>, order: &NodeOrder) -> bool {
    &&& parents.len() == order@.len()
    &&& forall|v: usize| (v as int) < parents.len() ==> #[trigger] parents[v as int] == 0
        || (order.pos(v) + 1 <= parents[v as int] && parents[v as int] <= parents.len())
}

/// Walks the two candidates up until they meet, as the dominator
/// computation intersects dominator sets.
fn intersect(parents: &Vec<usize>, order: &NodeOrder, x0: usize, y0: usize) -> (r: usize)
    requires
        order.wf(),
        candidates_ok(parents@, order),
        1 <= x0 <= parents@.len(),
        1 <= y0 <= parents@.len(),
    ensures
        1 <= r <= parents@.len(),
        r >= x0,
        r >= y0,
        set_from(parents@, order, (if x0 <= y0 { x0 as int } else { y0 as int }) - 1)
            ==> nearest_common(cand_tree(parents@, order), order@[r - 1], order@[x0 - 1], order@[y0 - 1]),
{
    let n = parents.len();
    let ghost t = cand_tree(parents@, order);
    let ghost lhs = order@[x0 - 1];
    let ghost rhs = order@[y0 - 1];
    let ghost exact = set_from(parents@, order, (if x0 <= y0 { x0 as int } else { y0 as int }) - 1);
    proof {
        order.lemma_pos();
        if exact {
            assert(up(t, lhs, 0) == Some(lhs));
            assert(up(t, rhs, 0) == Some(rhs));
        }
    }
    let mut x = x0;
    let mut y = y0;
    while x != y
        invariant
            order.wf(),
            candidates_ok(parents@, order),
            n == parents@.len(),
            x0 <= x <= n,
            y0 <= y <= n,
            1 <= x0,
            1 <= y0,
            t == cand_tree(parents@, order),
            lhs == order@[x0 - 1],
            rhs == order@[y0 - 1],
            exact == set_from(parents@, order, (if x0 <= y0 { x0 as int } else { y0 as int }) - 1),
            exact ==> is_above(t, order@[x - 1], lhs) && is_above(t, order@[y - 1], rhs),
            exact ==> forall|d: usize| #[trigger] common_above(t, d, lhs, rhs)
                ==> common_above(t, d, order@[x - 1], order@[y - 1]),
        decreases 2 * n - x - y,
    {
        proof {
            order.lemma_pos();
        }
        if x < y {
            let w = order.node_at(x - 1);
            let nx = parents[w];
            proof {
                if exact {
                    assert(parents@[order@[x - 1] as int] >= x + 1);
                }
            }
            if nx <= x {
                return y;
            }
            proof {
                if exact {
                    let a = order@[x - 1];
                    let b = order@[y - 1];
                    let a2 = order@[nx - 1];
                    assert(order.pos(a) == x - 1);
                    assert(t[a as int] == Some(a2));
                    assert(up(t, a, 1) == Some(a2)) by {
                        reveal_with_fuel(up, 2);
                    }
                    assert(is_above(t, a2, a));
                    lemma_above_trans(t, a2, a, lhs);
                    assert forall|d: usize| #[trigger] common_above(t, d, lhs, rhs)
                        implies common_above(t, d, a2, b) by {
                        assert(common_above(t, d, a, b));
                        if d == a {
                            lemma_cand_above_pos(parents@, order, a, b);
                            assert(order.pos(b) == y - 1);
                        }
                        lemma_above_parent(t, d, a);
                    }
                }
            }
            x = nx;
        } else {
            let w = order.node_at(y - 1);
            let ny = parents[w];
            proof {
                if exact {
                    assert(parents@[order@[y - 1] as int] >= y + 1);
                }
            }
            if ny <= y {
                return x;
            }
            proof {
                if exact {
                    let a = order@[x - 1];
                    let b = order@[y - 1];
                    let b2 = order@[ny - 1];
                    assert(order.pos(b) == y - 1);
                    assert(t[b as int] == Some(b2));
                    assert(up(t, b, 1) == Some(b2)) by {
                        reveal_with_fuel(up, 2);
                    }
                    assert(is_above(t, b2, b));
                    lemma_above_trans(t, b2, b, rhs);
                    assert forall|d: usize| #[trigger] common_above(t, d, lhs, rhs)
                        implies common_above(t, d, a, b2) by {
                        assert(common_above(t, d, a, b));
                        if d == b {
                            lemma_cand_above_pos(parents@, order, b, a);
                            assert(order.pos(a) == x - 1);
                        }
                        lemma_above_parent(t, d, b);
                    }
                }
            }
            y = ny;
        }
    }
    proof {
        if exact {
            let a = order@[x - 1];
            assert forall|d: usize| #[trigger] common_above(t, d, lhs, rhs) implies is_above(t, d, a) by {
                assert(common_above(t, d, a, a));
            }
        }
    }
    x
}

/// The tree that the candidates of `idom` describe: a node's parent is the
/// node its candidate names, when that is placed after it in `order`.
pub open spec fn cand_tree(parents: Seq<usize>, order: &NodeOrder) -> Seq<Option<usize>> {
    Seq::new(parents.len(), |w: int|
        if order.pos(w as usize) + 2 <= parents[w] && parents[w] <= order@.len() {
            Some(order@[parents[w] - 1])
        } else {
            None
        })
}

/// `d` is above every node of `s`.
pub open spec fn above_all(t: Seq<Option<usize>>, d: usize, s: Seq<usize>) -> bool {
    forall|i: int| 0 <= i < s.len() ==> is_above(t, d, #[trigger] s[i])
}

/// `c` is the nearest common ancestor of the nodes of `s`: above all of
/// them, and below every node above all of them.
pub open spec fn nearest_of_all(t: Seq<Option<usize>>, c: usize, s: Seq<usize>) -> bool {
    &&& (c as int) < t.len()
    &&& above_all(t, c, s)
    &&& forall|d: usize| #[trigger] above_all(t, d, s) ==> is_above(t, d, c)
}

/// Every predecessor of a node is placed after it, as in the postorder of
/// a graph without cycles.
pub open spec fn preds_later(preds: Seq<Seq<usize>>, order: &NodeOrder) -> bool {
    forall|v: usize, i: int| (v as int) < preds.len() && 0 <= i < preds[v as int].len()
        ==> order.pos(v) < order.pos(#[trigger] preds[v as int][i])
}

/// The candidates give node `w` a parent that is the nearest common
/// ancestor of its predecessors.
spec fn meets_preds(parents: Seq<usize>, order: &NodeOrder, preds: Seq<Seq<usize>>, w: usize) -> bool {
    cand_tree(parents, order)[w as int] matches Some(p) && nearest_of_all(cand_tree(parents, order), p, preds[w as int])
}

/// Candidates set, and placed after their node, from position `lo` on
/// (but for the last node).
spec fn set_from(parents: Seq<usize>, order: &NodeOrder, lo: int) -> bool {
    forall|j: int| lo <= j < order@.len() - 1 ==> #[trigger] parents[order@[j] as int] >= j + 2
}

/// Following parents in the candidate tree only climbs the order.
proof fn lemma_cand_rise(parents: Seq<usize>, order: &NodeOrder, b: usize, k: nat)
    requires
        order.wf(),
        parents.len() == order@.len(),
        (b as int) < parents.len(),
    ensures
        up(cand_tree(parents, order), b, k) matches Some(a) ==> (a as int) < parents.len()
            && order.pos(a) >= order.pos(b) && (k > 0 ==> order.pos(a) > order.pos(b)),
    decreases k,
{
    order.lemma_pos();
    let t = cand_tree(parents, order);
    if k > 0 {
        if let Some(p) = t[b as int] {
            assert(order.pos(p) == parents[b as int] - 1);
            lemma_cand_rise(parents, order, p, (k - 1) as nat);
        }
    }
}

/// A node above another in the candidate tree is placed no earlier, and
/// later unless it is the same node.
proof fn lemma_cand_above_pos(parents: Seq<usize>, order: &NodeOrder, a: usize, b: usize)
    requires
        order.wf(),
        parents.len() == order@.len(),
        (b as int) < parents.len(),
        is_above(cand_tree(parents, order), a, b),
    ensures
        (a as int) < parents.len(),
        order.pos(a) >= order.pos(b),
        a != b ==> order.pos(a) > order.pos(b),
{
    let k = choose|k: nat| #[trigger] up(cand_tree(parents, order), b, k) == Some(a);
    lemma_cand_rise(parents, order, b, k);
}

/// Two candidate lists that agree after position `lo` give the same climb
/// from a node placed after `lo`.
proof fn lemma_cand_frame(p1: Seq<usize>, p2: Seq<usize>, order: &NodeOrder, lo: int, u: usize, k: nat)
    requires
        order.wf(),
        p1.len() == order@.len(),
        p2.len() == order@.len(),
        forall|j: int| lo < j < order@.len() ==> #[trigger] p1[order@[j] as int] == p2[order@[j] as int],
        (u as int) < order@.len(),
        order.pos(u) > lo,
    ensures
        up(cand_tree(p1, order), u, k) == up(cand_tree(p2, order), u, k),
    decreases k,
{
    order.lemma_pos();
    let t1 = cand_tree(p1, order);
    let t2 = cand_tree(p2, order);
    assert(p1[order@[order.pos(u)] as int] == p2[order@[order.pos(u)] as int]);
    assert(t1[u as int] == t2[u as int]);
    if k > 0 {
        if let Some(p) = t1[u as int] {
            assert(order.pos(p) == p1[u as int] - 1);
            lemma_cand_frame(p1, p2, order, lo, p, (k - 1) as nat);
        }
    }
}

/// So they agree on what lies above such a node.
proof fn lemma_above_frame(p1: Seq<usize>, p2: Seq<usize>, order: &NodeOrder, lo: int, u: usize)
    requires
        order.wf(),
        p1.len() == order@.len(),
        p2.len() == order@.len(),
        forall|j: int| lo < j < order@.len() ==> #[trigger] p1[order@[j] as int] == p2[order@[j] as int],
        (u as int) < order@.len(),
        order.pos(u) > lo,
    ensures
        forall|d: usize| #[trigger] is_above(cand_tree(p1, order), d, u) == is_above(cand_tree(p2, order), d, u),
{
    assert forall|d: usize| #[trigger] is_above(cand_tree(p1, order), d, u) == is_above(cand_tree(p2, order), d, u) by {
        if is_above(cand_tree(p1, order), d, u) {
            let k = choose|k: nat| #[trigger] up(cand_tree(p1, order), u, k) == Some(d);
            lemma_cand_frame(p1, p2, order, lo, u, k);
        }
        if is_above(cand_tree(p2, order), d, u) {
            let k = choose|k: nat| #[trigger] up(cand_tree(p2, order), u, k) == Some(d);
            lemma_cand_frame(p1, p2, order, lo, u, k);
        }
    }
}

/// A nearest common ancestor of nodes placed after `lo` stays one when
/// only candidates up to `lo` change.
proof fn lemma_nearest_frame(p1: Seq<usize>, p2: Seq<usize>, order: &NodeOrder, lo: int, c: usize, s: Seq<usize>)
    requires
        order.wf(),
        p1.len() == order@.len(),
        p2.len() == order@.len(),
        forall|j: int| lo < j < order@.len() ==> #[trigger] p1[order@[j] as int] == p2[order@[j] as int],
        (c as int) < order@.len(),
        order.pos(c) > lo,
        forall|i: int| 0 <= i < s.len() ==> (#[trigger] s[i] as int) < order@.len() && order.pos(s[i]) > lo,
        nearest_of_all(cand_tree(p1, order), c, s),
    ensures
        nearest_of_all(cand_tree(p2, order), c, s),
{
    let t1 = cand_tree(p1, order);
    let t2 = cand_tree(p2, order);
    lemma_above_frame(p1, p2, order, lo, c);
    assert forall|i: int| 0 <= i < s.len() implies is_above(t2, c, #[trigger] s[i]) by {
        lemma_above_frame(p1, p2, order, lo, s[i]);
    }
    assert forall|d: usize| #[trigger] above_all(t2, d, s) implies is_above(t2, d, c) by {
        assert forall|i: int| 0 <= i < s.len() implies is_above(t1, d, #[trigger] s[i]) by {
            lemma_above_frame(p1, p2, order, lo, s[i]);
        }
        assert(above_all(t1, d, s));
    }
}

/// The equation at a node placed after `lo` survives a change of the
/// candidates up to `lo`, when predecessors come after their nodes.
proof fn lemma_meets_frame(p1: Seq<usize>, p2: Seq<usize>, order: &NodeOrder, preds: Seq<Seq<usize>>, lo: int, w: usize)
    requires
        order.wf(),
        p1.len() == order@.len(),
        p2.len() == order@.len(),
        preds.len() == order@.len(),
        edges_in_range(preds),
        preds_later(preds, order),
        forall|j: int| lo < j < order@.len() ==> #[trigger] p1[order@[j] as int] == p2[order@[j] as int],
        (w as int) < order@.len(),
        order.pos(w) > lo,
        meets_preds(p1, order, preds, w),
    ensures
        meets_preds(p2, order, preds, w),
{
    order.lemma_pos();
    let t1 = cand_tree(p1, order);
    let t2 = cand_tree(p2, order);
    assert(p1[order@[order.pos(w)] as int] == p2[order@[order.pos(w)] as int]);
    assert(t1[w as int] == t2[w as int]);
    let c = t1[w as int]->0;
    assert(order.pos(c) == p1[w as int] - 1);
    let s = preds[w as int];
    assert forall|i: int| 0 <= i < s.len() implies (#[trigger] s[i] as int) < order@.len() && order.pos(s[i]) > lo by {
        assert(order.pos(w) < order.pos(preds[w as int][i]));
    }
    lemma_nearest_frame(p1, p2, order, lo, c, s);
}

/// Step `i` of `p` follows an edge: `p[i]` is a predecessor of `p[i + 1]`.
pub open spec fn path_step(preds: Seq<Seq<usize>>, p: Seq<usize>, i: int) -> bool {
    (p[i + 1] as int) < preds.len() && preds[p[i + 1] as int].contains(p[i])
}

/// `p` is a path from `entry` to `v` along the edges.
pub open spec fn entry_path(preds: Seq<Seq<usize>>, entry: usize, p: Seq<usize>, v: usize) -> bool {
    &&& p.len() > 0
    &&& p[0] == entry
    &&& p.last() == v
    &&& forall|i: int| 0 <= i < p.len() - 1 ==> #[trigger] path_step(preds, p, i)
}

/// Every path from `entry` to `v` passes through `d`.
pub open spec fn dominates(preds: Seq<Seq<usize>>, entry: usize, d: usize, v: usize) -> bool {
    forall|p: Seq<usize>| #[trigger] entry_path(preds, entry, p, v) ==> p.contains(d)
}

/// `u` is the immediate dominator of `v`: it dominates `v`, is not `v`,
/// and every other node that dominates `v` dominates `u` too.
pub open spec fn immediate_dominator(preds: Seq<Seq<usize>>, entry: usize, u: usize, v: usize) -> bool {
    &&& u != v
    &&& dominates(preds, entry, u, v)
    &&& forall|d: usize| d != v && #[trigger] dominates(preds, entry, d, v) ==> dominates(preds, entry, d, u)
}

/// In a tree rooted at `entry` whose every other node's parent is the
/// nearest common ancestor of its predecessors, a node above `w` lies on
/// every path to `w`.
proof fn lemma_above_dominates(t: Seq<Option<usize>>, preds: Seq<Seq<usize>>, entry: usize, d: usize, p: Seq<usize>)
    requires
        t.len() == preds.len(),
        edges_in_range(preds),
        (entry as int) < t.len(),
        t[entry as int] is None,
        forall|w: usize| (w as int) < t.len() && w != entry
            ==> (#[trigger] t[w as int] matches Some(c) && nearest_of_all(t, c, preds[w as int])),
        entry_path(preds, entry, p, p.last()),
        (p.last() as int) < t.len(),
        is_above(t, d, p.last()),
    ensures
        p.contains(d),
    decreases p.len(),
{
    let w = p.last();
    if d == w {
        assert(p[p.len() - 1] == d);
    } else if w == entry {
        let k = choose|k: nat| #[trigger] up(t, w, k) == Some(d);
        assert(k > 0);
        assert(up(t, w, k) is None);
    } else {
        assert(p.len() >= 2);
        lemma_above_parent(t, d, w);
        let c = t[w as int]->0;
        assert(path_step(preds, p, p.len() - 2));
        let u = p[p.len() - 2];
        assert(preds[w as int].contains(u));
        let i = choose|i: int| 0 <= i < preds[w as int].len() && preds[w as int][i] == u;
        assert(is_above(t, c, preds[w as int][i]));
        lemma_above_trans(t, d, c, u);
        let q = p.drop_last();
        assert forall|i2: int| 0 <= i2 < q.len() - 1 implies #[trigger] path_step(preds, q, i2) by {
            assert(path_step(preds, p, i2));
        }
        assert(q.last() == u);
        assert((u as int) < t.len()) by {
            assert(preds[w as int][i] < preds.len());
        }
        lemma_above_dominates(t, preds, entry, d, q);
        let m = choose|m: int| 0 <= m < q.len() && q[m] == d;
        assert(p[m] == d);
    }
}

/// Conversely, a node on every path to `w` is above `w`.
proof fn lemma_dominates_above(t: Seq<Option<usize>>, preds: Seq<Seq<usize>>, entry: usize, order: &NodeOrder, d: usize, w: usize)
    requires
        order.wf(),
        t.len() == order@.len(),
        preds.len() == order@.len(),
        edges_in_range(preds),
        preds_later(preds, order),
        (entry as int) < t.len(),
        t[entry as int] is None,
        forall|v: usize| (v as int) < t.len() && v != entry
            ==> (#[trigger] t[v as int] matches Some(c) && nearest_of_all(t, c, preds[v as int])),
        (w as int) < t.len(),
        dominates(preds, entry, d, w),
    ensures
        is_above(t, d, w),
    decreases order@.len() - order.pos(w),
{
    order.lemma_pos();
    if w == entry {
        let p = seq![entry];
        assert(entry_path(preds, entry, p, w));
        assert(p.contains(d));
        assert(d == entry);
        assert(up(t, w, 0) == Some(d));
    } else if d == w {
        assert(up(t, w, 0) == Some(d));
    } else {
        let c = t[w as int]->0;
        let s = preds[w as int];
        assert forall|i: int| 0 <= i < s.len() implies is_above(t, d, #[trigger] s[i]) by {
            let u = s[i];
            assert(u < preds.len());
            assert(order.pos(w) < order.pos(preds[w as int][i]));
            assert forall|q: Seq<usize>| #[trigger] entry_path(preds, entry, q, u) implies q.contains(d) by {
                let q2 = q.push(w);
                assert forall|i2: int| 0 <= i2 < q2.len() - 1 implies #[trigger] path_step(preds, q2, i2) by {
                    if i2 < q.len() - 1 {
                        assert(path_step(preds, q, i2));
                    } else {
                        assert(q2[i2] == u && q2[i2 + 1] == w);
                        assert(s.contains(u));
                    }
                }
                assert(entry_path(preds, entry, q2, w));
                assert(q2.contains(d));
                let m = choose|m: int| 0 <= m < q2.len() && q2[m] == d;
                assert(m < q.len());
                assert(q[m] == d);
            }
            lemma_dominates_above(t, preds, entry, order, d, u);
        }
        assert(above_all(t, d, s));
        assert(is_above(t, d, c));
        assert(up(t, w, 1) == Some(c)) by {
            reveal_with_fuel(up, 2);
        }
        lemma_above_trans(t, d, c, w);
    }
}

/// A single node is its own nearest common ancestor.
proof fn lemma_nearest_single(t: Seq<Option<usize>>, u: usize)
    requires
        (u as int) < t.len(),
    ensures
        nearest_of_all(t, u, seq![u]),
{
    assert(up(t, u, 0) == Some(u));
    assert(is_above(t, u, seq![u][0]));
    assert forall|d: usize| #[trigger] above_all(t, d, seq![u]) implies is_above(t, d, u) by {
        assert(is_above(t, d, seq![u][0]));
    }
}

/// The nearest common ancestor of a set's one and a further node is the
/// set's and the node's together.
proof fn lemma_nearest_extend(t: Seq<Option<usize>>, c: usize, s: Seq<usize>, u: usize, e: usize)
    requires
        nearest_of_all(t, c, s),
        nearest_common(t, e, c, u),
    ensures
        nearest_of_all(t, e, s.push(u)),
{
    let s2 = s.push(u);
    assert forall|i: int| 0 <= i < s2.len() implies is_above(t, e, #[trigger] s2[i]) by {
        if i < s.len() {
            assert(s2[i] == s[i]);
            assert(is_above(t, c, s[i]));
            lemma_above_trans(t, e, c, s[i]);
        }
    }
    assert forall|d: usize| #[trigger] above_all(t, d, s2) implies is_above(t, d, e) by {
        assert forall|i: int| 0 <= i < s.len() implies is_above(t, d, #[trigger] s[i]) by {
            assert(s2[i] == s[i]);
        }
        assert(above_all(t, d, s));
        assert(is_above(t, d, s2[s.len() as int]));
        assert(common_above(t, d, c, u));
    }
}

/// An order that ends with `entry` and in which every other node has a
/// predecessor placed after it, as a depth-first search leaves them: the
/// search reached the node from that predecessor.
pub open spec fn spanning_order(preds: Seq<Seq<usize>>, entry: usize, order: &NodeOrder) -> bool {
    &&& order@.len() > 0
    &&& order@[order@.len() - 1] == entry
    &&& forall|v: usize| (v as int) < order@.len() && v != entry ==> #[trigger] has_later_source(preds, order, v)
}

/// `v` has a predecessor placed after it in `order`.
pub open spec fn has_later_source(preds: Seq<Seq<usize>>, order: &NodeOrder, v: usize) -> bool {
    exists|u: usize| #[trigger] preds[v as int].contains(u) && (u as int) < order@.len() && order.pos(u) > order.pos(v)
}

/// Immediate dominators, by the iterative algorithm of Cooper, Harvey and
/// Kennedy: each node's candidate is the meeting point of the candidates of
/// its predecessors, repeated in reverse postorder until nothing changes.
/// The result gives each node's parent in the dominator tree, and none for
/// `entry`. On an order that spans the graph from `entry`, every other node
/// gets a parent placed after it, so that the parents form a tree with
/// root `entry`. When moreover every predecessor is placed after its node
/// (the postorder of a graph without cycles), each node's parent is the
/// nearest common ancestor, in that tree, of its predecessors, and it is
/// the node's immediate dominator: it lies on every path from `entry` to
/// the node, and so does every other node that lies on all of them.
pub fn idom(preds: &EdgeArray, entry: usize, order: &NodeOrder) -> (r: Vec<Option<usize>>)
    requires
        order.wf(),
        preds@.len() == order@.len(),
        edges_in_range(preds@),
        (entry as int) < order@.len(),
    ensures
        r@.len() == order@.len(),
        r@[entry as int] is None,
        forall|v: usize| (v as int) < r@.len() ==> match #[trigger] r@[v as int] {
            Some(u) => (u as int) < r@.len() && order.pos(u) >= order.pos(v),
            None => true,
        },
        spanning_order(preds@, entry, order) ==> forall|v: usize| (v as int) < r@.len() && v != entry
            ==> (#[trigger] r@[v as int] matches Some(u) && order.pos(u) > order.pos(v)),
        spanning_order(preds@, entry, order) && preds_later(preds@, order) ==> forall|v: usize|
            (v as int) < r@.len() && v != entry
            ==> (#[trigger] r@[v as int] matches Some(u) && nearest_of_all(r@, u, preds@[v as int])),
        spanning_order(preds@, entry, order) && preds_later(preds@, order) ==> forall|v: usize|
            (v as int) < r@.len() && v != entry
            ==> (#[trigger] r@[v as int] matches Some(u) && immediate_dominator(preds@, entry, u, v)),
{
    let n = order.len();
    let ghost span = spanning_order(preds@, entry, order);
    let ghost later = preds_later(preds@, order);
    proof {
        order.lemma_pos();
    }
    let mut parents: Vec<usize> = Vec::new();
    let mut k: usize = 0;
    while k < n
        invariant
            k <= n,
            parents@.len() == k,
            forall|j: int| 0 <= j < k ==> #[trigger] parents@[j] == 0,
        decreases n - k,
    {
        parents.push(0);
        k = k + 1;
    }
    let entry_pos = order.position(entry);
    parents.set(entry, entry_pos + 1);
    let bound: usize = match n.checked_mul(n) {
        Some(m) => if m < usize::MAX - 3 { m + 3 } else { usize::MAX },
        None => usize::MAX,
    };
    let mut rounds: usize = 0;
    let mut changed = true;
    while changed && rounds < bound
        invariant
            order.wf(),
            n == order@.len(),
            preds@.len() == n,
            edges_in_range(preds@),
            candidates_ok(parents@, order),
            (entry as int) < n,
            bound >= 3,
            rounds == 0 ==> changed,
            span == spanning_order(preds@, entry, order),
            span ==> parents@[entry as int] == n,
            span && rounds > 0 ==> forall|j: int| 0 <= j < n - 1 ==> #[trigger] parents@[order@[j] as int] >= j + 2,
            later == preds_later(preds@, order),
            span && later && rounds > 0 ==> forall|j: int| 0 <= j < n - 1
                ==> #[trigger] meets_preds(parents@, order, preds@, order@[j]),
        decreases bound - rounds,
    {
        changed = false;
        rounds = rounds + 1;
        let mut k = if n > 0 { n - 1 } else { 0 };
        while k > 0
            invariant
                order.wf(),
                n == order@.len(),
                preds@.len() == n,
                edges_in_range(preds@),
                candidates_ok(parents@, order),
                k <= n,
                n > 0 ==> k <= n - 1,
                (entry as int) < n,
                span == spanning_order(preds@, entry, order),
                span ==> parents@[entry as int] == n,
                span ==> forall|j: int| k <= j < n - 1 ==> #[trigger] parents@[order@[j] as int] >= j + 2,
                later == preds_later(preds@, order),
                span && later ==> forall|j: int| k <= j < n - 1
                    ==> #[trigger] meets_preds(parents@, order, preds@, order@[j]),
            decreases k,
        {
            k = k - 1;
            let v = order.node_at(k);
            let ps = preds.edges_from(v);
            let mut x: usize = 0;
            let mut j: usize = 0;
            proof {
                order.lemma_pos();
                assert(order.pos(v) == k);
            }
            while j < ps.len()
                invariant
                    order.wf(),
                    n == order@.len(),
                    candidates_ok(parents@, order),
                    ps@ == preds@[v as int],
                    preds@.len() == n,
                    edges_in_range(preds@),
                    (v as int) < n,
                    x <= n,
                    j <= ps@.len(),
                    forall|jj: int| 0 <= jj < j && #[trigger] parents@[ps@[jj] as int] != 0
                        ==> x >= order.pos(ps@[jj]) + 1,
                    order.pos(v) == k,
                    (entry as int) < n,
                    span == spanning_order(preds@, entry, order),
                    later == preds_later(preds@, order),
                    span ==> parents@[entry as int] == n,
                    span ==> forall|j2: int| k + 1 <= j2 < n - 1 ==> #[trigger] parents@[order@[j2] as int] >= j2 + 2,
                    span && later ==> (j == 0 ==> x == 0),
                    span && later && j > 0 ==> 1 <= x && order.pos(order@[x - 1]) > k
                        && nearest_of_all(cand_tree(parents@, order), order@[x - 1], ps@.take(j as int)),
                decreases ps@.len() - j,
            {
                let u = ps[j];
                assert((u as int) < n) by {
                    assert(preds@[v as int][j as int] < preds@.len());
                }
                let ghost x_old = x;
                proof {
                    order.lemma_pos();
                    if span && later {
                        assert(order.pos(v) < order.pos(preds@[v as int][j as int]));
                        assert(order.pos(u) > k);
                        if order.pos(u) < n - 1 {
                            assert(order@[order.pos(u)] == u);
                            assert(parents@[order@[order.pos(u)] as int] >= order.pos(u) + 2);
                        } else {
                            assert(u == entry);
                        }
                    }
                }
                if parents[u] != 0 {
                    let y = order.position(u) + 1;
                    if x == 0 {
                        x = y;
                        proof {
                            if span && later {
                                assert(order@[x - 1] == u);
                                lemma_nearest_single(cand_tree(parents@, order), u);
                                assert(ps@.take(1) =~= seq![u]);
                            }
                        }
                    } else {
                        x = intersect(&parents, order, x, y);
                        proof {
                            if span && later {
                                let t = cand_tree(parents@, order);
                                let c = order@[x_old - 1];
                                assert(order@[y - 1] == u);
                                assert(set_from(parents@, order, (if x_old <= y { x_old as int } else { y as int }) - 1));
                                assert(nearest_common(t, order@[x - 1], c, u));
                                lemma_nearest_extend(t, c, ps@.take(j as int), u, order@[x - 1]);
                                assert(ps@.take(j + 1) =~= ps@.take(j as int).push(u));
                                assert(is_above(t, order@[x - 1], c));
                                lemma_cand_above_pos(parents@, order, order@[x - 1], c);
                            }
                        }
                    }
                }
                j = j + 1;
            }
            proof {
                if span {
                    if v != entry {
                        assert(has_later_source(preds@, order, v));
                        let u = choose|u: usize| #[trigger] preds@[v as int].contains(u) && (u as int) < n
                            && order.pos(u) > order.pos(v);
                        let jj = choose|jj: int| 0 <= jj < ps@.len() && ps@[jj] == u;
                        let pu = order.pos(u);
                        assert(order@[pu] == u);
                        if pu < n - 1 {
                            assert(parents@[order@[pu] as int] >= pu + 2);
                        } else {
                            assert(u == entry);
                        }
                        assert(parents@[ps@[jj] as int] != 0);
                        assert(x >= k + 2);
                    } else {
                        assert(order@[n - 1] == entry);
                        assert(order.pos(entry) == n - 1);
                    }
                }
            }
            let ghost p1 = parents@;
            proof {
                if span && later {
                    assert(ps@.take(ps@.len() as int) =~= ps@);
                }
            }
            if x == 0 || x >= k + 1 {
                if parents[v] != x {
                    changed = true;
                }
                parents.set(v, x);
            }
            proof {
                if span && later {
                    order.lemma_pos();
                    let p2 = parents@;
                    assert forall|j2: int| k < j2 < n implies #[trigger] p1[order@[j2] as int] == p2[order@[j2] as int] by {
                        assert(order.pos(order@[j2]) == j2);
                    }
                    let c = order@[x - 1];
                    assert(order.pos(c) > k);
                    let s = preds@[v as int];
                    assert forall|i: int| 0 <= i < s.len() implies (#[trigger] s[i] as int) < n && order.pos(s[i]) > k by {
                        assert(order.pos(v) < order.pos(preds@[v as int][i]));
                    }
                    lemma_nearest_frame(p1, p2, order, k as int, c, s);
                    assert(cand_tree(p2, order)[v as int] == Some(c));
                    assert(meets_preds(p2, order, preds@, v));
                    assert forall|j2: int| k <= j2 < n - 1 implies #[trigger] meets_preds(p2, order, preds@, order@[j2]) by {
                        if j2 > k {
                            lemma_meets_frame(p1, p2, order, preds@, k as int, order@[j2]);
                        } else {
                            assert(order@[j2] == v);
                        }
                    }
                }
            }
            proof {
                if span {
                    assert(v != entry) by {
                        assert(order.pos(entry) == n - 1);
                    }
                    assert forall|j2: int| k <= j2 < n - 1 implies #[trigger] parents@[order@[j2] as int] >= j2 + 2 by {
                        if j2 > k {
                            assert(order@[j2] != v) by {
                                assert(order.pos(order@[j2]) == j2);
                            }
                        }
                    }
                }
            }
        }
    }
    proof {
        assert(rounds > 0);
    }
    let mut r: Vec<Option<usize>> = Vec::new();
    let mut v: usize = 0;
    while v < n
        invariant
            order.wf(),
            n == order@.len(),
            candidates_ok(parents@, order),
            v <= n,
            r@.len() == v,
            (entry as int) < n,
            forall|w: usize| (w as int) < v ==> match #[trigger] r@[w as int] {
                Some(u) => (u as int) < n && order.pos(u) >= order.pos(w),
                None => true,
            },
            forall|w: usize| (w as int) < v && w == entry ==> #[trigger] r@[w as int] is None,
            forall|w: usize| (w as int) < v && w != entry && parents@[w as int] != 0 ==> (#[trigger] r@[w as int]
                matches Some(u) && order.pos(u) + 1 == parents@[w as int]),
        decreases n - v,
    {
        let x = parents[v];
        if x == 0 || v == entry {
            r.push(None);
        } else {
            let u = order.node_at(x - 1);
            proof {
                order.lemma_pos();
                assert(order.pos(u) == x - 1);
            }
            r.push(Some(u));
        }
        v = v + 1;
    }
    proof {
        if span {
            order.lemma_pos();
            assert forall|w: int| 0 <= w < n implies #[trigger] r@[w] == cand_tree(parents@, order)[w] by {
                let wu = w as usize;
                let j = order.pos(wu);
                assert(order@[j] == wu);
                if wu != entry {
                    assert(j != n - 1);
                    assert(parents@[order@[j] as int] >= j + 2);
                    let u = r@[w]->0;
                    assert(order.pos(u) + 1 == parents@[w]);
                    assert(order@[order.pos(u)] == u);
                }
            }
            assert(r@ =~= cand_tree(parents@, order));
            if later {
                assert forall|w: usize| (w as int) < r@.len() && w != entry
                    implies (#[trigger] r@[w as int] matches Some(u) && nearest_of_all(r@, u, preds@[w as int])) by {
                    let j = order.pos(w);
                    assert(order@[j] == w);
                    assert(j != n - 1);
                    assert(meets_preds(parents@, order, preds@, order@[j]));
                }
                let t = r@;
                assert(t[entry as int] is None);
                assert forall|v: usize| (v as int) < r@.len() && v != entry
                    implies (#[trigger] r@[v as int] matches Some(u) && immediate_dominator(preds@, entry, u, v)) by {
                    let u = t[v as int]->0;
                    let j = order.pos(v);
                    assert(order@[j] == v);
                    assert(j != n - 1);
                    assert(parents@[order@[j] as int] >= j + 2);
                    assert(order.pos(u) == parents@[v as int] - 1);
                    assert(u != v);
                    assert(up(t, v, 1) == Some(u)) by {
                        reveal_with_fuel(up, 2);
                    }
                    assert(is_above(t, u, v));
                    assert forall|p: Seq<usize>| #[trigger] entry_path(preds@, entry, p, v) implies p.contains(u) by {
                        lemma_above_dominates(t, preds@, entry, u, p);
                    }
                    assert forall|d: usize| d != v && #[trigger] dominates(preds@, entry, d, v)
                        implies dominates(preds@, entry, d, u) by {
                        lemma_dominates_above(t, preds@, entry, order, d, v);
                        lemma_above_parent(t, d, v);
                        assert forall|p: Seq<usize>| #[trigger] entry_path(preds@, entry, p, u) implies p.contains(d) by {
                            lemma_above_dominates(t, preds@, entry, d, p);
                        }
                    }
                }
            }
            assert forall|w: usize| (w as int) < r@.len() && w != entry
                implies (#[trigger] r@[w as int] matches Some(u) && order.pos(u) > order.pos(w)) by {
                order.lemma_pos();
                let j = order.pos(w);
                assert(order@[j] == w);
                assert(j != n - 1);
                assert(parents@[order@[j] as int] >= j + 2);
            }
        }
    }
    r
}


/// An order in which every node but the last, `entry`, has a predecessor
/// placed after it, as `postorder` returns, spans the graph from `entry`
/// when read with the graph's predecessor lists: so `idom` on such an order
/// gives every node but `entry` a parent, and the parents form a tree.
pub proof fn lemma_later_predecessor_spans(
    succs: Seq<Seq<usize>>,
    preds: Seq<Seq<usize>>,
    entry: usize,
    order: &NodeOrder,
)
    requires
        order.wf(),
        succs.len() == order@.len(),
        succs.len() <= usize::MAX,
        preds.len() == succs.len(),
        forall|w: int| 0 <= w < preds.len() ==> #[trigger] preds[w] == predecessors(succs, w as usize),
        order@.len() > 0,
        order@.last() == entry,
        later_predecessor(succs, order@),
    ensures
        spanning_order(preds, entry, order),
{
    order.lemma_pos();
    let n = order@.len();
    assert forall|v: usize| (v as int) < n && v != entry implies #[trigger] has_later_source(preds, order, v) by {
        let i = order.pos(v);
        assert(order@[i] == v);
        assert(i < n - 1);
        assert(has_later_predecessor(succs, order@, i));
        let j = choose|j: int| i < j < n && #[trigger] succs[order@[j] as int].contains(order@[i]);
        let u = order@[j];
        assert(order.pos(u) == j);
        lemma_predecessors_contains(succs, v, u);
        assert(preds[v as int].contains(u));
    }
}

proof fn lemma_row_sources_contains(row: Seq<usize>, i: int, u: usize, w: usize, x: usize)
    requires
        0 <= i <= row.len(),
    ensures
        row_sources(row, i, u, w).contains(x) <==> (x == u && row.take(i).contains(w)),
    decreases i,
{
    if i > 0 {
        lemma_row_sources_contains(row, i - 1, u, w, x);
        let a = row_sources(row, i - 1, u, w);
        let r = row_sources(row, i, u, w);
        let t0 = row.take(i - 1);
        let t1 = row.take(i);
        assert(t1 =~= t0.push(row[i - 1]));
        if r.contains(x) {
            let j = choose|j: int| 0 <= j < r.len() && r[j] == x;
            if j < a.len() {
                assert(a[j] == x);
                assert(a.contains(x));
                let k = choose|k: int| 0 <= k < t0.len() && t0[k] == w;
                assert(t1[k] == w);
            } else {
                assert(row[i - 1] == w);
                assert(t1[i - 1] == w);
            }
        }
        if x == u && t1.contains(w) {
            let k = choose|k: int| 0 <= k < t1.len() && t1[k] == w;
            if k < i - 1 {
                assert(t0[k] == w);
                assert(a.contains(x));
                let j = choose|j: int| 0 <= j < a.len() && a[j] == x;
                assert(r[j] == x);
            } else {
                assert(row[i - 1] == w);
                assert(r[r.len() - 1] == x);
            }
        }
    } else {
        assert(row.take(0) =~= Seq::<usize>::empty());
    }
}

pub(crate) proof fn lemma_sources_contains(g: Seq<Seq<usize>>, v: int, w: usize, x: usize)
    requires
        0 <= v <= g.len(),
        g.len() <= usize::MAX,
    ensures
        sources(g, v, w).contains(x) <==> ((x as int) < v && g[x as int].contains(w)),
    decreases v,
{
    if v > 0 {
        lemma_sources_contains(g, v - 1, w, x);
        let row = g[v - 1];
        lemma_row_sources_contains(row, row.len() as int, (v - 1) as usize, w, x);
        assert(row.take(row.len() as int) =~= row);
        let a = sources(g, v - 1, w);
        let b = row_sources(row, row.len() as int, (v - 1) as usize, w);
        let r = sources(g, v, w);
        if r.contains(x) {
            let j = choose|j: int| 0 <= j < r.len() && r[j] == x;
            if j < a.len() {
                assert(a[j] == x);
            } else {
                assert(b[j - a.len()] == x);
            }
        }
        if (x as int) < v && g[x as int].contains(w) {
            if (x as int) < v - 1 {
                let j = choose|j: int| 0 <= j < a.len() && a[j] == x;
                assert(r[j] == x);
            } else {
                assert(b.contains(x));
                let j = choose|j: int| 0 <= j < b.len() && b[j] == x;
                assert(r[a.len() + j] == x);
            }
        }
    }
}

/// `u` is listed among the predecessors of `w` exactly when there is an
/// edge from `u` to `w`.
pub proof fn lemma_predecessors_contains(g: Seq<Seq<usize>>, w: usize, u: usize)
    requires
        g.len() <= usize::MAX,
    ensures
        predecessors(g, w).contains(u) <==> ((u as int) < g.len() && g[u as int].contains(w)),
{
    lemma_sources_contains(g, g.len() as int, w, u);
    let s = sources(g, g.len() as int, w);
    let p = predecessors(g, w);
    if p.contains(u) {
        let j = choose|j: int| 0 <= j < p.len() && p[j] == u;
        assert(s[s.len() - 1 - j] == u);
    }
    if s.contains(u) {
        let j = choose|j: int| 0 <= j < s.len() && s[j] == u;
        assert(p[s.len() - 1 - j] == u);
    }
}


/// A number that names a node of a graph.
pub trait Idx: Sized {
    /// The number the value stands for.
    spec fn idx_view(&self) -> usize;

    fn new(index: usize) -> (r: Self)
        ensures
            r.idx_view() == index;

    fn index(self) -> (r: usize)
        ensures
            r == self.idx_view();
}

impl Idx for usize {
    open spec fn idx_view(&self) -> usize {
        *self
    }

    fn new(index: usize) -> (r: Self) {
        index
    }

    fn index(self) -> (r: usize) {
        self
    }
}

/// A graph on the nodes numbered `0..node_total()`.
pub trait Graph {
    type Node: Idx;

    /// Whether the graph is well formed, which its methods ask.
    spec fn graph_wf(&self) -> bool;

    /// How many nodes the graph has.
    spec fn node_total(&self) -> nat;

    fn node_count(&self) -> (n: usize)
        requires
            self.graph_wf(),
        ensures
            n == self.node_total();

    /// Every node, in the order of their numbers.
    fn nodes(&self) -> (r: Vec<Self::Node>)
        requires
            self.graph_wf(),
        ensures
            r@.len() == self.node_total(),
            forall|i: int| 0 <= i < r@.len() ==> #[trigger] r@[i].idx_view() == i;
}

/// A graph with an entry node.
pub trait EntryNode: Graph {
    spec fn entry_view(&self) -> usize;

    fn entry(&self) -> (r: Self::Node)
        requires
            self.graph_wf(),
        ensures
            r.idx_view() == self.entry_view();
}

/// A graph whose nodes list the nodes their edges come from.
pub trait Predecessors: Graph {
    /// Each node's predecessors, by number.
    spec fn pred_view(&self) -> Seq<Seq<usize>>;

    fn predecessors(&self, node: Self::Node) -> (r: Vec<Self::Node>)
        requires
            self.graph_wf(),
            node.idx_view() < self.node_total(),
        ensures
            r@.len() == self.pred_view()[node.idx_view() as int].len(),
            forall|k: int| 0 <= k < r@.len() ==> #[trigger] r@[k].idx_view() == self.pred_view()[node.idx_view() as int][k];
}

/// A graph whose nodes list the nodes their edges lead to.
pub trait Successors: Graph {
    /// Each node's successors, by number.
    spec fn succ_view(&self) -> Seq<Seq<usize>>;

    fn successors(&self, node: Self::Node) -> (r: Vec<Self::Node>)
        requires
            self.graph_wf(),
            node.idx_view() < self.node_total(),
        ensures
            r@.len() == self.succ_view()[node.idx_view() as int].len(),
            forall|k: int| 0 <= k < r@.len() ==> #[trigger] r@[k].idx_view() == self.succ_view()[node.idx_view() as int][k];
}

/// A graph with a depth-first walk from its entry.
pub trait Dfs: Graph {
    /// The walk: each node entered, then left once its children are done.
    spec fn dfs_view(&self) -> Seq<NodeVisit>;

    fn dfs(&self) -> (r: Vec<NodeVisit>)
        requires
            self.graph_wf(),
        ensures
            r@ == self.dfs_view();
}

/// An order of nodes: each node has a position, and each position a node.
pub trait NodeOrdering<N> {
    /// The nodes, position by position.
    spec fn order_view(&self) -> Seq<N>;

    spec fn order_wf(&self) -> bool;

    fn position(&self, node: N) -> (p: usize)
        requires
            self.order_wf(),
            self.order_view().contains(node),
        ensures
            p < self.order_view().len(),
            self.order_view()[p as int] == node;

    fn node_at(&self, position: usize) -> (v: N)
        requires
            self.order_wf(),
            position < self.order_view().len(),
        ensures
            v == self.order_view()[position as int];

    /// The nodes, in order.
    fn iter(&self) -> (r: Vec<N>)
        requires
            self.order_wf(),
        ensures
            r@ == self.order_view();
}

impl NodeOrdering<usize> for NodeOrder {
    open spec fn order_view(&self) -> Seq<usize> {
        self@
    }

    open spec fn order_wf(&self) -> bool {
        self.wf()
    }

    fn position(&self, node: usize) -> (p: usize) {
        proof {
            self.lemma_pos();
        }
        NodeOrder::position(self, node)
    }

    fn node_at(&self, position: usize) -> (v: usize) {
        NodeOrder::node_at(self, position)
    }

    fn iter(&self) -> (r: Vec<usize>) {
        self.nodes.clone()
    }
}

impl Graph for Tree {
    type Node = usize;

    open spec fn graph_wf(&self) -> bool {
        self.wf()
    }

    open spec fn node_total(&self) -> nat {
        self.parents().len()
    }

    fn node_count(&self) -> (n: usize) {
        Tree::node_count(self)
    }

    fn nodes(&self) -> (r: Vec<usize>) {
        let n = Tree::node_count(self);
        let mut r: Vec<usize> = Vec::new();
        let mut i: usize = 0;
        while i < n
            invariant
                i <= n,
                r@.len() == i,
                forall|k: int| 0 <= k < i ==> #[trigger] r@[k] == k,
            decreases n - i,
        {
            r.push(i);
            i = i + 1;
        }
        r
    }
}

impl EntryNode for Tree {
    open spec fn entry_view(&self) -> usize {
        self.root()
    }

    fn entry(&self) -> (r: usize) {
        self.root
    }
}

impl Successors for Tree {
    open spec fn succ_view(&self) -> Seq<Seq<usize>> {
        self.children()
    }

    fn successors(&self, node: usize) -> (r: Vec<usize>) {
        proof {
            self.lemma_wf();
        }
        let cs = Tree::successors(self, node);
        let mut r: Vec<usize> = Vec::new();
        let mut k: usize = 0;
        while k < cs.len()
            invariant
                k <= cs@.len(),
                r@ == cs@.take(k as int),
            decreases cs@.len() - k,
        {
            r.push(cs[k]);
            proof {
                assert(cs@.take(k + 1) =~= cs@.take(k as int).push(cs@[k as int]));
            }
            k = k + 1;
        }
        proof {
            assert(cs@.take(cs@.len() as int) =~= cs@);
        }
        r
    }
}

impl Predecessors for Tree {
    open spec fn pred_view(&self) -> Seq<Seq<usize>> {
        parent_lists(self.parents())
    }

    fn predecessors(&self, node: usize) -> (r: Vec<usize>) {
        let mut r: Vec<usize> = Vec::new();
        match Tree::parent(self, node) {
            Some(p) => r.push(p),
            None => {},
        }
        r
    }
}

impl Dfs for Tree {
    open spec fn dfs_view(&self) -> Seq<NodeVisit> {
        self.events()
    }

    fn dfs(&self) -> (r: Vec<NodeVisit>) {
        proof {
            self.lemma_wf();
        }
        Tree::dfs(self)
    }
}

/// A graph with every edge turned around.
pub struct Transpose<G> {
    inner: G,
}

impl<G> Transpose<G> {
    /// The graph that is turned around.
    pub closed spec fn inner(&self) -> G {
        self.inner
    }
}

/// The graph `g` with every edge turned around.
pub fn transpose<G>(g: G) -> (t: Transpose<G>)
    ensures
        t.inner() == g,
{
    Transpose { inner: g }
}

impl<G: Graph> Graph for Transpose<G> {
    type Node = G::Node;

    open spec fn graph_wf(&self) -> bool {
        self.inner().graph_wf()
    }

    open spec fn node_total(&self) -> nat {
        self.inner().node_total()
    }

    fn node_count(&self) -> (n: usize) {
        self.inner.node_count()
    }

    fn nodes(&self) -> (r: Vec<G::Node>) {
        self.inner.nodes()
    }
}

impl<G: Successors> Predecessors for Transpose<G> {
    open spec fn pred_view(&self) -> Seq<Seq<usize>> {
        self.inner().succ_view()
    }

    fn predecessors(&self, node: G::Node) -> (r: Vec<G::Node>) {
        self.inner.successors(node)
    }
}

impl<G: Predecessors> Successors for Transpose<G> {
    open spec fn succ_view(&self) -> Seq<Seq<usize>> {
        self.inner().pred_view()
    }

    fn successors(&self, node: G::Node) -> (r: Vec<G::Node>) {
        self.inner.predecessors(node)
    }
}

} // verus!
