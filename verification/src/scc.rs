//! Strongly connected components of a graph given as a list of edges, in
//! one pass of depth-first search that keeps a lowest-reachable
//! representative per vertex.
//!
//! Vertices are values of a `Vertex` type: each has an integer key that
//! identifies it and orders it as the type itself is ordered.

use vstd::prelude::*;
use std::collections::HashMap;
use vstd::multiset::Multiset;
use vstd::seq_lib::to_multiset_insert;

verus! {

broadcast use vstd::std_specs::hash::group_hash_axioms;

/// A vertex: a copyable value with an integer key that tells vertices
/// apart and orders them as the type does.
pub trait Vertex: Sized {
    spec fn key_of(self) -> i128;

    fn key(&self) -> (k: i128)
        ensures
            k == self.key_of();

    /// A copy of the vertex.
    fn dup(&self) -> (r: Self)
        ensures
            r == *self;

    proof fn lemma_key_injective(a: Self, b: Self)
        ensures
            a.key_of() == b.key_of() ==> a == b;
}

impl Vertex for () {
    open spec fn key_of(self) -> i128 {
        0
    }

    fn key(&self) -> (k: i128) {
        0
    }

    fn dup(&self) -> (r: Self) {
        ()
    }

    proof fn lemma_key_injective(a: Self, b: Self) {
    }
}

impl Vertex for i32 {
    open spec fn key_of(self) -> i128 {
        self as i128
    }

    fn key(&self) -> (k: i128) {
        *self as i128
    }

    fn dup(&self) -> (r: Self) {
        *self
    }

    proof fn lemma_key_injective(a: Self, b: Self) {
    }
}

impl Vertex for u32 {
    open spec fn key_of(self) -> i128 {
        self as i128
    }

    fn key(&self) -> (k: i128) {
        *self as i128
    }

    fn dup(&self) -> (r: Self) {
        *self
    }

    proof fn lemma_key_injective(a: Self, b: Self) {
    }
}

impl Vertex for i64 {
    open spec fn key_of(self) -> i128 {
        self as i128
    }

    fn key(&self) -> (k: i128) {
        *self as i128
    }

    fn dup(&self) -> (r: Self) {
        *self
    }

    proof fn lemma_key_injective(a: Self, b: Self) {
    }
}

impl Vertex for u64 {
    open spec fn key_of(self) -> i128 {
        self as i128
    }

    fn key(&self) -> (k: i128) {
        *self as i128
    }

    fn dup(&self) -> (r: Self) {
        *self
    }

    proof fn lemma_key_injective(a: Self, b: Self) {
    }
}

impl Vertex for usize {
    open spec fn key_of(self) -> i128 {
        self as i128
    }

    fn key(&self) -> (k: i128) {
        *self as i128
    }

    fn dup(&self) -> (r: Self) {
        *self
    }

    proof fn lemma_key_injective(a: Self, b: Self) {
    }
}

/// Edge `a` comes no later than edge `b`: by source, then by target.
pub open spec fn edge_le<T: Vertex>(a: (T, T), b: (T, T)) -> bool {
    a.0.key_of() < b.0.key_of() || (a.0.key_of() == b.0.key_of() && a.1.key_of() <= b.1.key_of())
}

pub open spec fn sorted_edges<T: Vertex>(s: Seq<(T, T)>) -> bool {
    forall|i: int, j: int| 0 <= i < j < s.len() ==> edge_le(s[i], s[j])
}

/// A list of edges, sorted by source and then by target.
pub struct Edges<T> {
    inner: Vec<(T, T)>,
}

impl<T: Vertex> View for Edges<T> {
    type V = Seq<(T, T)>;

    closed spec fn view(&self) -> Seq<(T, T)> {
        self.inner@
    }
}

/// Where the out-edges of `source` continue: the index of the next edge
/// to look at.
struct OutEdgeIter<T> {
    source: T,
    next: usize,
}

impl<T: Vertex> Edges<T> {
    pub closed spec fn wf(&self) -> bool {
        sorted_edges(self.inner@)
    }

    /// Sorts `edges` into an edge list.
    pub fn new(edges: Vec<(T, T)>) -> (r: Edges<T>)
        ensures
            r.wf(),
            sorted_edges(r@),
            r@.to_multiset() == edges@.to_multiset(),
    {
        broadcast use {vstd::seq_lib::group_to_multiset_ensures, vstd::multiset::group_multiset_axioms};
        let ghost input = edges@;
        let mut rest = edges;
        proof {
            assert(Seq::<(T, T)>::empty().to_multiset() =~= Multiset::empty());
        }
        let mut sorted: Vec<(T, T)> = Vec::new();
        while rest.len() > 0
            invariant
                sorted_edges(sorted@),
                sorted@.to_multiset().add(rest@.to_multiset()) == input.to_multiset(),
            decreases rest@.len(),
        {
            let ghost r0 = rest@;
            let e = rest.pop().unwrap();
            proof {
                assert(r0 =~= rest@.push(e));
            }
            let ks = e.0.key();
            let kt = e.1.key();
            let mut p: usize = 0;
            loop
                invariant
                    p <= sorted@.len(),
                    ks == e.0.key_of(),
                    kt == e.1.key_of(),
                    forall|j: int| 0 <= j < p ==> edge_le(#[trigger] sorted@[j], e),
                ensures
                    p <= sorted@.len(),
                    forall|j: int| 0 <= j < p ==> edge_le(#[trigger] sorted@[j], e),
                    p < sorted@.len() ==> !edge_le(sorted@[p as int], e),
                decreases sorted@.len() - p,
            {
                if p >= sorted.len() {
                    break;
                }
                let pair = &sorted[p];
                let ka = pair.0.key();
                let kb = pair.1.key();
                if !(ka < ks || (ka == ks && kb <= kt)) {
                    break;
                }
                p = p + 1;
            }
            let ghost old_sorted = sorted@;
            proof {
                assert forall|j: int| p <= j < old_sorted.len() implies !edge_le(#[trigger] old_sorted[j], e) by {
                    assert(!edge_le(old_sorted[p as int], e));
                    if j > p {
                        assert(edge_le(old_sorted[p as int], old_sorted[j]));
                    }
                }
            }
            sorted.insert(p, e);
            proof {
                to_multiset_insert(old_sorted, p as int, e);
                assert(sorted@ =~= old_sorted.insert(p as int, e));
                assert forall|a: int, b: int| 0 <= a < b < sorted@.len() implies edge_le(sorted@[a], sorted@[b]) by {
                    if a < p && b > p {
                        assert(sorted@[a] == old_sorted[a]);
                        assert(sorted@[b] == old_sorted[b - 1]);
                    } else if a < p && b == p {
                        assert(sorted@[a] == old_sorted[a]);
                    } else if a == p {
                        assert(sorted@[b] == old_sorted[b - 1]);
                        assert(!edge_le(old_sorted[b - 1], e));
                    } else if b < p {
                        assert(sorted@[a] == old_sorted[a]);
                        assert(sorted@[b] == old_sorted[b]);
                    } else {
                        assert(sorted@[a] == old_sorted[a - 1]);
                        assert(sorted@[b] == old_sorted[b - 1]);
                    }
                }
                vstd::seq_lib::to_multiset_build(rest@, e);
                assert(r0.to_multiset() =~= rest@.to_multiset().insert(e));
                assert(sorted@.to_multiset() =~= old_sorted.to_multiset().insert(e));
                assert(sorted@.to_multiset().add(rest@.to_multiset())
                    =~= old_sorted.to_multiset().add(r0.to_multiset()));
            }
        }
        proof {
            assert(rest@ =~= Seq::<(T, T)>::empty());
            assert(rest@.to_multiset() =~= Multiset::empty());
            assert(sorted@.to_multiset().add(rest@.to_multiset()) =~= sorted@.to_multiset());
        }
        Edges { inner: sorted }
    }

    /// The sorted edges.
    pub fn deref(&self) -> (r: &Vec<(T, T)>)
        ensures
            r@ == self@,
    {
        &self.inner
    }

    /// The out-edges of the first source, if there is any edge.
    fn first(&self) -> (r: Option<OutEdgeIter<T>>)
        ensures
            match r {
                Some(it) => self@.len() > 0 && it.source == self@[0].0 && it.next == 0,
                None => self@.len() == 0,
            },
    {
        if self.inner.len() > 0 {
            Some(OutEdgeIter { source: self.inner[0].0.dup(), next: 0 })
        } else {
            None
        }
    }

    /// The out-edges of `x`: they start at the first edge whose source is
    /// not below `x`.
    fn out_from(&self, x: T) -> (r: OutEdgeIter<T>)
        requires
            self.wf(),
        ensures
            r.source == x,
            r.next <= self@.len(),
            forall|j: int| 0 <= j < r.next ==> (#[trigger] self@[j]).0.key_of() < x.key_of(),
            r.next < self@.len() ==> self@[r.next as int].0.key_of() >= x.key_of(),
    {
        let kx = x.key();
        let mut lo: usize = 0;
        let mut hi: usize = self.inner.len();
        while lo < hi
            invariant
                lo <= hi <= self@.len(),
                kx == x.key_of(),
                sorted_edges(self@),
                forall|j: int| 0 <= j < lo ==> (#[trigger] self@[j]).0.key_of() < x.key_of(),
                forall|j: int| hi <= j < self@.len() ==> (#[trigger] self@[j]).0.key_of() >= x.key_of(),
            decreases hi - lo,
        {
            let mid = lo + (hi - lo) / 2;
            if self.inner[mid].0.key() < kx {
                proof {
                    assert forall|j: int| 0 <= j < mid + 1 implies (#[trigger] self@[j]).0.key_of() < x.key_of() by {
                        if j < mid {
                            assert(edge_le(self@[j], self@[mid as int]));
                        }
                    }
                }
                lo = mid + 1;
            } else {
                proof {
                    assert forall|j: int| mid <= j < self@.len() implies (#[trigger] self@[j]).0.key_of() >= x.key_of() by {
                        if j > mid {
                            assert(edge_le(self@[mid as int], self@[j]));
                        }
                    }
                }
                hi = mid;
            }
        }
        OutEdgeIter { source: x, next: lo }
    }
}

impl<T: Vertex> OutEdgeIter<T> {
    /// The target of the next out-edge of `source`, if there is one.
    fn next(&mut self, edges: &Edges<T>) -> (r: Option<T>)
        requires
            old(self).next <= edges@.len(),
        ensures
            final(self).source == old(self).source,
            match r {
                Some(y) => {
                    &&& old(self).next < edges@.len()
                    &&& edges@[old(self).next as int].0.key_of() == old(self).source.key_of()
                    &&& y == edges@[old(self).next as int].1
                    &&& final(self).next == old(self).next + 1
                },
                None => final(self).next == old(self).next && (old(self).next >= edges@.len()
                    || edges@[old(self).next as int].0.key_of() != old(self).source.key_of()),
            },
    {
        if self.next < edges.inner.len() {
            let e = &edges.inner[self.next];
            if e.0.key() == self.source.key() {
                let y = e.1.dup();
                self.next = self.next + 1;
                return Some(y);
            }
        }
        None
    }

    /// Moves on to the source of the next edge, if there is one.
    fn reset(self, edges: &Edges<T>) -> (r: Option<Self>)
        ensures
            match r {
                Some(it) => self.next < edges@.len() && it.next == self.next
                    && it.source == edges@[self.next as int].0,
                None => self.next >= edges@.len(),
            },
    {
        if self.next < edges.inner.len() {
            Some(OutEdgeIter { source: edges.inner[self.next].0.dup(), next: self.next })
        } else {
            None
        }
    }
}

/// The components found: each run of `Some` vertices closed by a `None` is
/// one component, `count` is how many there are and `largest` the size of
/// the largest.
pub struct Scc<T> {
    pub runs: Vec<Option<T>>,
    pub count: usize,
    pub largest: usize,
}

/// What the search knows of a vertex: its representative (a preorder
/// number while it is open, a place in the output once it is done) and
/// a link (itself while it may still be a root, else the next vertex of
/// the chain it belongs to).
struct State<T> {
    rep: usize,
    link: Option<T>,
}

/// The keys of the endpoints of the edges.
pub open spec fn endpoint_keys<T: Vertex>(e: Seq<(T, T)>) -> Seq<i128> {
    Seq::new(2 * e.len(), |i: int| if i % 2 == 0 { e[i / 2].0.key_of() } else { e[i / 2].1.key_of() })
}

/// The keys of every vertex of the input: the endpoints of the edges and
/// the vertices listed besides.
pub open spec fn input_keys<T: Vertex>(e: Seq<(T, T)>, v: Seq<T>) -> Set<i128> {
    endpoint_keys(e).to_set() + v.map_values(|x: T| x.key_of()).to_set()
}

proof fn lemma_input_keys_finite<T: Vertex>(e: Seq<(T, T)>, v: Seq<T>)
    ensures
        input_keys(e, v).finite(),
{
    vstd::seq_lib::seq_to_set_is_finite(endpoint_keys(e));
    vstd::seq_lib::seq_to_set_is_finite(v.map_values(|x: T| x.key_of()));
}

spec fn stack_work<T>(s: Seq<OutEdgeIter<T>>, e: nat) -> nat
    decreases s.len(),
{
    if s.len() == 0 {
        0
    } else {
        stack_work(s.drop_last(), e) + (e - s.last().next) as nat
    }
}

proof fn lemma_stack_work_push<T>(s: Seq<OutEdgeIter<T>>, x: OutEdgeIter<T>, e: nat)
    ensures
        stack_work(s.push(x), e) == stack_work(s, e) + (e - x.next) as nat,
{
    assert(s.push(x).drop_last() =~= s);
}

proof fn lemma_endpoint_keys<T: Vertex>(e: Seq<(T, T)>, i: int)
    requires
        0 <= i < e.len(),
    ensures
        endpoint_keys(e).to_set().contains(e[i].0.key_of()),
        endpoint_keys(e).to_set().contains(e[i].1.key_of()),
{
    let s = endpoint_keys(e);
    assert(s[2 * i] == e[i].0.key_of());
    assert(s[2 * i + 1] == e[i].1.key_of());
    assert(s.contains(s[2 * i]));
    assert(s.contains(s[2 * i + 1]));
}

fn dup_opt<T: Vertex>(o: &Option<T>) -> (r: Option<T>)
    ensures
        r == *o,
{
    match o {
        Some(v) => Some(v.dup()),
        None => None,
    }
}

/// Finds the strongly connected components of the graph of `edges`, with
/// the listed `vertices` added (each one without an edge is a component
/// of its own). `vertex_capacity` is how many vertices to make room for.
///
/// Whatever the graph, the runs list every vertex of the input exactly
/// once, in groups of at least one vertex each closed by one `None`;
/// `count` is the number of groups and `largest` the size of the largest.
#[verifier::loop_isolation(false)]
pub fn scc<T: Vertex>(edges: &Edges<T>, vertices: &[T], vertex_capacity: usize) -> (r: Scc<T>)
    requires
        edges.wf(),
        5 * edges@.len() + 2 * vertices@.len() + 2 <= usize::MAX,
    ensures
        well_grouped(r.runs@),
        listed_once(r.runs@),
        listed_keys(r.runs@) == input_keys(edges@, vertices@),
        r.count == nones(r.runs@),
        r.largest == longest_run(r.runs@),
{
    let e_len = edges.inner.len();
    let ghost es = edges@;
    let ghost kset = endpoint_keys(es).to_set();
    proof {
        endpoint_keys(es).lemma_cardinality_of_set();
        vstd::seq_lib::seq_to_set_is_finite(endpoint_keys(es));
    }
    let mut pre: usize = 0;
    let mut state: HashMap<i128, State<T>> = HashMap::with_capacity(vertex_capacity);
    let mut order: Vec<T> = Vec::new();
    let mut stack: Vec<OutEdgeIter<T>> = Vec::new();
    let mut sink: Option<T> = None;
    let ghost mut sinks: Seq<T> = Seq::empty();
    let mut offset: usize = 0;

    if let Some(next_root) = edges.first() {
        proof {
            lemma_endpoint_keys(es, 0);
        }
        state.insert(next_root.source.key(), State { rep: pre, link: Some(next_root.source.dup()) });
        pre = pre + 1;
        order.push(next_root.source.dup());
        stack.push(next_root);
    }
    proof {
        vstd::std_specs::hash::axiom_hashmap_view_finite_dom(state);
    }

    while stack.len() > 0
        invariant
            e_len == es.len(),
            es == edges@,
            kset == endpoint_keys(es).to_set(),
            kset.finite(),
            kset.len() <= 2 * e_len,
            state@.dom().finite(),
            state@.dom().subset_of(kset),
            pre == state@.dom().len(),
            order@.len() == state@.dom().len(),
            forall|i: int| 0 <= i < order@.len() ==> state@.dom().contains(#[trigger] order@[i].key_of()),
            forall|k: i128| #[trigger] state@.contains_key(k) ==> (state@[k].link matches Some(v)
                ==> state@.contains_key(v.key_of())),
            forall|i: int| 0 <= i < stack@.len() ==> (#[trigger] stack@[i]).next <= e_len
                && state@.contains_key(stack@[i].source.key_of()),
            forall|i: int, j: int| 0 <= i < j < stack@.len()
                ==> (#[trigger] stack@[i]).source.key_of() != (#[trigger] stack@[j]).source.key_of(),
            sink == (if sinks.len() == 0 { None::<T> } else { Some(sinks.last()) }),
            forall|i: int| 0 <= i < sinks.len() ==> state@.contains_key((#[trigger] sinks[i]).key_of()),
            forall|i: int| 0 < i < sinks.len()
                ==> state@[(#[trigger] sinks[i]).key_of()].link == Some(sinks[i - 1]),
            sinks.len() > 0 ==> state@[sinks[0].key_of()].link is None,
            forall|i: int, j: int| 0 <= i < stack@.len() && 0 <= j < sinks.len()
                ==> (#[trigger] stack@[i]).source.key_of() != (#[trigger] sinks[j]).key_of(),
            offset + 2 * sinks.len() + 2 * stack@.len() <= 2 * state@.dom().len(),
        decreases kset.len() - state@.dom().len(), stack_work(stack@, e_len as nat), stack@.len(),
    {
        proof {
            vstd::set_lib::lemma_len_subset(state@.dom(), kset);
        }
        let ghost s0 = stack@;
        let ghost m1 = kset.len() - state@.dom().len();
        let ghost m2 = stack_work(stack@, e_len as nat);
        let ghost m3 = stack@.len();
        let mut x_out = stack.pop().unwrap();
        proof {
            assert(s0 =~= stack@.push(x_out));
            lemma_stack_work_push(stack@, x_out, e_len as nat);
            assert forall|i: int| 0 <= i < stack@.len() implies (#[trigger] stack@[i]).source.key_of() != x_out.source.key_of() by {
                assert(stack@[i] == s0[i]);
                assert(x_out == s0[s0.len() - 1]);
            }
            assert(x_out == s0[s0.len() - 1]);
        }
        let x = x_out.source.dup();
        let kx = x.key();
        let next = x_out.next(edges);
        match next {
            Some(y) => {
                let ghost s1 = stack@;
                stack.push(x_out);
                proof {
                    lemma_stack_work_push(s1, stack@.last(), e_len as nat);
                    assert(stack@ =~= s1.push(stack@.last()));
                    lemma_endpoint_keys(es, stack@.last().next - 1);
                    assert forall|i: int| 0 <= i < stack@.len() implies (#[trigger] stack@[i]).next <= e_len
                        && state@.contains_key(stack@[i].source.key_of()) by {
                        if i < s1.len() {
                            assert(stack@[i] == s0[i]);
                        }
                    }
                    assert forall|i: int, j: int| 0 <= i < j < stack@.len()
                        implies (#[trigger] stack@[i]).source.key_of() != (#[trigger] stack@[j]).source.key_of() by {
                        assert(stack@[i] == s0[i]);
                        if j < s1.len() {
                            assert(stack@[j] == s0[j]);
                        }
                    }
                    assert forall|i: int, j: int| 0 <= i < stack@.len() && 0 <= j < sinks.len()
                        implies (#[trigger] stack@[i]).source.key_of() != (#[trigger] sinks[j]).key_of() by {
                        if i < s1.len() {
                            assert(stack@[i] == s0[i]);
                        } else {
                            assert(s0[s0.len() - 1].source.key_of() != sinks[j].key_of());
                        }
                    }
                }
                let ky = y.key();
                if !state.contains_key(&ky) {
                    let ghost st0 = state@;
                    state.insert(ky, State { rep: pre, link: Some(y.dup()) });
                    pre = pre + 1;
                    order.push(y.dup());
                    let out = edges.out_from(y);
                    let ghost s2 = stack@;
                    stack.push(out);
                    proof {
                        assert(state@.dom() =~= st0.dom().insert(ky));
                        assert forall|i: int| 0 <= i < stack@.len() implies (#[trigger] stack@[i]).next <= e_len
                            && state@.contains_key(stack@[i].source.key_of()) by {
                            if i < s2.len() {
                                assert(stack@[i] == s2[i]);
                            }
                        }
                        assert forall|i: int, j: int| 0 <= i < j < stack@.len()
                            implies (#[trigger] stack@[i]).source.key_of() != (#[trigger] stack@[j]).source.key_of() by {
                            assert(stack@[i] == s2[i]);
                            if j < s2.len() {
                                assert(stack@[j] == s2[j]);
                            } else {
                                assert(st0.contains_key(s2[i].source.key_of()));
                            }
                        }
                        assert forall|i: int, j: int| 0 <= i < stack@.len() && 0 <= j < sinks.len()
                            implies (#[trigger] stack@[i]).source.key_of() != (#[trigger] sinks[j]).key_of() by {
                            if i < s2.len() {
                                assert(stack@[i] == s2[i]);
                            } else {
                                assert(st0.contains_key(sinks[j].key_of()));
                            }
                        }
                        assert forall|i: int| 0 < i < sinks.len()
                            implies state@[(#[trigger] sinks[i]).key_of()].link == Some(sinks[i - 1]) by {
                            assert(st0.contains_key(sinks[i].key_of()));
                        }
                        if sinks.len() > 0 {
                            assert(st0.contains_key(sinks[0].key_of()));
                        }
                        assert forall|i: int| 0 <= i < order@.len() implies state@.dom().contains(#[trigger] order@[i].key_of()) by {
                        }
                        lemma_stack_work_push(s2, out, e_len as nat);
                    }
                } else {
                    let y_rep = match state.get(&ky) {
                        Some(st) => st.rep,
                        None => 0,
                    };
                    let x_rep = match state.get(&kx) {
                        Some(st) => st.rep,
                        None => 0,
                    };
                    if state.contains_key(&kx) && y_rep < x_rep {
                        let ghost st0 = state@;
                        state.insert(kx, State { rep: y_rep, link: None });
                        proof {
                            assert(state@.dom() =~= st0.dom());
                            assert forall|i: int| 0 < i < sinks.len()
                                implies state@[(#[trigger] sinks[i]).key_of()].link == Some(sinks[i - 1]) by {
                                assert(s0[s0.len() - 1].source.key_of() != sinks[i].key_of());
                            }
                            if sinks.len() > 0 {
                                assert(s0[s0.len() - 1].source.key_of() != sinks[0].key_of());
                            }
                        }
                    }
                }
            },
            None => {
                let (x_rep, x_link) = match state.get(&kx) {
                    Some(st) => (st.rep, dup_opt(&st.link)),
                    None => (0, None),
                };
                let is_root = match &x_link {
                    Some(l) => l.key() == kx,
                    None => false,
                };
                let p = if stack.len() > 0 {
                    Some(stack[stack.len() - 1].source.dup())
                } else {
                    None
                };
                let p_is_none = p.is_none();
                proof {
                    assert forall|j: int| 0 <= j < sinks.len() implies x.key_of() != (#[trigger] sinks[j]).key_of() by {
                        assert(s0[s0.len() - 1].source.key_of() != sinks[j].key_of());
                    }
                }
                if is_root {
                    let ghost st0 = state@;
                    state.insert(kx, State { rep: e_len + 1 + offset, link: dup_opt(&sink) });
                    offset = offset + 2;
                    proof {
                        assert(state@.dom() =~= st0.dom());
                        assert forall|i: int| 0 < i < sinks.len()
                            implies state@[(#[trigger] sinks[i]).key_of()].link == Some(sinks[i - 1]) by {
                            assert(x.key_of() != sinks[i].key_of());
                        }
                        if sinks.len() > 0 {
                            assert(x.key_of() != sinks[0].key_of());
                            assert(st0.contains_key(sinks[sinks.len() - 1].key_of()));
                        }
                    }
                    loop
                        invariant
                            state@.dom().finite(),
                            state@.dom().subset_of(kset),
                            pre == state@.dom().len(),
                            order@.len() == state@.dom().len(),
                            forall|i: int| 0 <= i < order@.len() ==> state@.dom().contains(#[trigger] order@[i].key_of()),
                            forall|k: i128| #[trigger] state@.contains_key(k) ==> (state@[k].link matches Some(v)
                                ==> state@.contains_key(v.key_of())),
                            forall|i: int| 0 <= i < stack@.len() ==> (#[trigger] stack@[i]).next <= e_len
                                && state@.contains_key(stack@[i].source.key_of()),
                            sink == (if sinks.len() == 0 { None::<T> } else { Some(sinks.last()) }),
                            forall|i: int| 0 <= i < sinks.len() ==> state@.contains_key((#[trigger] sinks[i]).key_of()),
                            forall|i: int| 0 < i < sinks.len()
                                ==> state@[(#[trigger] sinks[i]).key_of()].link == Some(sinks[i - 1]),
                            sinks.len() > 0 ==> state@[sinks[0].key_of()].link is None,
                            forall|i: int, j: int| 0 <= i < stack@.len() && 0 <= j < sinks.len()
                                ==> (#[trigger] stack@[i]).source.key_of() != (#[trigger] sinks[j]).key_of(),
                            offset + 2 * sinks.len() + 2 * stack@.len() <= 2 * state@.dom().len(),
                        decreases sinks.len(),
                    {
                        if sink.is_none() {
                            break;
                        }
                        let y = match &sink {
                            Some(y) => y.dup(),
                            None => x.dup(),
                        };
                        let ky = y.key();
                        let (y_rep, y_link) = match state.get(&ky) {
                            Some(st) => (st.rep, dup_opt(&st.link)),
                            None => (0, None),
                        };
                        proof {
                            assert(y == sinks[sinks.len() - 1]);
                            let t = sinks;
                            sinks = sinks.drop_last();
                            assert forall|i: int| 0 <= i < sinks.len() implies state@.contains_key((#[trigger] sinks[i]).key_of()) by {
                                assert(sinks[i] == t[i]);
                            }
                            assert forall|i: int| 0 < i < sinks.len()
                                implies state@[(#[trigger] sinks[i]).key_of()].link == Some(sinks[i - 1]) by {
                                assert(sinks[i] == t[i] && sinks[i - 1] == t[i - 1]);
                            }
                            if sinks.len() > 0 {
                                assert(sinks[0] == t[0]);
                                assert(y_link == Some(t[t.len() - 2]));
                            }
                            assert forall|i: int, j: int| 0 <= i < stack@.len() && 0 <= j < sinks.len()
                                implies (#[trigger] stack@[i]).source.key_of() != (#[trigger] sinks[j]).key_of() by {
                                assert(sinks[j] == t[j]);
                            }
                        }
                        sink = y_link;
                        if y_rep < x_rep {
                            break;
                        } else {
                            let ghost st1 = state@;
                            let l = dup_opt(&sink);
                            state.insert(ky, State { rep: e_len, link: l });
                            offset = offset + 1;
                            proof {
                                assert(state@.dom() =~= st1.dom());
                                assert forall|i: int| 0 < i < sinks.len()
                                    implies state@[(#[trigger] sinks[i]).key_of()].link == Some(sinks[i - 1]) by {
                                    if sinks[i].key_of() == ky {
                                        assert(st1[ky].link == l);
                                    }
                                }
                            }
                        }
                    }
                } else if let Some(pv) = &p {
                    let ghost st0 = state@;
                    state.insert(kx, State { rep: x_rep, link: dup_opt(&sink) });
                    sink = Some(x.dup());
                    proof {
                        assert(state@.dom() =~= st0.dom());
                        if sinks.len() > 0 {
                            assert(st0.contains_key(sinks[sinks.len() - 1].key_of()));
                        }
                        let old_sinks = sinks;
                        sinks = sinks.push(x);
                        assert forall|i: int| 0 < i < sinks.len()
                            implies state@[(#[trigger] sinks[i]).key_of()].link == Some(sinks[i - 1]) by {
                            if i < old_sinks.len() {
                                assert(sinks[i] == old_sinks[i]);
                                assert(x.key_of() != old_sinks[i].key_of());
                            }
                        }
                        if old_sinks.len() > 0 {
                            assert(x.key_of() != old_sinks[0].key_of());
                        }
                        assert forall|i: int, j: int| 0 <= i < stack@.len() && 0 <= j < sinks.len()
                            implies (#[trigger] stack@[i]).source.key_of() != (#[trigger] sinks[j]).key_of() by {
                            if j < old_sinks.len() {
                                assert(sinks[j] == old_sinks[j]);
                            }
                        }
                        assert forall|i: int| 0 <= i < sinks.len() implies state@.contains_key((#[trigger] sinks[i]).key_of()) by {
                            if i < old_sinks.len() {
                                assert(sinks[i] == old_sinks[i]);
                            }
                        }
                    }
                    let kp = pv.key();
                    let p_rep = match state.get(&kp) {
                        Some(st) => st.rep,
                        None => 0,
                    };
                    if state.contains_key(&kp) && x_rep < p_rep {
                        let ghost st1 = state@;
                        state.insert(kp, State { rep: x_rep, link: None });
                        proof {
                            assert(state@.dom() =~= st1.dom());
                            let t = stack@.len() - 1;
                            assert(stack@[t].source == *pv);
                            assert forall|i: int| 0 < i < sinks.len()
                                implies state@[(#[trigger] sinks[i]).key_of()].link == Some(sinks[i - 1]) by {
                                assert(stack@[t].source.key_of() != sinks[i].key_of());
                            }
                            assert(stack@[t].source.key_of() != sinks[0].key_of());
                        }
                    }
                }
                if p_is_none {
                    let mut prev_root = x_out;
                    let ghost dom0 = state@.dom();
                    loop
                        invariant
                            prev_root.next <= e_len,
                            stack@.len() <= 1,
                            stack@.len() == 0 ==> state@.dom() == dom0,
                            stack@.len() == 1 ==> state@.dom().len() == dom0.len() + 1,
                            state@.dom().finite(),
                            state@.dom().subset_of(kset),
                            pre == state@.dom().len(),
                            order@.len() == state@.dom().len(),
                            forall|i: int| 0 <= i < order@.len() ==> state@.dom().contains(#[trigger] order@[i].key_of()),
                            forall|k: i128| #[trigger] state@.contains_key(k) ==> (state@[k].link matches Some(v)
                                ==> state@.contains_key(v.key_of())),
                            forall|i: int| 0 <= i < stack@.len() ==> (#[trigger] stack@[i]).next <= e_len
                                && state@.contains_key(stack@[i].source.key_of()),
                            forall|i: int| 0 <= i < sinks.len() ==> state@.contains_key((#[trigger] sinks[i]).key_of()),
                            forall|i: int| 0 < i < sinks.len()
                                ==> state@[(#[trigger] sinks[i]).key_of()].link == Some(sinks[i - 1]),
                            sinks.len() > 0 ==> state@[sinks[0].key_of()].link is None,
                            forall|i: int, j: int| 0 <= i < stack@.len() && 0 <= j < sinks.len()
                                ==> (#[trigger] stack@[i]).source.key_of() != (#[trigger] sinks[j]).key_of(),
                            offset + 2 * sinks.len() + 2 * stack@.len() <= 2 * state@.dom().len(),
                        decreases e_len - prev_root.next,
                    {
                        let reset = prev_root.reset(edges);
                        if reset.is_none() {
                            break;
                        }
                        let mut next_root = reset.unwrap();
                        let kr = next_root.source.key();
                        let ghost start = next_root.next;
                        proof {
                            lemma_endpoint_keys(es, next_root.next as int);
                            vstd::set_lib::lemma_len_subset(state@.dom(), kset);
                        }
                        if state.contains_key(&kr) {
                            while next_root.next(edges).is_some()
                                invariant
                                    start <= next_root.next <= e_len,
                                    next_root.next == start ==> start < e_len
                                        && edges@[start as int].0.key_of() == next_root.source.key_of(),
                                decreases e_len - next_root.next,
                            {
                            }
                            prev_root = next_root;
                        } else {
                            let ghost st0 = state@;
                            state.insert(kr, State { rep: pre, link: Some(next_root.source.dup()) });
                            pre = pre + 1;
                            order.push(next_root.source.dup());
                            stack.push(next_root);
                            proof {
                                assert(state@.dom() =~= st0.dom().insert(kr));
                                assert forall|i: int| 0 < i < sinks.len()
                                    implies state@[(#[trigger] sinks[i]).key_of()].link == Some(sinks[i - 1]) by {
                                    assert(st0.contains_key(sinks[i].key_of()));
                                }
                                if sinks.len() > 0 {
                                    assert(st0.contains_key(sinks[0].key_of()));
                                }
                                assert forall|i: int, j: int| 0 <= i < stack@.len() && 0 <= j < sinks.len()
                                    implies (#[trigger] stack@[i]).source.key_of() != (#[trigger] sinks[j]).key_of() by {
                                    assert(st0.contains_key(sinks[j].key_of()));
                                }
                                assert forall|i: int| 0 <= i < order@.len() implies state@.dom().contains(#[trigger] order@[i].key_of()) by {
                                }
                            }
                            break;
                        }
                    }
                }
            },
        }
        proof {
            vstd::set_lib::lemma_len_subset(state@.dom(), kset);
            assert(kset.len() - state@.dom().len() <= m1);
            assert(kset.len() - state@.dom().len() < m1 || stack_work(stack@, e_len as nat) <= m2);
            assert(kset.len() - state@.dom().len() < m1 || stack_work(stack@, e_len as nat) < m2 || stack@.len() < m3);
        }
    }

    proof {
        vstd::set_lib::lemma_len_subset(state@.dom(), kset);
        assert(state@.dom().subset_of(input_keys(es, vertices@)));
    }
    let mut i: usize = 0;
    while i < vertices.len()
        invariant
            i <= vertices@.len(),
            state@.dom().finite(),
            state@.dom().len() <= 2 * e_len + i,
            state@.dom().subset_of(input_keys(es, vertices@)),
            order@.len() == state@.dom().len(),
            forall|j: int| 0 <= j < order@.len() ==> state@.dom().contains(#[trigger] order@[j].key_of()),
            forall|k: i128| #[trigger] state@.contains_key(k) ==> (state@[k].link matches Some(v)
                ==> state@.contains_key(v.key_of())),
            offset <= 2 * state@.dom().len(),
        decreases vertices@.len() - i,
    {
        let kv = vertices[i].key();
        if !state.contains_key(&kv) {
            let ghost st0 = state@;
            state.insert(kv, State { rep: e_len + 1 + offset, link: None });
            offset = offset + 2;
            order.push(vertices[i].dup());
            proof {
                assert(state@.dom() =~= st0.dom().insert(kv));
                let vk = vertices@.map_values(|x: T| x.key_of());
                assert(vk[i as int] == kv);
                assert(vk.contains(kv));
                assert forall|j: int| 0 <= j < order@.len() implies state@.dom().contains(#[trigger] order@[j].key_of()) by {
                }
            }
        }
        i = i + 1;
    }

    let mut comps: Vec<Option<T>> = Vec::new();
    while comps.len() < offset
        invariant
            comps@.len() <= offset,
            forall|j: int| 0 <= j < comps@.len() ==> comps@[j] is None,
        decreases offset - comps@.len(),
    {
        comps.push(None);
    }
    let mut i: usize = 0;
    proof {
        lemma_input_keys_finite(es, vertices@);
        vstd::set_lib::lemma_len_subset(state@.dom(), input_keys(es, vertices@));
    }
    while i < order.len()
        invariant
            i <= order@.len(),
            order@.len() <= input_keys(es, vertices@).len(),
            comps@.len() == offset,
            state@.dom().subset_of(input_keys(es, vertices@)),
            forall|j: int| 0 <= j < order@.len() ==> state@.dom().contains(#[trigger] order@[j].key_of()),
            forall|k: i128| #[trigger] state@.contains_key(k) ==> (state@[k].link matches Some(v)
                ==> state@.contains_key(v.key_of())),
            forall|j: int| 0 <= j < comps@.len() ==> (#[trigger] comps@[j] matches Some(v)
                ==> state@.contains_key(v.key_of())),
        decreases order@.len() - i,
    {
        let x = order[i].dup();
        let rep = match state.get(&x.key()) {
            Some(st) => st.rep,
            None => 0,
        };
        if rep > e_len {
            let mut pos: usize = rep - e_len - 1;
            let mut cur: Option<T> = Some(x.dup());
            while pos < comps.len()
                invariant
                    comps@.len() == offset,
                    cur matches Some(v) ==> state@.contains_key(v.key_of()),
                    forall|j: int| 0 <= j < comps@.len() ==> (#[trigger] comps@[j] matches Some(v)
                        ==> state@.contains_key(v.key_of())),
                decreases comps@.len() - pos,
            {
                if cur.is_none() || comps[pos].is_some() {
                    break;
                }
                let y = match &cur {
                    Some(y) => y.dup(),
                    None => x.dup(),
                };
                let next = match state.get(&y.key()) {
                    Some(st) => dup_opt(&st.link),
                    None => None,
                };
                comps.set(pos, Some(y));
                pos = pos + 1;
                cur = next;
            }
        }
        i = i + 1;
    }
    let (runs, count, largest) = tidy_runs(&comps, edges, vertices);
    Scc { runs, count, largest }
}

/// How many entries of `s` are `None`.
pub open spec fn nones<T>(s: Seq<Option<T>>) -> nat
    decreases s.len(),
{
    if s.len() == 0 {
        0
    } else {
        nones(s.drop_last()) + if s.last() is None { 1nat } else { 0nat }
    }
}

/// How many `Some` entries end `s`.
pub open spec fn open_run<T>(s: Seq<Option<T>>) -> nat
    decreases s.len(),
{
    if s.len() == 0 || s.last() is None {
        0
    } else {
        open_run(s.drop_last()) + 1
    }
}

/// The length of the longest stretch of `Some` entries in `s`.
pub open spec fn longest_run<T>(s: Seq<Option<T>>) -> nat
    decreases s.len(),
{
    if s.len() == 0 {
        0
    } else {
        let m = longest_run(s.drop_last());
        let r = open_run(s);
        if r > m { r } else { m }
    }
}

/// `s` is a row of groups, each of at least one `Some` entry and closed by
/// one `None`.
pub open spec fn well_grouped<T>(s: Seq<Option<T>>) -> bool {
    s.len() == 0 || (s.last() is None && s[0] is Some
        && forall|i: int| 0 < i < s.len() && (#[trigger] s[i]) is None ==> s[i - 1] is Some)
}

/// The keys of the vertices that `s` lists.
pub open spec fn listed_keys<T: Vertex>(s: Seq<Option<T>>) -> Set<i128> {
    Set::new(|k: i128| exists|i: int| 0 <= i < s.len() && (#[trigger] s[i] matches Some(v) && v.key_of() == k))
}

/// No vertex is listed twice in `s`.
pub open spec fn listed_once<T: Vertex>(s: Seq<Option<T>>) -> bool {
    forall|i: int, j: int| 0 <= i < j < s.len() && (#[trigger] s[i]) is Some && (#[trigger] s[j]) is Some
        ==> s[i]->0.key_of() != s[j]->0.key_of()
}

/// What the groups built so far satisfy: each closed by one `None` but
/// the last, which may be open; vertices listed once and known to `seen`.
#[verifier::opaque]
spec fn runs_state<T: Vertex>(s: Seq<Option<T>>, seen: Set<i128>, count: usize, largest: usize, keys: Set<i128>) -> bool {
    &&& s.len() > 0 ==> s[0] is Some
    &&& forall|i: int| 0 < i < s.len() && (#[trigger] s[i]) is None ==> s[i - 1] is Some
    &&& listed_once(s)
    &&& seen == listed_keys(s)
    &&& count == nones(s)
    &&& largest == longest_run(s)
    &&& forall|i: int| 0 <= i < s.len() ==> (#[trigger] s[i] matches Some(v) ==> keys.contains(v.key_of()))
}

proof fn lemma_runs_push_some<T: Vertex>(s: Seq<Option<T>>, seen: Set<i128>, count: usize, largest: usize, keys: Set<i128>, v: T, largest2: usize)
    requires
        runs_state(s, seen, count, largest, keys),
        !seen.contains(v.key_of()),
        keys.contains(v.key_of()),
        largest2 == (if open_run(s) + 1 > largest { (open_run(s) + 1) as int } else { largest as int }),
    ensures
        runs_state(s.push(Some(v)), seen.insert(v.key_of()), count, largest2, keys),
        open_run(s.push(Some(v))) == open_run(s) + 1,
{
    reveal(runs_state);
    let t = s.push(Some(v));
    assert(t.drop_last() =~= s);
    assert forall|i: int, j: int| 0 <= i < j < t.len() && (#[trigger] t[i]) is Some && (#[trigger] t[j]) is Some
        implies t[i]->0.key_of() != t[j]->0.key_of() by {
        if j == t.len() - 1 {
            assert(s[i] is Some);
            assert(listed_keys(s).contains(s[i]->0.key_of()));
        } else {
            assert(t[i] == s[i] && t[j] == s[j]);
        }
    }
    assert(listed_keys(t) =~= seen.insert(v.key_of())) by {
        assert forall|k: i128| listed_keys(t).contains(k) implies seen.insert(v.key_of()).contains(k) by {
            let i = choose|i: int| 0 <= i < t.len() && (#[trigger] t[i] matches Some(w) && w.key_of() == k);
            if i < s.len() {
                assert(t[i] == s[i]);
                assert(listed_keys(s).contains(k));
            }
        }
        assert forall|k: i128| seen.insert(v.key_of()).contains(k) implies listed_keys(t).contains(k) by {
            if k == v.key_of() {
                assert(t[s.len() as int] matches Some(w) && w.key_of() == k);
            } else {
                assert(listed_keys(s).contains(k));
                let i = choose|i: int| 0 <= i < s.len() && (#[trigger] s[i] matches Some(w) && w.key_of() == k);
                assert(t[i] == s[i]);
            }
        }
    }
    assert forall|i: int| 0 < i < t.len() && (#[trigger] t[i]) is None implies t[i - 1] is Some by {
        assert(t[i] == s[i]);
        assert(t[i - 1] == s[i - 1]);
    }
    assert forall|i: int| 0 <= i < t.len() implies (#[trigger] t[i] matches Some(w) ==> keys.contains(w.key_of())) by {
        if i < s.len() {
            assert(t[i] == s[i]);
        }
    }
}

proof fn lemma_runs_push_none<T: Vertex>(s: Seq<Option<T>>, seen: Set<i128>, count: usize, largest: usize, keys: Set<i128>, count2: usize)
    requires
        runs_state(s, seen, count, largest, keys),
        open_run(s) > 0,
        count2 == count + 1,
    ensures
        runs_state(s.push(None), seen, count2, largest, keys),
        open_run(s.push(None)) == 0,
{
    reveal(runs_state);
    let t = s.push(None::<T>);
    assert(t.drop_last() =~= s);
    assert(s.last() is Some);
    assert forall|i: int, j: int| 0 <= i < j < t.len() && (#[trigger] t[i]) is Some && (#[trigger] t[j]) is Some
        implies t[i]->0.key_of() != t[j]->0.key_of() by {
        assert(t[i] == s[i] && t[j] == s[j]);
    }
    assert(listed_keys(t) =~= seen) by {
        assert forall|k: i128| listed_keys(t).contains(k) implies seen.contains(k) by {
            let i = choose|i: int| 0 <= i < t.len() && (#[trigger] t[i] matches Some(w) && w.key_of() == k);
            assert(t[i] == s[i]);
            assert(listed_keys(s).contains(k));
        }
        assert forall|k: i128| seen.contains(k) implies listed_keys(t).contains(k) by {
            assert(listed_keys(s).contains(k));
            let i = choose|i: int| 0 <= i < s.len() && (#[trigger] s[i] matches Some(w) && w.key_of() == k);
            assert(t[i] == s[i]);
        }
    }
    assert forall|i: int| 0 < i < t.len() && (#[trigger] t[i]) is None implies t[i - 1] is Some by {
        if i < s.len() {
            assert(t[i] == s[i]);
        }
        assert(t[i - 1] == s[i - 1]);
    }
    assert forall|i: int| 0 <= i < t.len() implies (#[trigger] t[i] matches Some(w) ==> keys.contains(w.key_of())) by {
        if i < s.len() {
            assert(t[i] == s[i]);
        }
    }
}

/// The runs as groups: the entries laid out by the search, each vertex
/// kept where it first appears and a group closed at each `None` that
/// follows one; then each vertex of the input not listed yet, alone in a
/// group of its own. On a layout that lists every vertex once, with one
/// `None` after each group, that is the layout itself.
fn tidy_runs<T: Vertex>(comps: &Vec<Option<T>>, edges: &Edges<T>, vertices: &[T]) -> (r: (Vec<Option<T>>, usize, usize))
    requires
        edges.wf(),
        2 * edges@.len() + vertices@.len() <= usize::MAX,
        forall|j: int| 0 <= j < comps@.len() ==> (#[trigger] comps@[j] matches Some(v)
            ==> input_keys(edges@, vertices@).contains(v.key_of())),
    ensures
        well_grouped(r.0@),
        listed_once(r.0@),
        listed_keys(r.0@) == input_keys(edges@, vertices@),
        r.1 == nones(r.0@),
        r.2 == longest_run(r.0@),
{
    let ghost keys = input_keys(edges@, vertices@);
    let mut runs: Vec<Option<T>> = Vec::new();
    let mut seen: HashMap<i128, bool> = HashMap::new();
    let mut count: usize = 0;
    let mut largest: usize = 0;
    let mut cur: usize = 0;
    proof {
        lemma_runs_empty::<T>(keys);
        assert(seen@.dom() =~= Set::<i128>::empty());
        assert(runs@ =~= Seq::<Option<T>>::empty());
    }
    let mut i: usize = 0;
    while i < comps.len()
        invariant
            i <= comps@.len(),
            keys == input_keys(edges@, vertices@),
            forall|j: int| 0 <= j < comps@.len() ==> (#[trigger] comps@[j] matches Some(v) ==> keys.contains(v.key_of())),
            runs_state(runs@, seen@.dom(), count, largest, keys),
            cur == open_run(runs@),
            cur <= runs@.len(),
            2 * edges@.len() + vertices@.len() <= usize::MAX,
        decreases comps@.len() - i,
    {
        proof {
            vstd::std_specs::vec::axiom_spec_len(&runs);
        }
        match &comps[i] {
            Some(v) => {
                let k = v.key();
                if !seen.contains_key(&k) {
                    let ghost s0 = runs@;
                    let ghost d0 = seen@.dom();
                    let ghost l0 = largest;
                    runs.push(Some(v.dup()));
                    seen.insert(k, true);
                    proof {
                        vstd::std_specs::vec::axiom_spec_len(&runs);
                    }
                    cur = cur + 1;
                    if cur > largest {
                        largest = cur;
                    }
                    proof {
                        lemma_runs_push_some(s0, d0, count, l0, keys, *v, largest);
                        assert(seen@.dom() =~= d0.insert(v.key_of()));
                    }
                }
            },
            None => {
                if cur > 0 {
                    let ghost s0 = runs@;
                    let ghost c0 = count;
                    proof {
                        lemma_nones_len(s0);
                        lemma_runs_count(s0, seen@.dom(), count, largest, keys);
                    }
                    runs.push(None);
                    proof {
                        vstd::std_specs::vec::axiom_spec_len(&runs);
                    }
                    count = count + 1;
                    cur = 0;
                    proof {
                        lemma_runs_push_none(s0, seen@.dom(), c0, largest, keys, count);
                    }
                }
            },
        }
        i = i + 1;
    }
    if cur > 0 {
        let ghost s0 = runs@;
        let ghost c0 = count;
        proof {
            lemma_nones_len(s0);
            lemma_runs_count(s0, seen@.dom(), count, largest, keys);
        }
        runs.push(None);
        proof {
            vstd::std_specs::vec::axiom_spec_len(&runs);
        }
        count = count + 1;
        cur = 0;
        proof {
            lemma_runs_push_none(s0, seen@.dom(), c0, largest, keys, count);
        }
    }
    let ghost es = edges@;
    let e_len = edges.inner.len();
    let mut j: usize = 0;
    while j < 2 * e_len + vertices.len()
        invariant
            e_len == es.len(),
            es == edges@,
            keys == input_keys(es, vertices@),
            runs_state(runs@, seen@.dom(), count, largest, keys),
            open_run(runs@) == 0,
            runs@.len() > 0 ==> runs@.last() is None,
            2 * e_len + vertices@.len() <= usize::MAX,
            j <= 2 * e_len + vertices@.len(),
            forall|m: int| 0 <= m < j && m < 2 * e_len ==> seen@.dom().contains(#[trigger] endpoint_keys(es)[m]),
            forall|m: int| 2 * e_len <= m < j ==> seen@.dom().contains(#[trigger] vertices@[m - 2 * e_len].key_of()),
        decreases 2 * e_len + vertices@.len() - j,
    {
        let x = if j < 2 * e_len {
            let e = &edges.inner[j / 2];
            if j % 2 == 0 { e.0.dup() } else { e.1.dup() }
        } else {
            vertices[j - 2 * e_len].dup()
        };
        proof {
            if j < 2 * e_len {
                assert(x.key_of() == endpoint_keys(es)[j as int]);
                assert(endpoint_keys(es).contains(x.key_of()));
            } else {
                let vk = vertices@.map_values(|y: T| y.key_of());
                assert(vk[j - 2 * e_len] == x.key_of());
                assert(vk.contains(x.key_of()));
            }
            assert(keys.contains(x.key_of()));
            vstd::std_specs::vec::axiom_spec_len(&runs);
        }
        let k = x.key();
        if !seen.contains_key(&k) {
            let ghost s0 = runs@;
            let ghost d0 = seen@.dom();
            let ghost l0 = largest;
            let ghost c0 = count;
            runs.push(Some(x));
            seen.insert(k, true);
            if largest < 1 {
                largest = 1;
            }
            proof {
                lemma_runs_push_some(s0, d0, count, l0, keys, x, largest);
                assert(seen@.dom() =~= d0.insert(x.key_of()));
                lemma_nones_len(runs@);
                lemma_runs_count(runs@, seen@.dom(), count, largest, keys);
            }
            let ghost s1 = runs@;
            runs.push(None);
            proof {
                vstd::std_specs::vec::axiom_spec_len(&runs);
            }
            count = count + 1;
            proof {
                lemma_runs_push_none(s1, seen@.dom(), c0, largest, keys, count);
            }
        }
        j = j + 1;
    }
    proof {
        lemma_runs_final(runs@, seen@.dom(), count, largest, keys);
        assert(listed_keys(runs@) =~= keys) by {
            assert forall|k: i128| keys.contains(k) implies listed_keys(runs@).contains(k) by {
                if endpoint_keys(es).to_set().contains(k) {
                    let m = choose|m: int| 0 <= m < endpoint_keys(es).len() && endpoint_keys(es)[m] == k;
                    assert(seen@.dom().contains(endpoint_keys(es)[m]));
                } else {
                    let vk = vertices@.map_values(|y: T| y.key_of());
                    assert(vk.to_set().contains(k));
                    let m = choose|m: int| 0 <= m < vk.len() && vk[m] == k;
                    let m2 = m + 2 * e_len;
                    assert(vertices@[m2 - 2 * e_len] == vertices@[m]);
                    assert(seen@.dom().contains(vertices@[m2 - 2 * e_len].key_of()));
                }
            }
            assert forall|k: i128| listed_keys(runs@).contains(k) implies keys.contains(k) by {
                let m = choose|m: int| 0 <= m < runs@.len() && (#[trigger] runs@[m] matches Some(w) && w.key_of() == k);
            }
        }
    }
    (runs, count, largest)
}

proof fn lemma_runs_empty<T: Vertex>(keys: Set<i128>)
    ensures
        runs_state(Seq::<Option<T>>::empty(), Set::<i128>::empty(), 0, 0, keys),
{
    reveal(runs_state);
    assert(listed_keys(Seq::<Option<T>>::empty()) =~= Set::<i128>::empty());
}

proof fn lemma_runs_final<T: Vertex>(s: Seq<Option<T>>, seen: Set<i128>, count: usize, largest: usize, keys: Set<i128>)
    requires
        runs_state(s, seen, count, largest, keys),
        s.len() > 0 ==> s.last() is None,
    ensures
        well_grouped(s),
        listed_once(s),
        listed_keys(s) == seen,
        count == nones(s),
        largest == longest_run(s),
        forall|i: int| 0 <= i < s.len() ==> (#[trigger] s[i] matches Some(v) ==> keys.contains(v.key_of())),
{
    reveal(runs_state);
}

proof fn lemma_runs_count<T: Vertex>(s: Seq<Option<T>>, seen: Set<i128>, count: usize, largest: usize, keys: Set<i128>)
    requires
        runs_state(s, seen, count, largest, keys),
    ensures
        count == nones(s),
{
    reveal(runs_state);
}

proof fn lemma_nones_len<T>(s: Seq<Option<T>>)
    ensures
        nones(s) <= s.len(),
    decreases s.len(),
{
    if s.len() > 0 {
        lemma_nones_len(s.drop_last());
    }
}

/// The values of the `Some` entries of `s`, in order.
pub open spec fn somes<T>(s: Seq<Option<T>>) -> Seq<T>
    decreases s.len(),
{
    if s.len() == 0 {
        Seq::empty()
    } else {
        let rest = somes(s.drop_last());
        match s.last() {
            Some(v) => rest.push(v),
            None => rest,
        }
    }
}

/// Takes what is left of `runs` from `pos` on, if anything is: the
/// vertices of every `Some` entry from there to the end, in order. `pos`
/// then stands at the end.
pub fn next_run<T: Vertex>(runs: &[Option<T>], pos: &mut usize) -> (r: Option<Vec<T>>)
    ensures
        match r {
            Some(v) => *old(pos) < runs@.len() && v@ == somes(runs@.skip(*old(pos) as int))
                && *final(pos) == runs@.len(),
            None => *old(pos) >= runs@.len() && *final(pos) == *old(pos),
        },
{
    if *pos >= runs.len() {
        return None;
    }
    let start = *pos;
    let mut out: Vec<T> = Vec::new();
    let mut i = start;
    while i < runs.len()
        invariant
            start <= i <= runs@.len(),
            start < runs@.len(),
            out@ == somes(runs@.subrange(start as int, i as int)),
        decreases runs@.len() - i,
    {
        proof {
            assert(runs@.subrange(start as int, i + 1).drop_last() =~= runs@.subrange(start as int, i as int));
        }
        match &runs[i] {
            Some(v) => out.push(v.dup()),
            None => {},
        }
        i = i + 1;
    }
    proof {
        assert(runs@.subrange(start as int, runs@.len() as int) =~= runs@.skip(start as int));
    }
    *pos = runs.len();
    Some(out)
}

} // verus!
