//! Ancestry in a rooted tree given by parent links, and what the interval
//! walk of `graph::Tree` tells of it: one node's interval holds another's
//! exactly when the first is an ancestor of the second.

use vstd::prelude::*;
use crate::graph::{edges_in_range, lemma_walk_children_nodes, lemma_walk_nodes, lemma_distinct_nodes, lemma_predecessors_contains, lemma_sources_contains, parent_lists, predecessors,
    row_sources, sources, walk, walk_children, interval_state, NodeOrder, NodeVisit, Tree};

verus! {

/// The node reached from `v` by following `k` parent links, if any.
pub open spec fn up(parents: Seq<Option<usize>>, v: usize, k: nat) -> Option<usize>
    decreases k,
{
    if k == 0 {
        Some(v)
    } else if (v as int) < parents.len() {
        match parents[v as int] {
            Some(p) => up(parents, p, (k - 1) as nat),
            None => None,
        }
    } else {
        None
    }
}

/// `a` is `b` or an ancestor of `b`.
pub open spec fn is_above(parents: Seq<Option<usize>>, a: usize, b: usize) -> bool {
    exists|k: nat| #[trigger] up(parents, b, k) == Some(a)
}

/// The parent links form a tree with root `root`: every parent is a node,
/// the root has no parent, and every node reaches it in fewer steps than
/// there are nodes.
pub open spec fn rooted(parents: Seq<Option<usize>>, root: usize) -> bool {
    &&& (root as int) < parents.len()
    &&& parents[root as int] is None
    &&& forall|v: int| 0 <= v < parents.len() ==> (#[trigger] parents[v] matches Some(p) ==> (p as int) < parents.len())
    &&& forall|v: usize| (v as int) < parents.len() ==> #[trigger] reaches(parents, v, root)
}

/// `v` reaches `r` in fewer steps than there are nodes.
pub open spec fn reaches(parents: Seq<Option<usize>>, v: usize, r: usize) -> bool {
    exists|k: nat| k < parents.len() && #[trigger] up(parents, v, k) == Some(r)
}

proof fn lemma_up_add(parents: Seq<Option<usize>>, v: usize, a: nat, b: nat)
    ensures
        up(parents, v, a + b) == match up(parents, v, a) {
            Some(w) => up(parents, w, b),
            None => None,
        },
    decreases a,
{
    if a > 0 && (v as int) < parents.len() {
        if let Some(p) = parents[v as int] {
            lemma_up_add(parents, p, (a - 1) as nat, b);
            assert((a + b - 1) as nat == (a - 1) as nat + b);
        }
    }
}

/// From a node with no parent, no step leads anywhere.
proof fn lemma_up_from_top(parents: Seq<Option<usize>>, r: usize, m: nat)
    requires
        (r as int) < parents.len(),
        parents[r as int] is None,
        m > 0,
    ensures
        up(parents, r, m) is None,
{
}

/// In a rooted tree, no node is its own proper ancestor.
proof fn lemma_no_cycle(parents: Seq<Option<usize>>, root: usize, w: usize, m: nat)
    requires
        rooted(parents, root),
        (w as int) < parents.len(),
        up(parents, w, m) == Some(w),
    ensures
        m == 0,
{
    assert(reaches(parents, w, root));
    let d = choose|k: nat| k < parents.len() && #[trigger] up(parents, w, k) == Some(root);
    lemma_up_add(parents, w, d, m);
    lemma_up_add(parents, w, m, d);
    assert(d + m == m + d);
    if m > 0 {
        lemma_up_from_top(parents, root, m);
    }
}

/// Ancestry is transitive.
pub(crate) proof fn lemma_above_trans(parents: Seq<Option<usize>>, a: usize, b: usize, c: usize)
    requires
        is_above(parents, a, b),
        is_above(parents, b, c),
    ensures
        is_above(parents, a, c),
{
    let i = choose|k: nat| #[trigger] up(parents, b, k) == Some(a);
    let j = choose|k: nat| #[trigger] up(parents, c, k) == Some(b);
    lemma_up_add(parents, c, j, i);
}

/// Ancestry is antisymmetric in a rooted tree.
proof fn lemma_above_antisym(parents: Seq<Option<usize>>, root: usize, a: usize, b: usize)
    requires
        rooted(parents, root),
        (a as int) < parents.len(),
        is_above(parents, a, b),
        is_above(parents, b, a),
    ensures
        a == b,
{
    let i = choose|k: nat| #[trigger] up(parents, b, k) == Some(a);
    let j = choose|k: nat| #[trigger] up(parents, a, k) == Some(b);
    lemma_up_add(parents, a, j, i);
    lemma_no_cycle(parents, root, a, j + i);
    assert(j == 0);
}

/// A child is below its parent, and so is all that is below the child.
proof fn lemma_child_below(parents: Seq<Option<usize>>, u: usize, c: usize, x: usize)
    requires
        (c as int) < parents.len(),
        parents[c as int] == Some(u),
        is_above(parents, c, x),
    ensures
        is_above(parents, u, c),
        is_above(parents, u, x),
{
    reveal_with_fuel(up, 2);
    assert(up(parents, c, 0) == Some(c));
    assert(up(parents, c, 1) == Some(u));
    lemma_above_trans(parents, u, c, x);
}

/// Whatever lies strictly below `u` lies below one of its children.
proof fn lemma_below_some_child(parents: Seq<Option<usize>>, u: usize, x: usize) -> (c: usize)
    requires
        is_above(parents, u, x),
        x != u,
    ensures
        (c as int) < parents.len(),
        parents[c as int] == Some(u),
        is_above(parents, c, x),
{
    let k = choose|k: nat| #[trigger] up(parents, x, k) == Some(u);
    assert(k > 0);
    lemma_up_add(parents, x, (k - 1) as nat, 1);
    assert((k - 1) as nat + 1 == k);
    let c = up(parents, x, (k - 1) as nat)->0;
    assert(up(parents, c, 1) == Some(u));
    reveal_with_fuel(up, 2);
    c
}

/// Two children of one node share nothing below them.
proof fn lemma_children_apart(parents: Seq<Option<usize>>, root: usize, u: usize, c1: usize, c2: usize, x: usize)
    requires
        rooted(parents, root),
        (c1 as int) < parents.len(),
        (c2 as int) < parents.len(),
        parents[c1 as int] == Some(u),
        parents[c2 as int] == Some(u),
        is_above(parents, c1, x),
        is_above(parents, c2, x),
    ensures
        c1 == c2,
{
    let i = choose|k: nat| #[trigger] up(parents, x, k) == Some(c1);
    let j = choose|k: nat| #[trigger] up(parents, x, k) == Some(c2);
    if i < j {
        lemma_up_add(parents, x, i, (j - i) as nat);
        assert(i + (j - i) as nat == j);
        lemma_c_above_c(parents, root, u, c1, c2, (j - i) as nat);
    } else if j < i {
        lemma_up_add(parents, x, j, (i - j) as nat);
        assert(j + (i - j) as nat == i);
        lemma_c_above_c(parents, root, u, c2, c1, (i - j) as nat);
    }
}

proof fn lemma_c_above_c(parents: Seq<Option<usize>>, root: usize, u: usize, c1: usize, c2: usize, m: nat)
    requires
        rooted(parents, root),
        (c1 as int) < parents.len(),
        (c2 as int) < parents.len(),
        parents[c1 as int] == Some(u),
        parents[c2 as int] == Some(u),
        up(parents, c1, m) == Some(c2),
    ensures
        m == 0,
{
    if m == 0 {
        return;
    }
    reveal_with_fuel(up, 2);
    lemma_up_add(parents, c1, 1, (m - 1) as nat);
    assert(1 + (m - 1) as nat == m);
    assert(up(parents, c1, 1) == Some(u));
    assert(up(parents, u, (m - 1) as nat) == Some(c2));
    lemma_up_add(parents, u, (m - 1) as nat, 1);
    assert(up(parents, c2, 1) == Some(u));
    assert((m - 1) as nat + 1 == m);
    assert(parents[c1 as int] matches Some(p) ==> (p as int) < parents.len());
    lemma_no_cycle(parents, root, u, m);
}

/// How many parent links lead from `v` to the root.
pub open spec fn depth(parents: Seq<Option<usize>>, root: usize, v: usize) -> nat {
    choose|k: nat| k < parents.len() && #[trigger] up(parents, v, k) == Some(root)
}

/// The root is reached in one number of steps only: the depth.
proof fn lemma_depth(parents: Seq<Option<usize>>, root: usize, v: usize, k: nat)
    requires
        rooted(parents, root),
        (v as int) < parents.len(),
        up(parents, v, k) == Some(root),
    ensures
        depth(parents, root, v) == k,
        k < parents.len(),
{
    assert(reaches(parents, v, root));
    let d = depth(parents, root, v);
    if d < k {
        lemma_up_add(parents, v, d, (k - d) as nat);
        assert(d + (k - d) as nat == k);
        lemma_up_from_top(parents, root, (k - d) as nat);
    } else if k < d {
        lemma_up_add(parents, v, k, (d - k) as nat);
        assert(k + (d - k) as nat == d);
        lemma_up_from_top(parents, root, (d - k) as nat);
    }
}

/// A child lies one step deeper than its parent.
proof fn lemma_child_depth(parents: Seq<Option<usize>>, root: usize, u: usize, c: usize)
    requires
        rooted(parents, root),
        (c as int) < parents.len(),
        parents[c as int] == Some(u),
    ensures
        (u as int) < parents.len(),
        depth(parents, root, c) == depth(parents, root, u) + 1,
{
    assert(parents[c as int] matches Some(p) ==> (p as int) < parents.len());
    assert(reaches(parents, u, root));
    let d = depth(parents, root, u);
    lemma_up_add(parents, c, 1, d);
    reveal_with_fuel(up, 2);
    assert(up(parents, c, 1) == Some(u));
    lemma_depth(parents, root, c, 1 + d);
}

/// The children lists of a tree given by its parent links.
pub open spec fn kids_of(parents: Seq<Option<usize>>, ch: Seq<Seq<usize>>) -> bool {
    &&& ch.len() == parents.len()
    &&& forall|u: int| 0 <= u < parents.len() ==> #[trigger] ch[u] == predecessors(parent_lists(parents), u as usize)
}

/// The lists of sources of edges into `w`, when no node has more than one
/// edge, hold each node once.
proof fn lemma_sources_distinct(g: Seq<Seq<usize>>, v: int, w: usize)
    requires
        0 <= v <= g.len(),
        g.len() <= usize::MAX,
        forall|x: int| 0 <= x < g.len() ==> #[trigger] g[x].len() <= 1,
    ensures
        sources(g, v, w).no_duplicates(),
        forall|i: int| 0 <= i < sources(g, v, w).len() ==> #[trigger] sources(g, v, w)[i] < v,
    decreases v,
{
    if v > 0 {
        lemma_sources_distinct(g, v - 1, w);
        let a = sources(g, v - 1, w);
        let row = g[v - 1];
        let b = row_sources(row, row.len() as int, (v - 1) as usize, w);
        assert(b.len() <= 1) by {
            if row.len() == 1 {
                assert(row_sources(row, 0, (v - 1) as usize, w).len() == 0);
            }
        }
        assert(forall|i: int| 0 <= i < b.len() ==> b[i] == (v - 1) as usize) by {
            if row.len() == 1 {
                assert(row_sources(row, 0, (v - 1) as usize, w).len() == 0);
            }
        }
        let s = sources(g, v, w);
        assert(s == a + b);
        assert forall|i: int, j: int| 0 <= i < s.len() && 0 <= j < s.len() && i != j implies s[i] != s[j] by {
            if i < a.len() && j < a.len() {
            } else if i < a.len() {
                assert(s[j] == b[j - a.len()]);
            } else if j < a.len() {
                assert(s[i] == b[i - a.len()]);
            }
        }
        assert forall|i: int| 0 <= i < s.len() implies #[trigger] s[i] < v by {
            if i >= a.len() {
                assert(s[i] == b[i - a.len()]);
            }
        }
    }
}

/// The children of `u` are the nodes whose parent is `u`, each once.
proof fn lemma_kids(parents: Seq<Option<usize>>, ch: Seq<Seq<usize>>, u: usize)
    requires
        kids_of(parents, ch),
        (u as int) < parents.len(),
        parents.len() <= usize::MAX,
    ensures
        ch[u as int].no_duplicates(),
        forall|c: usize| ch[u as int].contains(c) <==> ((c as int) < parents.len() && parents[c as int] == Some(u)),
{
    let g = parent_lists(parents);
    assert forall|x: int| 0 <= x < g.len() implies #[trigger] g[x].len() <= 1 by {}
    lemma_sources_distinct(g, g.len() as int, u);
    let s = sources(g, g.len() as int, u);
    assert(ch[u as int] == s.reverse());
    assert forall|i: int, j: int| 0 <= i < s.len() && 0 <= j < s.len() && i != j
        implies s.reverse()[i] != s.reverse()[j] by {
        assert(s.reverse()[i] == s[s.len() - 1 - i]);
        assert(s.reverse()[j] == s[s.len() - 1 - j]);
    }
    assert forall|c: usize| ch[u as int].contains(c) <==> ((c as int) < parents.len() && parents[c as int] == Some(u)) by {
        lemma_predecessors_contains(g, u, c);
        if (c as int) < parents.len() {
            if parents[c as int] == Some(u) {
                assert(g[c as int][0] == u);
            } else if g[c as int].contains(u) {
                let j = choose|j: int| 0 <= j < g[c as int].len() && g[c as int][j] == u;
                assert(j == 0);
            }
        }
    }
}

/// One visit of the walk: entering a node records the time and counts
/// it; leaving records the time.
pub open spec fn visit(st: (Seq<(usize, usize)>, int), e: NodeVisit) -> (Seq<(usize, usize)>, int) {
    if !e.exit {
        (st.0.update(e.node as int, (st.1 as usize, st.0[e.node as int].1)), st.1 + 1)
    } else {
        (st.0.update(e.node as int, (st.0[e.node as int].0, st.1 as usize)), st.1)
    }
}

/// The intervals and the time after the visits of `s`, from `st`.
pub open spec fn run(s: Seq<NodeVisit>, st: (Seq<(usize, usize)>, int)) -> (Seq<(usize, usize)>, int)
    decreases s.len(),
{
    if s.len() == 0 {
        st
    } else {
        visit(run(s.drop_last(), st), s.last())
    }
}

/// The nodes entered in `s`, in order.
pub open spec fn entered(s: Seq<NodeVisit>) -> Seq<usize>
    decreases s.len(),
{
    if s.len() == 0 {
        Seq::empty()
    } else if !s.last().exit {
        entered(s.drop_last()).push(s.last().node)
    } else {
        entered(s.drop_last())
    }
}

proof fn lemma_run_concat(a: Seq<NodeVisit>, b: Seq<NodeVisit>, st: (Seq<(usize, usize)>, int))
    ensures
        run(a + b, st) == run(b, run(a, st)),
        entered(a + b) == entered(a) + entered(b),
    decreases b.len(),
{
    if b.len() == 0 {
        assert(a + b =~= a);
        assert(entered(a) + entered(b) =~= entered(a));
    } else {
        lemma_run_concat(a, b.drop_last(), st);
        assert((a + b).drop_last() =~= a + b.drop_last());
        assert((a + b).last() == b.last());
        if !b.last().exit {
            assert(entered(a) + entered(b) =~= (entered(a) + entered(b.drop_last())).push(b.last().node));
        }
    }
}

proof fn lemma_run_time(s: Seq<NodeVisit>, st: (Seq<(usize, usize)>, int))
    requires
        forall|i: int| 0 <= i < s.len() ==> (#[trigger] s[i].node as int) < st.0.len(),
    ensures
        run(s, st).1 == st.1 + entered(s).len(),
        run(s, st).0.len() == st.0.len(),
    decreases s.len(),
{
    if s.len() > 0 {
        lemma_run_time(s.drop_last(), st);
    }
}

/// The intervals that `interval_state` computes are those of `run` from
/// no time and empty intervals.
proof fn lemma_interval_state_run(events: Seq<NodeVisit>, i: int, n: nat)
    requires
        0 <= i <= events.len(),
    ensures
        interval_state(events, i, n).0 == run(events.take(i), (Seq::new(n, |v: int| (0usize, 0usize)), 0int)).0,
        interval_state(events, i, n).1 == run(events.take(i), (Seq::new(n, |v: int| (0usize, 0usize)), 0int)).1,
    decreases i,
{
    if i > 0 {
        lemma_interval_state_run(events, i - 1, n);
        assert(events.take(i).drop_last() =~= events.take(i - 1));
        assert(events.take(i).last() == events[i - 1]);
    } else {
        assert(events.take(0).len() == 0);
    }
}

/// The interval of `x` holds that of `y`.
pub open spec fn nested(r: Seq<(usize, usize)>, x: usize, y: usize) -> bool {
    r[x as int].0 <= r[y as int].0 && r[y as int].1 <= r[x as int].1
}

/// The intervals of `x` and `y` do not overlap.
pub open spec fn apart(r: Seq<(usize, usize)>, x: usize, y: usize) -> bool {
    r[x as int].1 <= r[y as int].0 || r[y as int].1 <= r[x as int].0
}

/// What a walk over the nodes of `mem` leaves: the other intervals as
/// they were, non-empty intervals within the times of the walk for its
/// nodes, nested exactly along ancestry and apart otherwise.
pub open spec fn layout(
    parents: Seq<Option<usize>>,
    r0: Seq<(usize, usize)>,
    r1: Seq<(usize, usize)>,
    t0: int,
    t1: int,
    mem: spec_fn(usize) -> bool,
) -> bool {
    &&& forall|x: usize| (x as int) < parents.len() && !mem(x) ==> #[trigger] r1[x as int] == r0[x as int]
    &&& forall|x: usize| (x as int) < parents.len() && mem(x) ==> t0 <= (#[trigger] r1[x as int]).0
        && r1[x as int].0 < r1[x as int].1 && r1[x as int].1 <= t1
    &&& forall|x: usize, y: usize| (x as int) < parents.len() && (y as int) < parents.len() && mem(x) && mem(y)
        ==> (#[trigger] nested(r1, x, y) <==> is_above(parents, x, y))
    &&& forall|x: usize, y: usize| (x as int) < parents.len() && (y as int) < parents.len() && mem(x) && mem(y)
        && !is_above(parents, x, y) && !is_above(parents, y, x) ==> #[trigger] apart(r1, x, y)
}

/// `x` lies below one of the first `k` nodes of `cs`.
pub open spec fn under(parents: Seq<Option<usize>>, cs: Seq<usize>, k: int, x: usize) -> bool {
    exists|i: int| 0 <= i < k && #[trigger] is_above(parents, cs[i], x)
}

/// The walk from `u`, with as much depth left as the tree needs, lays out
/// the intervals of the nodes below `u`.
proof fn lemma_walk_layout(
    parents: Seq<Option<usize>>,
    root: usize,
    ch: Seq<Seq<usize>>,
    u: usize,
    f: nat,
    st: (Seq<(usize, usize)>, int),
    e0: Seq<usize>,
)
    requires
        rooted(parents, root),
        kids_of(parents, ch),
        edges_in_range(ch),
        parents.len() <= usize::MAX,
        (u as int) < parents.len(),
        f + depth(parents, root, u) == parents.len(),
        st.0.len() == parents.len(),
        st.1 == e0.len(),
        e0.no_duplicates(),
        forall|i: int| 0 <= i < e0.len() ==> (#[trigger] e0[i] as int) < parents.len() && !is_above(parents, u, e0[i]),
    ensures
        ({
            let w = walk(ch, u, f);
            let st1 = run(w, st);
            &&& (e0 + entered(w)).no_duplicates()
            &&& forall|i: int| 0 <= i < entered(w).len() ==> (#[trigger] entered(w)[i] as int) < parents.len()
                && is_above(parents, u, entered(w)[i])
            &&& st1.1 == st.1 + entered(w).len()
            &&& st1.1 <= parents.len()
            &&& st1.0.len() == parents.len()
            &&& st1.0[u as int].0 == st.1
            &&& st1.0[u as int].1 == st1.1
            &&& layout(parents, st.0, st1.0, st.1, st1.1, |x: usize| is_above(parents, u, x))
        }),
    decreases f, 0nat, 0int,
{
    let n = parents.len();
    assert(reaches(parents, u, root));
    assert(f >= 1);
    let cs = ch[u as int];
    lemma_kids(parents, ch, u);
    let wc = walk_children(ch, cs, cs.len() as int, (f - 1) as nat);
    let enter = NodeVisit { node: u, exit: false };
    let leave = NodeVisit { node: u, exit: true };
    let w = walk(ch, u, f);
    assert(w == seq![enter] + wc + seq![leave]);
    assert(up(parents, u, 0) == Some(u));
    assert(is_above(parents, u, u));
    // Entering u.
    let sta = visit(st, enter);
    let ea = e0.push(u);
    assert(ea.no_duplicates()) by {
        assert forall|i: int| 0 <= i < e0.len() implies e0[i] != u by {
            assert(!is_above(parents, u, e0[i]));
        }
    }
    assert forall|i: int| 0 <= i < ea.len() implies (#[trigger] ea[i] as int) < n by {
        if i < e0.len() {
            assert(ea[i] == e0[i]);
        }
    }
    lemma_distinct_nodes(ea, n);
    // No node of e0, nor u itself, lies below a child of u.
    assert forall|i: int| 0 <= i < ea.len() implies (#[trigger] ea[i] as int) < n && !under(parents, cs, cs.len() as int, ea[i]) by {
        if under(parents, cs, cs.len() as int, ea[i]) {
            let j = choose|j: int| 0 <= j < cs.len() && #[trigger] is_above(parents, cs[j], ea[i]);
            assert(cs.contains(cs[j]));
            lemma_child_below(parents, u, cs[j], ea[i]);
            if i < e0.len() {
                assert(ea[i] == e0[i]);
            } else {
                assert(ea[i] == u);
                assert(up(parents, cs[j], 0) == Some(cs[j]));
                lemma_child_below(parents, u, cs[j], cs[j]);
                lemma_above_antisym(parents, root, u, cs[j]);
                assert(parents[u as int] == Some(u));
                reveal_with_fuel(up, 2);
                assert(up(parents, u, 1) == Some(u));
                lemma_no_cycle(parents, root, u, 1);
            }
        }
    }
    // The children's walks.
    lemma_walk_children_layout(parents, root, ch, u, cs, cs.len() as int, (f - 1) as nat, sta, ea);
    let stb = run(wc, sta);
    let st1 = visit(stb, leave);
    lemma_run_concat(seq![enter], wc, st);
    lemma_run_concat(seq![enter] + wc, seq![leave], st);
    assert(run(seq![enter], st) == sta) by {
        assert(seq![enter].drop_last() =~= Seq::<NodeVisit>::empty());
        reveal_with_fuel(run, 2);
    }
    assert(run(seq![leave], stb) == st1) by {
        assert(seq![leave].drop_last() =~= Seq::<NodeVisit>::empty());
        reveal_with_fuel(run, 2);
    }
    assert(run(w, st) == st1);
    assert(entered(seq![enter]) =~= seq![u]) by {
        assert(seq![enter].drop_last() =~= Seq::<NodeVisit>::empty());
        reveal_with_fuel(entered, 2);
    }
    assert(entered(seq![leave]) =~= Seq::<usize>::empty()) by {
        assert(seq![leave].drop_last() =~= Seq::<NodeVisit>::empty());
        reveal_with_fuel(entered, 2);
    }
    let ew = entered(w);
    assert(ew =~= seq![u] + entered(wc));
    assert(e0 + ew =~= ea + entered(wc));
    let r0 = st.0;
    let ra = sta.0;
    let rb = stb.0;
    let r1 = st1.0;
    let t0 = st.1;
    let t1 = st1.1;
    assert(ea[e0.len() as int] == u);
    assert(!under(parents, cs, cs.len() as int, u));
    assert(rb[u as int] == ra[u as int]);
    assert(r1[u as int] == (t0 as usize, t1 as usize));
    // Everything strictly below u lies below one child.
    assert forall|x: usize| (x as int) < n && is_above(parents, u, x) && x != u
        implies under(parents, cs, cs.len() as int, x) by {
        let c = lemma_below_some_child(parents, u, x);
        assert(cs.contains(c));
        let j = choose|j: int| 0 <= j < cs.len() && cs[j] == c;
        assert(is_above(parents, cs[j], x));
    }
    assert forall|x: usize| under(parents, cs, cs.len() as int, x) implies is_above(parents, u, x) && x != u by {
        let j = choose|j: int| 0 <= j < cs.len() && #[trigger] is_above(parents, cs[j], x);
        assert(cs.contains(cs[j]));
        lemma_child_below(parents, u, cs[j], x);
        if x == u {
            assert(up(parents, cs[j], 0) == Some(cs[j]));
            lemma_child_below(parents, u, cs[j], cs[j]);
            lemma_above_antisym(parents, root, u, cs[j]);
            reveal_with_fuel(up, 2);
            assert(up(parents, u, 1) == Some(u));
            lemma_no_cycle(parents, root, u, 1);
        }
    }
    assert forall|i: int| 0 <= i < ew.len() implies (#[trigger] ew[i] as int) < n && is_above(parents, u, ew[i]) by {
        if i > 0 {
            assert(ew[i] == entered(wc)[i - 1]);
        }
    }
    assert forall|x: usize| (x as int) < n && !is_above(parents, u, x) implies #[trigger] r1[x as int] == r0[x as int] by {
        assert(x != u);
        assert(!under(parents, cs, cs.len() as int, x));
        assert(rb[x as int] == ra[x as int]);
    }
    assert forall|x: usize| (x as int) < n && is_above(parents, u, x) implies t0 <= (#[trigger] r1[x as int]).0
        && r1[x as int].0 < r1[x as int].1 && r1[x as int].1 <= t1 by {
        if x != u {
            assert(under(parents, cs, cs.len() as int, x));
            assert(rb[x as int] == r1[x as int]);
        }
    }
    assert forall|x: usize, y: usize| (x as int) < n && (y as int) < n && is_above(parents, u, x) && is_above(parents, u, y)
        implies (#[trigger] nested(r1, x, y) <==> is_above(parents, x, y)) by {
        if x == u {
            assert(r1[y as int].0 >= t0 && r1[y as int].1 <= t1);
        } else if y == u {
            assert(under(parents, cs, cs.len() as int, x));
            assert(rb[x as int] == r1[x as int]);
            if is_above(parents, x, u) {
                lemma_above_antisym(parents, root, u, x);
            }
        } else {
            assert(under(parents, cs, cs.len() as int, x));
            assert(under(parents, cs, cs.len() as int, y));
            assert(rb[x as int] == r1[x as int]);
            assert(rb[y as int] == r1[y as int]);
            assert(nested(rb, x, y) == nested(r1, x, y));
        }
    }
    assert forall|x: usize, y: usize| (x as int) < n && (y as int) < n && is_above(parents, u, x) && is_above(parents, u, y)
        && !is_above(parents, x, y) && !is_above(parents, y, x) implies #[trigger] apart(r1, x, y) by {
        assert(x != u && y != u);
        assert(under(parents, cs, cs.len() as int, x));
        assert(under(parents, cs, cs.len() as int, y));
        assert(rb[x as int] == r1[x as int]);
        assert(rb[y as int] == r1[y as int]);
        assert(apart(rb, x, y));
    }
}

/// The walks from the first `k` children of `u`, one after the other,
/// lay out the intervals of the nodes below them.
proof fn lemma_walk_children_layout(
    parents: Seq<Option<usize>>,
    root: usize,
    ch: Seq<Seq<usize>>,
    u: usize,
    cs: Seq<usize>,
    k: int,
    f: nat,
    st: (Seq<(usize, usize)>, int),
    e0: Seq<usize>,
)
    requires
        rooted(parents, root),
        kids_of(parents, ch),
        edges_in_range(ch),
        parents.len() <= usize::MAX,
        (u as int) < parents.len(),
        cs == ch[u as int],
        0 <= k <= cs.len(),
        f + depth(parents, root, u) + 1 == parents.len(),
        st.0.len() == parents.len(),
        st.1 == e0.len(),
        e0.no_duplicates(),
        forall|i: int| 0 <= i < e0.len() ==> (#[trigger] e0[i] as int) < parents.len()
            && !under(parents, cs, cs.len() as int, e0[i]),
    ensures
        ({
            let w = walk_children(ch, cs, k, f);
            let st1 = run(w, st);
            &&& (e0 + entered(w)).no_duplicates()
            &&& forall|i: int| 0 <= i < entered(w).len() ==> (#[trigger] entered(w)[i] as int) < parents.len()
                && under(parents, cs, k, entered(w)[i])
            &&& st1.1 == st.1 + entered(w).len()
            &&& st1.1 <= parents.len()
            &&& st1.0.len() == parents.len()
            &&& layout(parents, st.0, st1.0, st.1, st1.1, |x: usize| under(parents, cs, k, x))
        }),
    decreases f, 1nat, k,
{
    let n = parents.len();
    lemma_kids(parents, ch, u);
    let w = walk_children(ch, cs, k, f);
    if k == 0 {
        assert(w.len() == 0);
        assert(entered(w).len() == 0);
        assert(e0 + entered(w) =~= e0);
        lemma_distinct_nodes(e0, n);
        return;
    }
    let c = cs[k - 1];
    assert(cs.contains(c));
    lemma_child_depth(parents, root, u, c);
    lemma_walk_children_layout(parents, root, ch, u, cs, k - 1, f, st, e0);
    let wa = walk_children(ch, cs, k - 1, f);
    let sta = run(wa, st);
    let ea = e0 + entered(wa);
    // Nothing entered so far lies below c.
    assert forall|i: int| 0 <= i < ea.len() implies (#[trigger] ea[i] as int) < n && !is_above(parents, c, ea[i]) by {
        if i < e0.len() {
            assert(ea[i] == e0[i]);
            if is_above(parents, c, e0[i]) {
                assert(under(parents, cs, cs.len() as int, e0[i]));
            }
        } else {
            let x = ea[i];
            assert(x == entered(wa)[i - e0.len()]);
            assert(under(parents, cs, k - 1, x));
            let j = choose|j: int| 0 <= j < k - 1 && #[trigger] is_above(parents, cs[j], x);
            if is_above(parents, c, x) {
                assert(cs.contains(cs[j]));
                lemma_children_apart(parents, root, u, cs[j], c, x);
                assert(cs[j] == cs[k - 1]);
            }
        }
    }
    lemma_walk_layout(parents, root, ch, c, f, sta, ea);
    let wb = walk(ch, c, f);
    assert(w == wa + wb);
    lemma_run_concat(wa, wb, st);
    let st1 = run(wb, sta);
    assert(run(w, st) == st1);
    assert(entered(w) == entered(wa) + entered(wb));
    assert(e0 + entered(w) =~= ea + entered(wb));
    let r0 = st.0;
    let ra = sta.0;
    let r1 = st1.0;
    let t0 = st.1;
    let ta = sta.1;
    let t1 = st1.1;
    // Membership below the first k children.
    assert forall|x: usize| #[trigger] under(parents, cs, k, x) implies under(parents, cs, k - 1, x) || is_above(parents, c, x) by {
        let j = choose|j: int| 0 <= j < k && #[trigger] is_above(parents, cs[j], x);
        if j < k - 1 {
            assert(under(parents, cs, k - 1, x));
        }
    }
    assert forall|x: usize| under(parents, cs, k - 1, x) || is_above(parents, c, x) implies #[trigger] under(parents, cs, k, x) by {
        if under(parents, cs, k - 1, x) {
            let j = choose|j: int| 0 <= j < k - 1 && #[trigger] is_above(parents, cs[j], x);
            assert(is_above(parents, cs[j], x));
        } else {
            assert(is_above(parents, cs[k - 1], x));
        }
    }
    // The earlier children's nodes and c's nodes are apart.
    assert forall|x: usize| #[trigger] under(parents, cs, k - 1, x) implies !is_above(parents, c, x) by {
        let j = choose|j: int| 0 <= j < k - 1 && #[trigger] is_above(parents, cs[j], x);
        if is_above(parents, c, x) {
            assert(cs.contains(cs[j]));
            lemma_children_apart(parents, root, u, cs[j], c, x);
            assert(cs[j] == cs[k - 1]);
        }
    }
    let ew = entered(w);
    assert forall|i: int| 0 <= i < ew.len() implies (#[trigger] ew[i] as int) < n && under(parents, cs, k, ew[i]) by {
        if i < entered(wa).len() {
            assert(ew[i] == entered(wa)[i]);
            assert(under(parents, cs, k - 1, ew[i]));
        } else {
            assert(ew[i] == entered(wb)[i - entered(wa).len()]);
            assert(is_above(parents, c, ew[i]));
        }
        assert(under(parents, cs, k, ew[i]));
    }
    assert forall|x: usize| (x as int) < n && !under(parents, cs, k, x) implies #[trigger] r1[x as int] == r0[x as int] by {
        assert(!under(parents, cs, k - 1, x));
        assert(!is_above(parents, c, x));
        assert(r1[x as int] == ra[x as int]);
    }
    assert forall|x: usize| (x as int) < n && under(parents, cs, k, x) implies t0 <= (#[trigger] r1[x as int]).0
        && r1[x as int].0 < r1[x as int].1 && r1[x as int].1 <= t1 by {
        if under(parents, cs, k - 1, x) {
            assert(!is_above(parents, c, x));
            assert(r1[x as int] == ra[x as int]);
        }
    }
    assert forall|x: usize, y: usize| (x as int) < n && (y as int) < n && under(parents, cs, k, x) && under(parents, cs, k, y)
        implies (#[trigger] nested(r1, x, y) <==> is_above(parents, x, y)) by {
        let xa = under(parents, cs, k - 1, x);
        let ya = under(parents, cs, k - 1, y);
        if xa {
            assert(!is_above(parents, c, x));
            assert(r1[x as int] == ra[x as int]);
        }
        if ya {
            assert(!is_above(parents, c, y));
            assert(r1[y as int] == ra[y as int]);
        }
        if xa && ya {
            assert(nested(ra, x, y) == nested(r1, x, y));
        } else if xa && !ya {
            assert(is_above(parents, c, y));
            if is_above(parents, x, y) {
                let j = choose|j: int| 0 <= j < k - 1 && #[trigger] is_above(parents, cs[j], x);
                lemma_above_trans(parents, cs[j], x, y);
                assert(under(parents, cs, k - 1, y));
            }
        } else if !xa && ya {
            assert(is_above(parents, c, x));
            if is_above(parents, x, y) {
                lemma_above_trans(parents, c, x, y);
            }
        }
    }
    assert forall|x: usize, y: usize| (x as int) < n && (y as int) < n && under(parents, cs, k, x) && under(parents, cs, k, y)
        && !is_above(parents, x, y) && !is_above(parents, y, x) implies #[trigger] apart(r1, x, y) by {
        let xa = under(parents, cs, k - 1, x);
        let ya = under(parents, cs, k - 1, y);
        if xa {
            assert(!is_above(parents, c, x));
            assert(r1[x as int] == ra[x as int]);
        }
        if ya {
            assert(!is_above(parents, c, y));
            assert(r1[y as int] == ra[y as int]);
        }
        if xa && ya {
            assert(apart(ra, x, y));
        }
    }
}

/// In a tree whose parent links lead every node to the root, the interval
/// of `a` holds that of `b` exactly when `a` is `b` or an ancestor of `b`:
/// so `is_ancestor` answers ancestry, and `dominates` in the dominator
/// tree is dominance.
pub proof fn lemma_intervals_follow_ancestry(tree: &Tree, a: usize, b: usize)
    requires
        tree.wf(),
        rooted(tree.parents(), tree.root()),
        (a as int) < tree.parents().len(),
        (b as int) < tree.parents().len(),
    ensures
        crate::analysis::dominates(tree, a as int, b as int) <==> is_above(tree.parents(), a, b),
{
    tree.lemma_wf();
    let parents = tree.parents();
    let root = tree.root();
    let ch = tree.children();
    let n = parents.len();
    assert(kids_of(parents, ch));
    assert(up(parents, root, 0) == Some(root));
    lemma_depth(parents, root, root, 0);
    let init = (Seq::new(n, |v: int| (0usize, 0usize)), 0int);
    let e0 = Seq::<usize>::empty();
    lemma_walk_layout(parents, root, ch, root, n, init, e0);
    let events = tree.events();
    assert(events == walk(ch, root, n));
    lemma_interval_state_run(events, events.len() as int, n);
    assert(events.take(events.len() as int) =~= events);
    let r1 = run(events, init).0;
    assert(tree.intervals() == r1);
    assert(reaches(parents, a, root));
    assert(reaches(parents, b, root));
    let ka = choose|k: nat| k < n && #[trigger] up(parents, a, k) == Some(root);
    let kb = choose|k: nat| k < n && #[trigger] up(parents, b, k) == Some(root);
    assert(is_above(parents, root, a));
    assert(is_above(parents, root, b));
    assert(nested(r1, a, b) <==> is_above(parents, a, b));
}

/// Parents placed later in `order` than their children, up to the last
/// node of `order`: every node climbs to that node.
proof fn lemma_climb(parents: Seq<Option<usize>>, entry: usize, order: &NodeOrder, v: usize) -> (k: nat)
    requires
        order.wf(),
        parents.len() == order@.len(),
        order@.len() > 0,
        order@.last() == entry,
        (v as int) < parents.len(),
        forall|w: usize| (w as int) < parents.len() && w != entry ==> (#[trigger] parents[w as int] matches Some(u)
            && (u as int) < parents.len() && order.pos(u) > order.pos(w)),
    ensures
        k <= parents.len() - 1 - order.pos(v),
        up(parents, v, k) == Some(entry),
    decreases parents.len() - order.pos(v),
{
    order.lemma_pos();
    if v == entry {
        0
    } else {
        let u = parents[v as int]->0;
        let k = lemma_climb(parents, entry, order, u);
        lemma_up_add(parents, v, 1, k);
        reveal_with_fuel(up, 2);
        assert(up(parents, v, 1) == Some(u));
        1 + k
    }
}

/// Parents that each lie later in an order ending with `entry`, as `idom`
/// gives them on an order that spans the graph, form a tree with root
/// `entry`.
pub proof fn lemma_rising_parents_rooted(parents: Seq<Option<usize>>, entry: usize, order: &NodeOrder)
    requires
        order.wf(),
        parents.len() == order@.len(),
        order@.len() > 0,
        order@.last() == entry,
        parents[entry as int] is None,
        forall|w: usize| (w as int) < parents.len() && w != entry ==> (#[trigger] parents[w as int] matches Some(u)
            && (u as int) < parents.len() && order.pos(u) > order.pos(w)),
    ensures
        rooted(parents, entry),
{
    order.lemma_pos();
    assert(order@[order@.len() - 1] == entry);
    assert(order.pos(order@[order@.len() - 1]) == order@.len() - 1);
    assert forall|v: usize| (v as int) < parents.len() implies #[trigger] reaches(parents, v, entry) by {
        let k = lemma_climb(parents, entry, order, v);
        assert(order.pos(v) >= 0);
    }
    assert forall|v: int| 0 <= v < parents.len() implies (#[trigger] parents[v] matches Some(p) ==> (p as int) < parents.len()) by {
        if v as usize != entry {
            assert(parents[(v as usize) as int] matches Some(u) && (u as int) < parents.len());
        }
    }
}

/// A node strictly above `a` is above the parent of `a`.
pub(crate) proof fn lemma_above_parent(parents: Seq<Option<usize>>, d: usize, a: usize)
    requires
        is_above(parents, d, a),
        d != a,
    ensures
        (a as int) < parents.len(),
        parents[a as int] matches Some(pa) && is_above(parents, d, pa),
{
    let k = choose|k: nat| #[trigger] up(parents, a, k) == Some(d);
    assert(k > 0);
    lemma_up_add(parents, a, 1, (k - 1) as nat);
    assert(1 + (k - 1) as nat == k);
    reveal_with_fuel(up, 2);
    let pa = parents[a as int]->0;
    assert(up(parents, pa, (k - 1) as nat) == Some(d));
}

/// `d` is above both `x` and `y`.
pub open spec fn common_above(parents: Seq<Option<usize>>, d: usize, x: usize, y: usize) -> bool {
    is_above(parents, d, x) && is_above(parents, d, y)
}

/// `c` is the nearest common ancestor of `x` and `y`: above both, and
/// below every node above both.
pub open spec fn nearest_common(parents: Seq<Option<usize>>, c: usize, x: usize, y: usize) -> bool {
    &&& (c as int) < parents.len()
    &&& common_above(parents, c, x, y)
    &&& forall|d: usize| #[trigger] common_above(parents, d, x, y) ==> is_above(parents, d, c)
}

/// The climb of `nca` from `a` and `b`, which keep every common ancestor
/// of `lhs` and `rhs` above both, ends at the nearest one.
proof fn lemma_nca_climb(tree: &Tree, lhs: usize, rhs: usize, a: usize, b: usize, fuel: nat)
    requires
        tree.wf(),
        rooted(tree.parents(), tree.root()),
        (a as int) < tree.parents().len(),
        (b as int) < tree.parents().len(),
        is_above(tree.parents(), a, lhs),
        is_above(tree.parents(), b, rhs),
        fuel > depth(tree.parents(), tree.root(), a),
        forall|d: usize| #[trigger] common_above(tree.parents(), d, lhs, rhs) ==> common_above(tree.parents(), d, a, b),
    ensures
        tree.nca_walk(a, b, fuel) is Some,
        nearest_common(tree.parents(), tree.nca_walk(a, b, fuel)->0, lhs, rhs),
    decreases fuel,
{
    let parents = tree.parents();
    let root = tree.root();
    lemma_intervals_follow_ancestry(tree, a, b);
    lemma_intervals_follow_ancestry(tree, b, a);
    if is_above(parents, a, b) {
        lemma_above_trans(parents, a, b, rhs);
        assert(tree.nca_walk(a, b, fuel) == Some(a));
        assert forall|d: usize| #[trigger] common_above(parents, d, lhs, rhs) implies is_above(parents, d, a) by {
            assert(common_above(parents, d, a, b));
        }
    } else if is_above(parents, b, a) {
        lemma_above_trans(parents, b, a, lhs);
        assert(tree.nca_walk(a, b, fuel) == Some(b));
        assert forall|d: usize| #[trigger] common_above(parents, d, lhs, rhs) implies is_above(parents, d, b) by {
            assert(common_above(parents, d, a, b));
        }
    } else {
        assert(reaches(parents, b, root));
        let kb = choose|k: nat| k < parents.len() && #[trigger] up(parents, b, k) == Some(root);
        assert(is_above(parents, root, b));
        assert(a != root);
        assert(reaches(parents, a, root));
        let ka = choose|k: nat| k < parents.len() && #[trigger] up(parents, a, k) == Some(root);
        assert(is_above(parents, root, a));
        lemma_above_parent(parents, root, a);
        assert(b != root);
        lemma_above_parent(parents, root, b);
        let pa = parents[a as int]->0;
        let pb = parents[b as int]->0;
        lemma_child_depth(parents, root, pa, a);
        assert(up(parents, a, 1) == Some(pa)) by {
            reveal_with_fuel(up, 2);
        }
        assert(up(parents, b, 1) == Some(pb)) by {
            reveal_with_fuel(up, 2);
        }
        assert(is_above(parents, pa, a));
        assert(is_above(parents, pb, b));
        lemma_above_trans(parents, pa, a, lhs);
        lemma_above_trans(parents, pb, b, rhs);
        assert(parents[b as int] matches Some(p) ==> (p as int) < parents.len());
        assert forall|d: usize| #[trigger] common_above(parents, d, lhs, rhs) implies common_above(parents, d, pa, pb) by {
            assert(common_above(parents, d, a, b));
            if d == a {
                assert(is_above(parents, a, b));
            }
            if d == b {
                assert(is_above(parents, b, a));
            }
            lemma_above_parent(parents, d, a);
            lemma_above_parent(parents, d, b);
        }
        lemma_nca_climb(tree, lhs, rhs, pa, pb, (fuel - 1) as nat);
        assert(tree.nca_walk(a, b, fuel) == tree.nca_walk(pa, pb, (fuel - 1) as nat));
    }
}

/// In a tree whose nodes all lead to the root, the climb of `nca` always
/// ends, at the nearest common ancestor of the two nodes: a common
/// ancestor, below every other one.
pub proof fn lemma_nca_is_nearest(tree: &Tree, lhs: usize, rhs: usize)
    requires
        tree.wf(),
        rooted(tree.parents(), tree.root()),
        (lhs as int) < tree.parents().len(),
        (rhs as int) < tree.parents().len(),
    ensures
        tree.nca_walk(lhs, rhs, tree.parents().len()) is Some,
        nearest_common(tree.parents(), tree.nca_walk(lhs, rhs, tree.parents().len())->0, lhs, rhs),
{
    let parents = tree.parents();
    assert(up(parents, lhs, 0) == Some(lhs));
    assert(up(parents, rhs, 0) == Some(rhs));
    assert(reaches(parents, lhs, tree.root()));
    let k = choose|k: nat| k < parents.len() && #[trigger] up(parents, lhs, k) == Some(tree.root());
    lemma_depth(parents, tree.root(), lhs, k);
    lemma_nca_climb(tree, lhs, rhs, lhs, rhs, parents.len());
}

} // verus!
