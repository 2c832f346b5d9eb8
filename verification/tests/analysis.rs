use evml::analysis::{liveness, pinning, BlockLiveness, DefUse, Pinning};
use evml::graph::{idom, postorder, predecessor_edges, NodeOrder, Tree};

const X: usize = 0;
const Y: usize = 1;

struct TestProcedure {
    succs: Vec<Vec<usize>>,
    instrs: Vec<Vec<(usize, DefUse)>>,
    entry: usize,
}

impl TestProcedure {
    fn new(edges: &[(usize, usize)], instructions: &[(usize, Vec<(DefUse, usize)>)]) -> Self {
        let node_count = edges.iter().flat_map(|&(v, w)| [v, w]).max().map_or(0, |c| c + 1);
        Self::with_nodes(node_count, edges, instructions)
    }

    fn with_nodes(node_count: usize, edges: &[(usize, usize)], instructions: &[(usize, Vec<(DefUse, usize)>)]) -> Self {
        let mut succs = vec![Vec::new(); node_count];
        let mut has_pred = vec![false; node_count];
        for &(u, v) in edges {
            succs[u].push(v);
            has_pred[v] = true;
        }
        let mut entries = (0..node_count).filter(|&n| !has_pred[n]);
        let entry = entries.next().expect("no entry node found");
        assert!(entries.next().is_none(), "multiple entry nodes found");
        let mut instrs = vec![Vec::new(); node_count];
        for (b, ins) in instructions {
            instrs[*b] = ins.iter().map(|&(du, v)| (v, du)).collect();
        }
        TestProcedure { succs, instrs, entry }
    }

    fn postorder(&self) -> NodeOrder {
        NodeOrder::new(postorder(&self.succs, self.entry))
    }

    fn liveness(&self) -> Vec<BlockLiveness> {
        liveness(&self.succs, &self.instrs, &self.postorder())
    }

    fn pinning(&self) -> Vec<Pinning> {
        let order = self.postorder();
        let live = liveness(&self.succs, &self.instrs, &order);
        let preds = predecessor_edges(&self.succs);
        let dom_tree = Tree::new(self.entry, idom(&preds, self.entry, &order));
        pinning(&self.succs, &preds, &order, &dom_tree, &live)
    }
}

fn def(v: usize) -> (DefUse, usize) {
    (DefUse::Def, v)
}

fn use_(v: usize) -> (DefUse, usize) {
    (DefUse::Use, v)
}

#[test]
fn test_liveness_single_block() {
    // 0: def x; use x
    let proc = TestProcedure::with_nodes(1, &[], &[(0, vec![def(X), use_(X)])]);
    let result = proc.liveness();
    let a = &result[0];
    assert!(!a.live_in(X));
    assert!(!a.live_out(X));
}

#[test]
fn test_liveness_linear() {
    // 0: def x; def y; use x  ->  1: use y
    let proc = TestProcedure::new(
        &[(0, 1)],
        &[(0, vec![def(X), def(Y), use_(X)]), (1, vec![use_(Y)])],
    );
    let result = proc.liveness();
    let a = &result[0];
    assert!(!a.live_in(X));
    assert!(!a.live_out(X));
    assert!(!a.live_in(Y));
    assert!(a.live_out(Y));
    let b = &result[1];
    assert!(b.live_in(Y));
    assert!(!b.live_out(Y));
}

#[test]
fn test_liveness_diamond() {
    let proc = TestProcedure::new(
        &[(0, 1), (0, 2), (1, 3), (2, 3)],
        &[(0, vec![def(X)]), (3, vec![use_(X)])],
    );
    let result = proc.liveness();
    assert!(!result[0].live_in(X));
    assert!(result[0].live_out(X));
    assert!(result[1].live_in(X));
    assert!(result[1].live_out(X));
    assert!(result[2].live_in(X));
    assert!(result[2].live_out(X));
    assert!(result[3].live_in(X));
    assert!(!result[3].live_out(X));
}

#[test]
fn test_liveness_def_kills() {
    // 0  ->  1: def x  ->  2: use x
    let proc = TestProcedure::new(&[(0, 1), (1, 2)], &[(1, vec![def(X)]), (2, vec![use_(X)])]);
    let result = proc.liveness();
    assert!(!result[1].live_in(X));
    assert!(result[1].live_out(X));
    assert!(result[2].live_in(X));
    assert!(!result[2].live_out(X));
}

#[test]
fn test_liveness_local() {
    let proc = TestProcedure::with_nodes(1, &[], &[(0, vec![def(X), use_(X)])]);
    let result = proc.liveness();
    assert!(!result[0].live_in(X));
    assert!(!result[0].live_out(X));
}

#[test]
fn test_liveness_live_out() {
    // 0: def x  ->  1: use x  ->  2
    let proc = TestProcedure::new(&[(0, 1), (1, 2)], &[(0, vec![def(X)]), (1, vec![use_(X)])]);
    let result = proc.liveness();
    assert!(!result[0].live_in(X));
    assert!(result[0].live_out(X));
    assert!(result[1].live_in(X));
    assert!(!result[1].live_out(X));
}

#[test]
fn test_liveness_multiple_uses() {
    let proc = TestProcedure::with_nodes(1, &[], &[(0, vec![def(X), use_(X), use_(X)])]);
    let result = proc.liveness();
    assert!(!result[0].live_in(X));
    assert!(!result[0].live_out(X));
}

#[test]
fn test_pinning_linear() {
    // 0: def x  ->  1  ->  2: use x
    let proc = TestProcedure::new(&[(0, 1), (1, 2)], &[(0, vec![def(X)]), (2, vec![use_(X)])]);
    let result = proc.pinning();
    assert!(!result[0].is_pinned_out(X));
    assert!(!result[0].is_pinned(X));
    assert!(!result[1].is_pinned_out(X));
    assert!(!result[1].is_pinned(X));
    assert!(!result[2].is_pinned_out(X));
    assert!(!result[2].is_pinned(X));
}

#[test]
fn test_pinning_barrier() {
    // 4: def x -> 0 -> 1 -> 3: use x
    //               \-> 2 -/
    let proc = TestProcedure::with_nodes(
        5,
        &[(4, 0), (0, 1), (0, 2), (1, 3), (2, 3)],
        &[(4, vec![def(X)]), (3, vec![use_(X)])],
    );
    let result = proc.pinning();
    assert!(!result[4].is_pinned_out(X));
    assert!(!result[4].is_pinned(X));
    assert!(result[0].is_pinned_out(X));
    assert!(!result[0].is_pinned(X));
    assert!(result[1].is_pinned_out(X));
    assert!(result[1].is_pinned(X));
    assert!(result[2].is_pinned_out(X));
    assert!(result[2].is_pinned(X));
    assert!(!result[3].is_pinned_out(X));
    assert!(!result[3].is_pinned(X));
}

#[test]
fn liveness_of_unused_variable_is_empty() {
    let proc = TestProcedure::new(&[(0, 1)], &[(0, vec![def(Y)])]);
    let result = proc.liveness();
    assert!(!result[0].live_out(Y));
    assert!(!result[1].live_in(Y));
    assert_eq!(result[1].used_count(), 0);
}
