use evml::graph::{idom, postorder, predecessor_edges, NodeOrder, Tree};
use evml::graph::{transpose, Dfs, EntryNode, Graph, NodeOrdering, Predecessors, Successors};

struct TestGraph {
    succs: Vec<Vec<usize>>,
    entry: usize,
}

impl TestGraph {
    fn new(edges: &[(usize, usize)]) -> Self {
        let node_count = edges.iter().flat_map(|&(v, w)| [v, w]).max().map_or(0, |c| c + 1);
        Self::with_nodes(node_count, edges)
    }

    fn with_nodes(node_count: usize, edges: &[(usize, usize)]) -> Self {
        let mut succs = vec![Vec::new(); node_count];
        let mut has_pred = vec![false; node_count];
        for &(u, v) in edges {
            succs[u].push(v);
            has_pred[v] = true;
        }
        let entry = (0..node_count).find(|&n| !has_pred[n]).expect("no entry node found");
        TestGraph { succs, entry }
    }

    fn postorder(&self) -> NodeOrder {
        NodeOrder::new(postorder(&self.succs, self.entry))
    }

    fn idom(&self) -> Vec<Option<usize>> {
        let preds = predecessor_edges(&self.succs);
        idom(&preds, self.entry, &self.postorder())
    }
}

#[test]
fn test_predecessor_edges() {
    // 0 -> 1 -> 2
    //      |
    //      v
    //      3
    let g = TestGraph::new(&[(0, 1), (1, 2), (1, 3)]);
    let preds = predecessor_edges(&g.succs);

    let preds_0 = preds.edges_from(0);
    let preds_1 = preds.edges_from(1);
    let preds_2 = preds.edges_from(2);
    let preds_3 = preds.edges_from(3);

    assert!(preds_0.is_empty());
    assert_eq!(preds_1, &[0]);
    assert_eq!(preds_2, &[1]);
    assert_eq!(preds_3, &[1]);
}

#[test]
fn test_idom_single_node() {
    let g = TestGraph::with_nodes(1, &[]);
    let result = g.idom();
    assert_eq!(result[0], None);
}

#[test]
fn test_idom_linear() {
    let g = TestGraph::new(&[(0, 1), (1, 2)]);
    let result = g.idom();
    assert_eq!(result[0], None);
    assert_eq!(result[1], Some(0));
    assert_eq!(result[2], Some(1));
}

#[test]
fn test_idom_diamond() {
    let g = TestGraph::new(&[(0, 1), (0, 2), (1, 3), (2, 3)]);
    let result = g.idom();
    assert_eq!(result[0], None);
    assert_eq!(result[1], Some(0));
    assert_eq!(result[2], Some(0));
    assert_eq!(result[3], Some(0));
}

#[test]
fn test_idom_simple_loop() {
    let g = TestGraph::new(&[(0, 1), (1, 2), (2, 1)]);
    let result = g.idom();
    assert_eq!(result[0], None);
    assert_eq!(result[1], Some(0));
    assert_eq!(result[2], Some(1));
}

#[test]
fn test_idom_nested_loops() {
    let g = TestGraph::new(&[(0, 1), (1, 2), (2, 3), (3, 2), (3, 1)]);
    let result = g.idom();
    assert_eq!(result[0], None);
    assert_eq!(result[1], Some(0));
    assert_eq!(result[2], Some(1));
    assert_eq!(result[3], Some(2));
}

#[test]
fn test_idom_irreducible() {
    let g = TestGraph::new(&[(0, 1), (0, 2), (1, 2), (2, 1)]);
    let result = g.idom();
    assert_eq!(result[0], None);
    assert_eq!(result[1], Some(0));
    assert_eq!(result[2], Some(0));
}

#[test]
fn postorder_ends_with_the_entry() {
    let g = TestGraph::new(&[(0, 1), (1, 2), (0, 2)]);
    let order = postorder(&g.succs, g.entry);
    assert_eq!(order.len(), 3);
    assert_eq!(*order.last().unwrap(), 0);
    let pos = |v: usize| order.iter().position(|&w| w == v).unwrap();
    assert!(pos(2) < pos(1));
}

#[test]
fn dominator_tree_answers_ancestry() {
    let g = TestGraph::new(&[(0, 1), (1, 2), (1, 3)]);
    let tree = Tree::new(g.entry, g.idom());
    assert!(tree.is_ancestor(0, 3));
    assert!(tree.is_ancestor(1, 2));
    assert!(!tree.is_ancestor(2, 3));
    assert_eq!(tree.parent(3), Some(1));
    assert_eq!(tree.nca(2, 3), 1);
}

#[test]
fn every_node_but_the_entry_has_a_later_predecessor() {
    // The search from 0 reaches 2 from 0 and 1 from 2; the edge 1 -> 2 is
    // found after 2 was already seen.
    let g = TestGraph::new(&[(0, 2), (0, 1), (2, 1), (1, 2), (2, 3)]);
    let order = postorder(&g.succs, g.entry);
    assert_eq!(*order.last().unwrap(), g.entry);
    for i in 0..order.len() - 1 {
        let v = order[i];
        assert!((i + 1..order.len()).any(|j| g.succs[order[j]].contains(&v)));
    }
    let parents = g.idom();
    for v in 0..parents.len() {
        if v == g.entry {
            assert_eq!(parents[v], None);
        } else {
            let u = parents[v].unwrap();
            let pos = |x: usize| order.iter().position(|&w| w == x).unwrap();
            assert!(pos(u) > pos(v));
        }
    }
}

#[test]
fn nca_of_nodes_at_different_depths() {
    // 0 -> 1 -> 2 -> 3, and 0 -> 4.
    let tree = Tree::new(0, vec![None, Some(0), Some(1), Some(2), Some(0)]);
    assert_eq!(tree.nca(3, 4), 0);
    assert_eq!(tree.nca(4, 3), 0);
    assert_eq!(tree.nca(3, 1), 1);
    assert_eq!(tree.nca(2, 2), 2);
    assert!(tree.is_ancestor(1, 3));
    assert!(!tree.is_ancestor(3, 1));
    assert!(!tree.is_ancestor(4, 2));
}

#[test]
fn immediate_dominator_of_a_join_of_two_branches_below_a_chain() {
    // 0 -> 1 -> 2, then 2 branches to 3 and 4, which meet at 5; 1 also
    // jumps straight to 5.
    let g = TestGraph::new(&[(0, 1), (1, 2), (2, 3), (2, 4), (3, 5), (4, 5), (1, 5)]);
    let result = g.idom();
    assert_eq!(result[0], None);
    assert_eq!(result[1], Some(0));
    assert_eq!(result[2], Some(1));
    assert_eq!(result[3], Some(2));
    assert_eq!(result[4], Some(2));
    assert_eq!(result[5], Some(1));
}

#[test]
fn tree_answers_through_the_graph_traits() {
    // 0 is the root; 1 and 2 are its children; 3 is a child of 1.
    let tree = Tree::new(0, vec![None, Some(0), Some(0), Some(1)]);
    assert_eq!(Graph::node_count(&tree), 4);
    assert_eq!(Graph::nodes(&tree), vec![0, 1, 2, 3]);
    assert_eq!(EntryNode::entry(&tree), 0);
    let mut kids = Successors::successors(&tree, 0);
    kids.sort();
    assert_eq!(kids, vec![1, 2]);
    assert_eq!(Predecessors::predecessors(&tree, 3), vec![1]);
    assert!(Predecessors::predecessors(&tree, 0).is_empty());
    let visits = Dfs::dfs(&tree);
    assert_eq!(visits.len(), 8);
    assert_eq!(visits[0].node, 0);
    assert!(!visits[0].exit);
    let order = NodeOrder::new(vec![3, 1, 2, 0]);
    assert_eq!(NodeOrdering::position(&order, 2), 2);
    assert_eq!(NodeOrdering::node_at(&order, 0), 3);
    assert_eq!(NodeOrdering::iter(&order), vec![3, 1, 2, 0]);
}

#[test]
fn transposed_tree_swaps_successors_and_predecessors() {
    let tree = Tree::new(0, vec![None, Some(0), Some(0), Some(1)]);
    let t = transpose(tree);
    assert_eq!(Graph::node_count(&t), 4);
    let mut kids = Predecessors::predecessors(&t, 0);
    kids.sort();
    assert_eq!(kids, vec![1, 2]);
    assert_eq!(Successors::successors(&t, 3), vec![1]);
}
