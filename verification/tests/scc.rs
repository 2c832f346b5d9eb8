use evml::scc::{next_run, scc, Edges};

#[test]
fn test_empty() {
    let edges = Edges::<()>::new(vec![]);
    let result = scc(&edges, &[], 0);
    assert_eq!(result.count, 0);
    assert!(result.runs.is_empty());
}

#[test]
fn test_self_loop() {
    let edges = Edges::new(vec![(10, 10)]);
    let result = scc(&edges, &[], 0);
    assert_eq!(result.runs, vec![Some(10), None]);
}

#[test]
fn test_simple() {
    let edges = Edges::new(vec![(10, 11)]);
    let result = scc(&edges, &[], 0);
    assert_eq!(result.runs, vec![Some(11), None, Some(10), None]);
}

#[test]
fn test_cycle_two() {
    let edges = Edges::new(vec![(10, 11), (11, 10)]);
    let result = scc(&edges, &[], 0);
    assert_eq!(result.count, 1);
    assert_eq!(result.runs, vec![Some(10), Some(11), None]);
}

#[test]
fn test_cycle_three() {
    let edges = Edges::new(vec![(10, 11), (11, 12), (12, 10)]);
    let result = scc(&edges, &[], 0);
    assert_eq!(result.count, 1);
    assert_eq!(result.runs, vec![Some(10), Some(11), Some(12), None]);
}

#[test]
fn test_chain() {
    let edges = Edges::new(vec![(10, 11), (11, 12), (12, 13)]);
    let result = scc(&edges, &[], 0);
    assert_eq!(result.count, 4);
    assert_eq!(result.runs, vec![
        Some(13), None,
        Some(12), None,
        Some(11), None,
        Some(10), None
    ]);
}

#[test]
fn test_diamond() {
    let edges = Edges::new(vec![(10, 11), (10, 12), (11, 13), (12, 13)]);
    let result = scc(&edges, &[], 0);
    assert_eq!(result.count, 4);
    assert_eq!(result.runs, vec![
        Some(13), None,
        Some(11), None,
        Some(12), None,
        Some(10), None
    ]);
}

#[test]
fn test_two_with_edge_between() {
    let edges = Edges::new(vec![
        (10, 11), (11, 12), (12, 10),
        (13, 14), (14, 13),
        (12, 13),
    ]);
    let result = scc(&edges, &[], 0);
    assert_eq!(result.count, 2);
    assert_eq!(result.runs, vec![
        Some(13), Some(14), None,
        Some(10), Some(11), Some(12), None
    ]);
}

#[test]
fn test_backedge() {
    let edges = Edges::new(vec![(10, 11), (11, 12), (12, 13), (13, 11)]);
    let result = scc(&edges, &[], 0);
    assert_eq!(result.count, 2);
    assert_eq!(result.runs, vec![
        Some(11), Some(12), Some(13), None,
        Some(10), None
    ]);
}

#[test]
fn test_duplicate_edges() {
    let edges = Edges::new(vec![(10, 11), (10, 11), (11, 12), (12, 11), (11, 12)]);
    let result = scc(&edges, &[], 0);
    assert_eq!(result.count, 2);
    assert_eq!(result.runs, vec![
        Some(11), Some(12), None,
        Some(10), None
    ]);
}

#[test]
fn test_disconnected() {
    let edges = Edges::new(vec![(10, 11), (15, 16)]);
    let result = scc(&edges, &[], 0);
    assert_eq!(result.count, 4);
    assert_eq!(result.runs, vec![
        Some(11), None,
        Some(10), None,
        Some(16), None,
        Some(15), None
    ]);
}

#[test]
fn test_isolated_vertex() {
    let edges = Edges::<i32>::new(vec![]);
    let result = scc(&edges, &[42], 0);
    assert_eq!(result.count, 1);
    assert_eq!(result.runs, vec![Some(42), None]);
}

#[test]
fn test_isolated_vertices_multiple() {
    let edges = Edges::<i32>::new(vec![]);
    let result = scc(&edges, &[10, 20, 30], 0);
    assert_eq!(result.count, 3);
    assert_eq!(result.runs, vec![
        Some(10), None,
        Some(20), None,
        Some(30), None
    ]);
}

#[test]
fn test_vertex_already_in_edges() {
    let edges = Edges::new(vec![(10, 11)]);
    let result = scc(&edges, &[10, 11], 0);
    assert_eq!(result.count, 2);
    assert_eq!(result.runs, vec![
        Some(11), None,
        Some(10), None
    ]);
}

#[test]
fn test_mixed_isolated_and_connected() {
    let edges = Edges::new(vec![(10, 11)]);
    let result = scc(&edges, &[42], 0);
    assert_eq!(result.count, 3);
    assert_eq!(result.runs, vec![
        Some(11), None,
        Some(10), None,
        Some(42), None
    ]);
}

#[test]
fn edges_come_out_sorted() {
    let edges = Edges::new(vec![(3u32, 1u32), (1, 5), (3, 0), (1, 2)]);
    assert_eq!(edges.deref(), &vec![(1, 2), (1, 5), (3, 0), (3, 1)]);
}

#[test]
fn largest_is_the_biggest_component() {
    let edges = Edges::new(vec![(10i64, 11i64), (11, 12), (12, 10), (12, 20)]);
    let result = scc(&edges, &[], 0);
    assert_eq!(result.largest, 3);
    assert_eq!(result.count, 2);
}

#[test]
fn next_run_takes_the_rest_of_the_values() {
    let runs = vec![Some(1), None, Some(2), Some(3), None];
    let mut pos = 2usize;
    assert_eq!(next_run(&runs, &mut pos), Some(vec![2, 3]));
    assert_eq!(pos, 5);
    assert_eq!(next_run(&runs, &mut pos), None);
    let mut start = 0usize;
    assert_eq!(next_run(&runs, &mut start), Some(vec![1, 2, 3]));
}

#[test]
fn every_vertex_is_listed_once_in_closed_groups() {
    let edges = Edges::new(vec![(1, 2), (2, 1), (1, 3), (3, 4), (4, 3)]);
    let result = scc(&edges, &[7], 0);
    let mut listed: Vec<i32> = result.runs.iter().filter_map(|x| *x).collect();
    listed.sort();
    assert_eq!(listed, vec![1, 2, 3, 4, 7]);
    assert_eq!(result.runs.last(), Some(&None));
    assert!(result.runs[0].is_some());
    let mut groups = 0;
    let mut largest = 0;
    let mut size = 0;
    for (i, x) in result.runs.iter().enumerate() {
        match x {
            Some(_) => size += 1,
            None => {
                assert!(i > 0 && result.runs[i - 1].is_some());
                groups += 1;
                if size > largest {
                    largest = size;
                }
                size = 0;
            }
        }
    }
    assert_eq!(result.count, groups);
    assert_eq!(result.largest, largest);
}
