use graph_algorithms::dijkstra::{dijkstra, dijkstra_path, reconstruct_path, PathError};
use graph_algorithms::graph::Graph;
use graph_algorithms::queue::MinQueue;

const A: usize = 0;
const B: usize = 1;
const C: usize = 2;
const D: usize = 3;

fn graph(adj: Vec<Vec<(usize, u64)>>) -> Graph {
    Graph { adj }
}

fn path_weight(g: &Graph, path: &[usize]) -> u128 {
    let mut sum: u128 = 0;
    for pair in path.windows(2) {
        let w = g.adj[pair[0]]
            .iter()
            .filter(|e| e.0 == pair[1])
            .map(|e| e.1)
            .min()
            .expect("consecutive path nodes are joined by an edge");
        sum += w as u128;
    }
    sum
}

#[test]
fn test_simple_graph() {
    let g = graph(vec![
        vec![(B, 4), (C, 2)],
        vec![(C, 1), (D, 5)],
        vec![(D, 8)],
        vec![],
    ]);

    let result = dijkstra(&g, A);

    assert_eq!(result.distances[A], Some(0));
    assert_eq!(result.distances[B], Some(4));
    assert_eq!(result.distances[C], Some(2));
    assert_eq!(result.distances[D], Some(9));
}

#[test]
fn test_path_finding() {
    let g = graph(vec![
        vec![(B, 1), (C, 4)],
        vec![(C, 2), (D, 5)],
        vec![(D, 1)],
        vec![],
    ]);

    let result = dijkstra_path(&g, A, D).unwrap();

    assert_eq!(result.distance, 4);
    assert_eq!(result.path, vec![A, B, C, D]);
}

#[test]
fn test_no_path() {
    let g = graph(vec![vec![(B, 1)], vec![], vec![]]);

    let result = dijkstra_path(&g, A, C);

    assert!(result.is_err());
}

#[test]
fn no_path_error_names_both_ends() {
    let g = graph(vec![vec![(B, 1)], vec![], vec![]]);
    assert_eq!(
        dijkstra_path(&g, A, C),
        Err(PathError::NoPathExists { source: A, target: C })
    );
}

#[test]
fn source_outside_graph_reaches_only_itself() {
    let g = graph(vec![vec![(B, 1)], vec![(A, 2)]]);
    let result = dijkstra(&g, 7);
    assert_eq!(result.distance(7), Some(0));
    assert_eq!(result.distance(A), None);
    assert_eq!(result.distance(B), None);
    assert_eq!(result.predecessor(7), None);
    assert_eq!(result.distances, vec![None, None]);
    assert_eq!(result.predecessors, vec![None, None]);
    let p = dijkstra_path(&g, 7, 7).unwrap();
    assert_eq!(p.distance, 0);
    assert_eq!(p.path, vec![7]);
    assert!(dijkstra_path(&g, 7, A).is_err());
}

#[test]
fn source_distance_is_zero_despite_cycle_back() {
    let g = graph(vec![vec![(B, 3)], vec![(A, 0)]]);
    let result = dijkstra(&g, A);
    assert_eq!(result.distance(A), Some(0));
    assert_eq!(result.predecessor(A), None);
    assert_eq!(result.distance(B), Some(3));
    assert_eq!(result.predecessor(B), Some(A));
}

#[test]
fn unreachable_nodes_have_no_distance_or_predecessor() {
    let g = graph(vec![vec![(B, 1)], vec![], vec![(D, 1)], vec![(A, 1)]]);
    let result = dijkstra(&g, A);
    assert_eq!(result.distances, vec![Some(0), Some(1), None, None]);
    assert_eq!(result.predecessors, vec![None, Some(A), None, None]);
    assert_eq!(result.distance(99), None);
    assert_eq!(result.predecessor(99), None);
}

#[test]
fn path_runs_from_source_to_target_with_its_weight() {
    let g = graph(vec![
        vec![(B, 4), (C, 2)],
        vec![(C, 1), (D, 5)],
        vec![(D, 8), (B, 1)],
        vec![],
    ]);
    for target in [A, B, C, D] {
        let p = dijkstra_path(&g, A, target).unwrap();
        assert_eq!(p.path[0], A);
        assert_eq!(*p.path.last().unwrap(), target);
        assert_eq!(path_weight(&g, &p.path), p.distance);
    }
    let p = dijkstra_path(&g, A, D).unwrap();
    assert_eq!(p.distance, 8);
    assert_eq!(p.path, vec![A, C, B, D]);
}

#[test]
fn path_to_source_is_the_source_alone() {
    let g = graph(vec![vec![(B, 1)], vec![]]);
    let p = dijkstra_path(&g, A, A).unwrap();
    assert_eq!(p.distance, 0);
    assert_eq!(p.path, vec![A]);
}

#[test]
fn running_twice_gives_identical_results() {
    let g = graph(vec![
        vec![(B, 1), (C, 1)],
        vec![(D, 1)],
        vec![(D, 1)],
        vec![],
    ]);
    let first = dijkstra(&g, A);
    let second = dijkstra(&g, A);
    assert_eq!(first, second);
}

#[test]
fn distances_match_brute_force_enumeration() {
    let g = graph(vec![
        vec![(B, 7), (C, 9), (E, 14)],
        vec![(A, 7), (C, 10), (D, 15)],
        vec![(A, 9), (B, 10), (D, 11), (E, 2)],
        vec![(B, 15), (C, 11), (F, 6)],
        vec![(A, 14), (C, 2), (F, 9)],
        vec![(D, 6), (E, 9)],
    ]);
    let n = g.adj.len();
    for s in 0..n {
        let result = dijkstra(&g, s);
        for t in 0..n {
            let mut best: Option<u128> = None;
            let mut stack: Vec<(usize, u128, Vec<bool>)> = vec![(s, 0, {
                let mut seen = vec![false; n];
                seen[s] = true;
                seen
            })];
            while let Some((u, cost, seen)) = stack.pop() {
                if u == t {
                    best = Some(best.map_or(cost, |b| b.min(cost)));
                }
                for &(v, w) in &g.adj[u] {
                    if !seen[v] {
                        let mut next = seen.clone();
                        next[v] = true;
                        stack.push((v, cost + w as u128, next));
                    }
                }
            }
            assert_eq!(result.distance(t), best);
        }
    }
}

const E: usize = 4;
const F: usize = 5;

#[test]
fn zero_weight_cycle_terminates() {
    let g = graph(vec![vec![(B, 0)], vec![(C, 0)], vec![(A, 0), (D, 2)], vec![]]);
    let result = dijkstra(&g, A);
    assert_eq!(result.distances, vec![Some(0), Some(0), Some(0), Some(2)]);
    let p = dijkstra_path(&g, A, D).unwrap();
    assert_eq!(p.path, vec![A, B, C, D]);
    assert_eq!(p.distance, 2);
}

#[test]
fn parallel_edges_use_the_lightest() {
    let g = graph(vec![vec![(B, 9), (B, 3), (B, 5)], vec![]]);
    let result = dijkstra(&g, A);
    assert_eq!(result.distance(B), Some(3));
}

#[test]
fn heaviest_weights_do_not_overflow() {
    let m = u64::MAX;
    let g = graph(vec![vec![(B, m)], vec![(C, m)], vec![(D, m)], vec![]]);
    let result = dijkstra(&g, A);
    assert_eq!(result.distance(D), Some(3 * m as u128));
}

#[test]
fn empty_graph() {
    let g = graph(vec![]);
    let result = dijkstra(&g, A);
    assert!(result.distances.is_empty());
    assert_eq!(result.distance(A), Some(0));
    assert_eq!(dijkstra_path(&g, A, B), Err(PathError::NoPathExists { source: A, target: B }));
}

#[test]
fn reconstruct_from_a_result_bundle() {
    let g = graph(vec![vec![(B, 2)], vec![(C, 2)], vec![], vec![]]);
    let result = dijkstra(&g, A);
    let p = reconstruct_path(&g, &result, C).unwrap();
    assert_eq!(p.distance, 4);
    assert_eq!(p.path, vec![A, B, C]);
    assert_eq!(
        reconstruct_path(&g, &result, D),
        Err(PathError::NoPathExists { source: A, target: D })
    );
}

#[test]
fn well_formedness_check() {
    assert!(graph(vec![vec![(B, 1)], vec![(A, 1)]]).is_well_formed());
    assert!(!graph(vec![vec![(B, 1)], vec![(C, 1)]]).is_well_formed());
    assert!(graph(vec![]).is_well_formed());
}

#[test]
fn queue_pops_in_ascending_distance() {
    let mut q = MinQueue::new();
    assert!(q.is_empty());
    q.push(5, 1);
    q.push(2, 2);
    q.push(9, 3);
    q.push(2, 4);
    let mut out = Vec::new();
    while let Some((d, _)) = q.pop_min() {
        out.push(d);
    }
    assert_eq!(out, vec![2, 2, 5, 9]);
    assert!(q.is_empty());
    assert_eq!(q.pop_min(), None);
}
