use cycle_decomp::graph::{Edges, Graph, Path, Vertex};
use cycle_decomp::schedule::ScheduleError;
use cycle_decomp::queue::Queue;

fn sample_graph() -> Graph {
    let vertex: Vertex = vec![0, 1, 2, 3, 4, 5, 6];
    let edges: Edges = vec![
        vec![0, 1],
        vec![0, 2],
        vec![1, 2],
        vec![1, 3],
        vec![1, 4],
        vec![2, 3],
        vec![2, 5],
        vec![3, 4],
        vec![3, 5],
        vec![4, 5],
        vec![4, 6],
        vec![5, 6],
    ];
    Graph::new(vertex, edges)
}

fn neighbors(g: &Graph, v: u32) -> Vec<u32> {
    g.adj.get(&v).cloned().unwrap_or_default()
}

fn assert_valid_cycle(g: &Graph, p: &Path, len: usize) {
    assert_eq!(p.len(), len);
    for i in 0..p.len() {
        assert!(neighbors(g, p[i].0).contains(&p[i].1));
        if i + 1 < p.len() {
            assert_eq!(p[i].1, p[i + 1].0);
        }
        for j in (i + 1)..p.len() {
            assert_ne!(p[i].0, p[j].0);
        }
    }
    assert_eq!(p[p.len() - 1].1, p[0].0);
}

#[test]
fn new_builds_symmetric_adjacency() {
    let g = sample_graph();
    assert_eq!(neighbors(&g, 0), vec![1, 2]);
    assert_eq!(neighbors(&g, 1), vec![0, 2, 3, 4]);
    assert_eq!(neighbors(&g, 6), vec![4, 5]);
    for e in &g.edges {
        assert!(neighbors(&g, e[0]).contains(&e[1]));
        assert!(neighbors(&g, e[1]).contains(&e[0]));
    }
}

#[test]
fn add_edge_links_both_endpoints() {
    let mut g = Graph::new(vec![1, 2], vec![]);
    g.add_edge(1, 2);
    assert_eq!(neighbors(&g, 1), vec![2]);
    assert_eq!(neighbors(&g, 2), vec![1]);
    g.add_edge(1, 2);
    assert_eq!(neighbors(&g, 1), vec![2, 2]);
}

#[test]
fn add_edge_self_loop_appears_twice() {
    let mut g = Graph::new(vec![7], vec![]);
    g.add_edge(7, 7);
    assert_eq!(neighbors(&g, 7), vec![7, 7]);
    g.remove_edge(7, 7);
    assert!(g.adj.get(&7).is_none());
    assert!(g.vertex.is_empty());
}

#[test]
fn remove_edge_is_symmetric_and_drops_isolated_vertices() {
    let mut g = Graph::new(vec![0, 1, 2], vec![vec![0, 1], vec![1, 2]]);
    g.remove_edge(0, 1);
    assert!(!neighbors(&g, 1).contains(&0));
    assert!(g.adj.get(&0).is_none());
    assert_eq!(g.vertex, vec![1, 2]);
    assert_eq!(neighbors(&g, 1), vec![2]);
    g.remove_edge(2, 1);
    assert!(g.adj.is_empty());
    assert!(g.vertex.is_empty());
}

#[test]
fn remove_edge_takes_one_occurrence() {
    let mut g = Graph::new(vec![0, 1], vec![vec![0, 1], vec![0, 1]]);
    g.remove_edge(0, 1);
    assert_eq!(neighbors(&g, 0), vec![1]);
    assert_eq!(neighbors(&g, 1), vec![0]);
    assert_eq!(g.vertex, vec![0, 1]);
}

#[test]
fn remove_absent_edge_changes_nothing() {
    let mut g = Graph::new(vec![0, 1, 2], vec![vec![0, 1], vec![1, 2]]);
    g.remove_edge(0, 2);
    assert_eq!(neighbors(&g, 0), vec![1]);
    assert_eq!(neighbors(&g, 2), vec![1]);
    g.remove_edge(8, 9);
    assert_eq!(g.vertex, vec![0, 1, 2]);
    assert_eq!(g.adj.len(), 3);
}

#[test]
fn edge_list_is_kept_after_removal() {
    let mut g = Graph::new(vec![0, 1], vec![vec![0, 1]]);
    g.remove_edge(0, 1);
    assert_eq!(g.edges, vec![vec![0, 1]]);
}

#[test]
fn build_adj_list_adds_edges_again() {
    let mut g = Graph::new(vec![0, 1], vec![vec![0, 1]]);
    g.build_adj_list();
    assert_eq!(neighbors(&g, 0), vec![1, 1]);
}

#[test]
fn fill_queue_exact_multiple() {
    let g = sample_graph();
    let mut q: Queue<u32> = Queue::new();
    assert_eq!(g.fill_queue(&mut q, 12, 4), Ok(()));
    assert_eq!(q.items, vec![4, 4, 4]);
}

#[test]
fn fill_queue_with_remainder() {
    let g = sample_graph();
    let mut q: Queue<u32> = Queue::new();
    assert_eq!(g.fill_queue(&mut q, 14, 4), Ok(()));
    assert_eq!(q.items, vec![4, 4, 4, 2]);
    assert_eq!(q.items.iter().sum::<u32>(), 14);
}

#[test]
fn fill_queue_sums_to_edge_count() {
    let g = sample_graph();
    for e in 3u32..40 {
        let m = e / 3;
        let mut q: Queue<u32> = Queue::new();
        assert_eq!(g.fill_queue(&mut q, e, m), Ok(()));
        assert_eq!(q.items.iter().sum::<u32>(), e);
        assert!(q.items.iter().all(|&x| x >= 1));
        assert!(q.items.iter().filter(|&&x| x < m).count() <= 1);
        assert_eq!(q.items.len() as u32, (e + m - 1) / m);
    }
}

#[test]
fn fill_queue_zero_minimum_is_an_error() {
    let g = sample_graph();
    let mut q: Queue<u32> = Queue::new();
    q.enqueue(9);
    assert_eq!(g.fill_queue(&mut q, 2, 0), Err(ScheduleError::ZeroCycleSize));
    assert_eq!(q.items, vec![9]);
}

#[test]
fn find_cycle_triangle() {
    let g = Graph::new(vec![0, 1, 2], vec![vec![0, 1], vec![1, 2], vec![2, 0]]);
    let mut work = g.clone();
    let p = g.find_cycle(&mut work, 3);
    assert_eq!(p, vec![(0, 1), (1, 2), (2, 0)]);
    assert_valid_cycle(&g, &p, 3);
    assert_eq!(work.adj, g.adj);
}

#[test]
fn find_cycle_first_in_search_order() {
    let g = sample_graph();
    let mut work = g.clone();
    let p = g.find_cycle(&mut work, 4);
    assert_eq!(p, vec![(0, 1), (1, 3), (3, 2), (2, 0)]);
    assert_valid_cycle(&g, &p, 4);
}

#[test]
fn find_cycle_of_every_feasible_length_is_valid() {
    let g = sample_graph();
    for l in 1u32..=7 {
        let mut work = g.clone();
        let p = g.find_cycle(&mut work, l);
        if !p.is_empty() {
            assert_valid_cycle(&g, &p, l as usize);
        }
    }
}

#[test]
fn find_cycle_no_hamiltonian_cycle() {
    let g = Graph::new(vec![0, 1, 2, 3], vec![vec![0, 1], vec![0, 2], vec![0, 3]]);
    let mut work = g.clone();
    assert!(g.find_cycle(&mut work, 4).is_empty());
}

#[test]
fn find_cycle_zero_length_is_not_found() {
    let g = sample_graph();
    let mut work = g.clone();
    assert!(g.find_cycle(&mut work, 0).is_empty());
}

#[test]
fn find_cycle_skips_vertex_without_neighbours() {
    let g = Graph::new(vec![9, 0, 1, 2], vec![vec![0, 1], vec![1, 2], vec![2, 0]]);
    let mut work = g.clone();
    assert_eq!(g.find_cycle(&mut work, 3).len(), 3);
}

#[test]
fn find_cycle_outcome_is_repeatable() {
    let g = sample_graph();
    for l in 1u32..=8 {
        let mut work = g.clone();
        let first = g.find_cycle(&mut work, l);
        let second = g.find_cycle(&mut work, l);
        assert_eq!(first.is_empty(), second.is_empty());
    }
}

#[test]
fn decomposition_of_sample_graph() {
    let g = sample_graph();
    let d = g.find_disjoint_cycles().unwrap();
    assert_eq!(d.sizes, vec![4, 4, 4]);
    assert_eq!(d.cycles.len(), 3);
    for c in &d.cycles {
        assert_valid_cycle(&g, c, 4);
    }
    assert_eq!(d.cycles[0], vec![(0, 1), (1, 3), (3, 2), (2, 0)]);
    assert!(d.remaining.adj.is_empty());
    assert!(d.remaining.vertex.is_empty());
    assert_eq!(g.vertex, vec![0, 1, 2, 3, 4, 5, 6]);
    assert_eq!(g.adj.len(), 7);
}

#[test]
fn decomposition_with_too_few_edges_is_an_error() {
    let g = Graph::new(vec![0, 1, 2], vec![vec![0, 1], vec![1, 2]]);
    assert!(matches!(g.find_disjoint_cycles(), Err(ScheduleError::ZeroCycleSize)));
}

#[test]
fn decomposition_skips_missing_lengths() {
    let g = Graph::new(vec![0, 1, 2, 3], vec![vec![0, 1], vec![0, 2], vec![0, 3]]);
    let d = g.find_disjoint_cycles().unwrap();
    assert_eq!(d.sizes, vec![1, 1, 1]);
    assert!(d.cycles.iter().all(|c| c.is_empty()));
    assert_eq!(d.remaining.adj, g.adj);
}

#[test]
fn queue_is_first_in_first_out() {
    let mut q: Queue<u32> = Queue::new();
    assert!(q.is_empty());
    assert_eq!(q.dequeue(), None);
    q.enqueue(1);
    q.enqueue(2);
    assert!(!q.is_empty());
    assert_eq!(q.dequeue(), Some(1));
    assert_eq!(q.dequeue(), Some(2));
    assert_eq!(q.dequeue(), None);
    assert!(q.is_empty());
}
