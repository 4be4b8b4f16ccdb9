use rustgraph::adjacency::AdjacencyStore;
use rustgraph::graph::reversed_edges;
use rustgraph::GraphError;
use rustgraph::SimpleGraph;

fn sample_edges() -> Vec<(u32, u32)> {
    vec![(0, 1), (1, 2), (2, 3), (0, 3), (3, 4)]
}

#[test]
fn rows_hold_the_heads_in_list_order() {
    let edges = vec![(2, 5), (0, 3), (2, 1), (0, 3), (2, 2), (0, 0)];
    let store = AdjacencyStore::<u32>::from_edges(&edges).unwrap();
    assert_eq!(store.dimension(), 6);
    assert_eq!(store.arc_count(), 6);
    assert_eq!(store.neighbors(0).unwrap().to_vec(), vec![3, 3, 0]);
    assert_eq!(store.neighbors(1).unwrap().to_vec(), Vec::<u32>::new());
    assert_eq!(store.neighbors(2).unwrap().to_vec(), vec![5, 1, 2]);
    assert_eq!(store.neighbors(5).unwrap().to_vec(), Vec::<u32>::new());
    assert_eq!(store.degree(0).unwrap(), 3);
    assert_eq!(store.degree(2).unwrap(), 3);
    assert_eq!(store.degree(4).unwrap(), 0);
}

#[test]
fn dimension_is_one_more_than_the_largest_vertex() {
    let g = SimpleGraph::<u32>::from_edges(&vec![(3, 9), (1, 3)]).unwrap();
    assert_eq!(g.forward().dimension(), 10);
    assert_eq!(g.backward().dimension(), 10);
    for v in [0u32, 2, 4, 5, 6, 7, 8] {
        assert_eq!(g.forward().degree(v).unwrap(), 0);
        assert_eq!(g.backward().degree(v).unwrap(), 0);
    }
    let h = SimpleGraph::<u32>::from_edges(&vec![(9, 3)]).unwrap();
    assert_eq!(h.forward().dimension(), 10);
    assert_eq!(h.backward().dimension(), 10);
}

#[test]
fn empty_list_gives_an_empty_store() {
    let store = AdjacencyStore::<u16>::from_edges(&vec![]).unwrap();
    assert_eq!(store.dimension(), 0);
    assert_eq!(store.arc_count(), 0);
    assert_eq!(store.frontier_hint(), 0);
    assert_eq!(store.neighbors(0).unwrap_err(), GraphError::InvalidDegreeQuery);
}

#[test]
fn backward_store_is_the_forward_store_of_the_reversed_list() {
    let edges = vec![(0u32, 1u32), (1, 2), (2, 3), (0, 3), (3, 4), (3, 4), (4, 4), (2, 0)];
    let g = SimpleGraph::<u32>::from_edges(&edges).unwrap();
    let back = reversed_edges(&edges);
    assert_eq!(back, vec![(1, 0), (2, 1), (3, 2), (3, 0), (4, 3), (4, 3), (4, 4), (0, 2)]);
    let mirror = AdjacencyStore::<u32>::from_edges(&back).unwrap();
    assert_eq!(g.backward().dimension(), mirror.dimension());
    for v in 0..5u32 {
        assert_eq!(g.backward().neighbors(v).unwrap(), mirror.neighbors(v).unwrap());
    }
    for (u, v) in edges {
        assert!(g.forward().neighbors(u).unwrap().contains(&v));
        assert!(g.backward().neighbors(v).unwrap().contains(&u));
    }
    assert_eq!(g.backward().neighbors(4).unwrap().to_vec(), vec![3, 3, 4]);
    assert_eq!(g.backward().neighbors(3).unwrap().to_vec(), vec![2, 0]);
    assert_eq!(g.backward().neighbors(1).unwrap().to_vec(), vec![0]);
}

#[test]
fn queries_on_a_missing_vertex_are_refused() {
    let store = AdjacencyStore::<u32>::from_edges(&sample_edges()).unwrap();
    assert_eq!(store.neighbors(5).unwrap_err(), GraphError::InvalidDegreeQuery);
    assert_eq!(store.degree(5).unwrap_err(), GraphError::InvalidDegreeQuery);
    assert_eq!(store.neighbors(u32::MAX).unwrap_err(), GraphError::InvalidDegreeQuery);
    let wide = AdjacencyStore::<u64>::from_edges(&vec![(0, 1)]).unwrap();
    assert_eq!(wide.degree(u64::MAX).unwrap_err(), GraphError::InvalidDegreeQuery);
}

#[test]
fn frontier_hint_is_the_largest_degree_past_vertex_zero() {
    // vertex 0 has four out-neighbors, vertex 2 has two
    let edges = vec![(0, 1), (0, 2), (0, 3), (0, 1), (2, 1), (2, 3)];
    let store = AdjacencyStore::<u32>::from_edges(&edges).unwrap();
    assert_eq!(store.degree(0).unwrap(), 4);
    assert_eq!(store.frontier_hint(), 2);
    let single = AdjacencyStore::<u32>::from_edges(&vec![(0, 0), (0, 0)]).unwrap();
    assert_eq!(single.frontier_hint(), 0);
}

#[test]
fn vertex_too_large_for_any_store_is_refused() {
    let r = AdjacencyStore::<u64>::from_edges(&vec![(0, 1), (u64::MAX, 0)]);
    assert_eq!(r.unwrap_err(), GraphError::VertexOutOfRange);
    let r = SimpleGraph::<u64>::from_edges(&vec![(0, u64::MAX)]);
    assert_eq!(r.unwrap_err(), GraphError::VertexOutOfRange);
    let r = SimpleGraph::<u64>::from_edges(&vec![(0, (usize::MAX / 8) as u64)]);
    assert_eq!(r.unwrap_err(), GraphError::VertexOutOfRange);
}

#[test]
fn a_copy_of_a_store_holds_the_same_rows() {
    let store = AdjacencyStore::<u8>::from_edges(&vec![(1, 2), (1, 0), (2, 2)]).unwrap();
    let copy = store.clone();
    assert_eq!(copy.dimension(), 3);
    assert_eq!(copy.arc_count(), 3);
    for v in 0..3u8 {
        assert_eq!(copy.neighbors(v).unwrap(), store.neighbors(v).unwrap());
    }
}

#[test]
fn sparse_vertex_numbers_keep_their_slots() {
    let g = SimpleGraph::<u32>::from_edges(&vec![(100_000, 7)]).unwrap();
    assert_eq!(g.forward().dimension(), 100_001);
    assert_eq!(g.forward().arc_count(), 1);
    assert_eq!(g.forward().neighbors(100_000).unwrap().to_vec(), vec![7]);
    assert_eq!(g.backward().neighbors(7).unwrap().to_vec(), vec![100_000]);
    let levels = g.bfs(100_000).unwrap();
    assert_eq!(levels[7], 1);
    assert_eq!(levels[8], u32::MAX);
}
