use rustgraph::frontier::sort_frontier;
use rustgraph::traits::{Graph, NodeID};
use rustgraph::GraphError;
use rustgraph::SimpleGraph;

fn sample() -> SimpleGraph<u32> {
    SimpleGraph::from_edges(&vec![(0, 1), (1, 2), (2, 3), (0, 3), (3, 4)]).unwrap()
}

#[test]
fn counts_of_the_five_vertex_graph() {
    let g = sample();
    assert_eq!(g.nv(), 5);
    assert_eq!(g.ne(), 5);
}

#[test]
fn out_neighbors_and_degrees() {
    let g = sample();
    assert_eq!(g.outneighbors(0).unwrap().to_vec(), vec![1, 3]);
    assert_eq!(g.outneighbors(3).unwrap().to_vec(), vec![4]);
    assert_eq!(g.outneighbors(4).unwrap().to_vec(), Vec::<u32>::new());
    assert_eq!(g.degree(0).unwrap(), 2);
    assert_eq!(g.degree(1).unwrap(), 1);
    assert_eq!(g.degree(4).unwrap(), 0);
    assert_eq!(g.outneighbors(5).unwrap_err(), GraphError::InvalidDegreeQuery);
    assert_eq!(g.degree(5).unwrap_err(), GraphError::InvalidDegreeQuery);
}

#[test]
fn repeated_edges_are_counted() {
    let g = SimpleGraph::<u8>::from_edges(&vec![(1, 2), (1, 2), (1, 2), (2, 2)]).unwrap();
    assert_eq!(g.nv(), 3);
    assert_eq!(g.ne(), 4);
    assert_eq!(g.degree(1).unwrap(), 3);
    assert_eq!(g.degree(2).unwrap(), 1);
    assert_eq!(g.degree(0).unwrap(), 0);
}

#[test]
fn summary_of_a_graph() {
    assert_eq!(sample().summary(), "(5, 5) Graph");
    let empty = SimpleGraph::<u32>::from_edges(&vec![]).unwrap();
    assert_eq!(empty.summary(), "(0, 0) Graph");
    let wide = SimpleGraph::<u16>::from_edges(&vec![(1234, 0), (7, 7), (7, 7)]).unwrap();
    assert_eq!(wide.summary(), "(1235, 3) Graph");
    let full = SimpleGraph::<u8>::from_edges(&vec![(255, 0)]).unwrap();
    assert_eq!(full.summary(), "(256, 1) Graph");
}

#[test]
fn a_copy_of_a_graph_answers_the_same() {
    let g = sample();
    let h = g.clone();
    assert_eq!(h.nv(), g.nv());
    assert_eq!(h.ne(), g.ne());
    for v in 0..5u32 {
        assert_eq!(h.outneighbors(v).unwrap(), g.outneighbors(v).unwrap());
        assert_eq!(h.backward().neighbors(v).unwrap(), g.backward().neighbors(v).unwrap());
        assert_eq!(h.bfs(v).unwrap(), g.bfs(v).unwrap());
    }
}

#[test]
fn frontiers_are_sorted_by_vertex_number() {
    let mut f: Vec<u32> = vec![3, 1, 2];
    sort_frontier(&mut f);
    assert_eq!(f, vec![1, 2, 3]);
    let mut f: Vec<u64> = vec![9, 0, 9, 4, u64::MAX, 4, 1];
    sort_frontier(&mut f);
    assert_eq!(f, vec![0, 1, 4, 4, 9, 9, u64::MAX]);
    let mut f: Vec<u8> = Vec::new();
    sort_frontier(&mut f);
    assert_eq!(f, Vec::<u8>::new());
}

#[test]
fn identifier_constants() {
    assert_eq!(<u8 as NodeID>::zero(), 0);
    assert_eq!(<u8 as NodeID>::one(), 1);
    assert_eq!(<u8 as NodeID>::max_value(), 255);
    assert_eq!(<u16 as NodeID>::max_value(), 65535);
    assert_eq!(<u32 as NodeID>::max_value(), 4294967295);
    assert_eq!(<u64 as NodeID>::max_value(), 18446744073709551615);
    assert_eq!(<u64 as NodeID>::zero(), 0);
    assert_eq!(<u32 as NodeID>::one(), 1);
}

#[test]
fn identifier_conversions() {
    assert_eq!(<u8 as NodeID>::from_u128(255), Some(255));
    assert_eq!(<u8 as NodeID>::from_u128(256), None);
    assert_eq!(<u16 as NodeID>::from_u128(65535), Some(65535));
    assert_eq!(<u16 as NodeID>::from_u128(65536), None);
    assert_eq!(<u32 as NodeID>::from_u128(4294967295), Some(4294967295));
    assert_eq!(<u32 as NodeID>::from_u128(4294967296), None);
    assert_eq!(<u64 as NodeID>::from_u128(18446744073709551615), Some(u64::MAX));
    assert_eq!(<u64 as NodeID>::from_u128(18446744073709551616), None);
    assert_eq!(<u64 as NodeID>::from_u128(u128::MAX), None);
    assert_eq!(<u8 as NodeID>::from_usize(7), Some(7));
    assert_eq!(<u8 as NodeID>::from_usize(256), None);
    assert_eq!(<u16 as NodeID>::from_usize(65536), None);
    assert_eq!(<u32 as NodeID>::from_usize(70000), Some(70000));
    assert_eq!(<u64 as NodeID>::from_usize(usize::MAX), Some(usize::MAX as u64));
    assert_eq!(NodeID::to_usize(200u8), Some(200));
    assert_eq!(NodeID::to_usize(60000u16), Some(60000));
    assert_eq!(NodeID::to_usize(u32::MAX), Some(4294967295));
    assert_eq!(NodeID::to_usize(12u64), Some(12));
    assert_eq!(NodeID::to_u128(255u8), 255);
    assert_eq!(NodeID::to_u128(u64::MAX), 18446744073709551615);
}
