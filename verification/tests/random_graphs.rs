use rustgraph::traits::Graph;
use rustgraph::SimpleGraph;
use std::collections::VecDeque;

/// A small generator of repeatable pseudo-random numbers.
struct Lcg(u64);

impl Lcg {
    fn below(&mut self, n: u32) -> u32 {
        self.0 = self.0.wrapping_mul(6364136223846793005).wrapping_add(1442695040888963407);
        ((self.0 >> 33) % n as u64) as u32
    }
}

fn random_edges(rng: &mut Lcg) -> Vec<(u16, u16)> {
    let n = 1 + rng.below(40);
    let m = rng.below(3 * n);
    let mut edges = Vec::new();
    for _ in 0..m {
        edges.push((rng.below(n) as u16, rng.below(n) as u16));
    }
    edges
}

/// The rows of a list, one vector for each vertex.
fn rows_of(edges: &[(u16, u16)], back: bool) -> Vec<Vec<u16>> {
    let n = edges.iter().map(|e| e.0.max(e.1) as usize + 1).max().unwrap_or(0);
    let mut rows = vec![Vec::new(); n];
    for &(u, v) in edges {
        if back {
            rows[v as usize].push(u);
        } else {
            rows[u as usize].push(v);
        }
    }
    rows
}

/// Distances by a search with a queue.
fn distances(rows: &[Vec<u16>], s: usize) -> Vec<u16> {
    let mut dist = vec![u16::MAX; rows.len()];
    let mut queue = VecDeque::new();
    dist[s] = 0;
    queue.push_back(s);
    while let Some(v) = queue.pop_front() {
        for &u in &rows[v] {
            if dist[u as usize] == u16::MAX {
                dist[u as usize] = dist[v] + 1;
                queue.push_back(u as usize);
            }
        }
    }
    dist
}

#[test]
fn stores_hold_the_rows_of_the_list() {
    let mut rng = Lcg(1);
    for _ in 0..300 {
        let edges = random_edges(&mut rng);
        let g = SimpleGraph::<u16>::from_edges(&edges).unwrap();
        let forward = rows_of(&edges, false);
        let backward = rows_of(&edges, true);
        assert_eq!(g.forward().dimension(), forward.len());
        assert_eq!(g.backward().dimension(), backward.len());
        assert_eq!(g.ne(), edges.len());
        assert_eq!(g.backward().arc_count(), edges.len());
        for v in 0..forward.len() {
            assert_eq!(g.outneighbors(v as u16).unwrap(), &forward[v][..]);
            assert_eq!(g.backward().neighbors(v as u16).unwrap(), &backward[v][..]);
            assert_eq!(g.degree(v as u16).unwrap() as usize, forward[v].len());
        }
    }
}

#[test]
fn levels_are_distances() {
    let mut rng = Lcg(2);
    for _ in 0..300 {
        let edges = random_edges(&mut rng);
        let rows = rows_of(&edges, false);
        let g = SimpleGraph::<u16>::from_edges(&edges).unwrap();
        for s in 0..rows.len() {
            assert_eq!(g.bfs(s as u16).unwrap(), distances(&rows, s));
        }
    }
}

#[test]
fn levels_have_parents_and_searches_repeat() {
    let mut rng = Lcg(3);
    for _ in 0..200 {
        let edges = random_edges(&mut rng);
        let g = SimpleGraph::<u16>::from_edges(&edges).unwrap();
        let n = g.forward().dimension();
        if n == 0 {
            continue;
        }
        let s = rng.below(n as u32) as u16;
        let levels = g.bfs(s).unwrap();
        assert_eq!(levels, g.bfs(s).unwrap());
        assert_eq!(levels[s as usize], 0);
        for v in 0..n {
            let k = levels[v];
            if k != u16::MAX && k > 0 {
                let parents = g.backward().neighbors(v as u16).unwrap();
                assert!(parents.iter().any(|u| levels[*u as usize] == k - 1));
            }
            if k != u16::MAX {
                // no arc skips a level
                for u in g.outneighbors(v as u16).unwrap() {
                    assert!(levels[*u as usize] <= k + 1);
                }
            }
        }
    }
}
