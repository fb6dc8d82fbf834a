use routing::isochrone::reach_within;

fn graph(n: usize, edges: &[(usize, usize, u32)]) -> Vec<Vec<(usize, u32)>> {
    let mut adj = vec![Vec::new(); n];
    for &(from, to, weight) in edges {
        adj[from].push((to, weight));
    }
    adj
}

// Distances from `origin` by trying every edge until nothing changes.
fn distances(adj: &[Vec<(usize, u32)>], origin: usize) -> Vec<Option<u64>> {
    let mut dist: Vec<Option<u64>> = vec![None; adj.len()];
    dist[origin] = Some(0);
    let mut changed = true;
    while changed {
        changed = false;
        for u in 0..adj.len() {
            if let Some(d) = dist[u] {
                for &(v, w) in &adj[u] {
                    let through = d + u64::from(w);
                    if dist[v].map_or(true, |old| through < old) {
                        dist[v] = Some(through);
                        changed = true;
                    }
                }
            }
        }
    }
    dist
}

#[test]
fn reach_along_a_line() {
    let adj = graph(4, &[(0, 1, 10), (1, 0, 10), (1, 2, 10), (2, 1, 10), (2, 3, 10), (3, 2, 10)]);
    assert_eq!(reach_within(&adj, 0, 25, 10), vec![(0, 0), (1, 10), (2, 20)]);
    assert_eq!(reach_within(&adj, 0, 30, 10), vec![(0, 0), (1, 10), (2, 20), (3, 30)]);
    assert_eq!(reach_within(&adj, 0, 29, 10), vec![(0, 0), (1, 10), (2, 20)]);
    assert_eq!(reach_within(&adj, 3, 10, 10), vec![(3, 0), (2, 10)]);
    assert_eq!(reach_within(&adj, 0, 0, 10), vec![(0, 0)]);
}

#[test]
fn reach_takes_the_shorter_way() {
    let adj = graph(
        5,
        &[(0, 1, 100), (0, 2, 10), (2, 1, 20), (1, 3, 5), (2, 3, 200), (3, 4, 1), (4, 0, 1)],
    );
    assert_eq!(
        reach_within(&adj, 0, 1000, 10),
        vec![(0, 0), (2, 10), (1, 30), (3, 35), (4, 36)]
    );
}

#[test]
fn reach_stops_at_the_cap() {
    let adj = graph(4, &[(0, 1, 10), (1, 2, 10), (2, 3, 10)]);
    assert_eq!(reach_within(&adj, 0, 100, 0), Vec::new());
    assert_eq!(reach_within(&adj, 0, 100, 1), vec![(0, 0)]);
    assert_eq!(reach_within(&adj, 0, 100, 3), vec![(0, 0), (1, 10), (2, 20)]);
    assert_eq!(reach_within(&adj, 0, 100, 4).len(), 4);
    assert_eq!(reach_within(&adj, 0, 100, usize::MAX).len(), 4);
}

#[test]
fn reach_respects_direction() {
    let adj = graph(3, &[(0, 1, 10), (1, 2, 10)]);
    assert_eq!(reach_within(&adj, 2, 100, 10), vec![(2, 0)]);
    assert_eq!(reach_within(&adj, 1, 100, 10), vec![(1, 0), (2, 10)]);
}

#[test]
fn reach_with_edges_of_no_weight_and_loops() {
    let adj = graph(3, &[(0, 0, 5), (0, 1, 0), (1, 2, 0), (2, 0, 0), (1, 1, 0)]);
    let got = reach_within(&adj, 0, 0, 10);
    assert_eq!(got.len(), 3);
    assert_eq!(got[0], (0, 0));
    for e in got {
        assert_eq!(e.1, 0);
    }
}

#[test]
fn reach_near_the_end_of_the_range() {
    let top = u32::MAX;
    // 0 -> 1 costs one less than the largest cost, 1 -> 2 one more.
    let adj = graph(4, &[(0, 1, top - 1), (1, 2, 1), (0, 3, top)]);
    // A node at the largest cost itself counts as out of reach.
    assert_eq!(reach_within(&adj, 0, top, 10), vec![(0, 0), (1, top - 1)]);
    assert_eq!(reach_within(&adj, 0, top - 1, 10), vec![(0, 0), (1, top - 1)]);
    assert_eq!(reach_within(&adj, 0, top - 2, 10), vec![(0, 0)]);
    let adj = graph(3, &[(0, 1, top), (1, 2, top)]);
    assert_eq!(reach_within(&adj, 0, top, 10), vec![(0, 0)]);
}

#[test]
fn reach_matches_distances_on_a_scattered_graph() {
    let n = 60;
    let mut x: u32 = 2024;
    let mut next = || {
        x = x.wrapping_mul(1_103_515_245).wrapping_add(12_345);
        (x >> 8) as usize
    };
    let mut edges = Vec::new();
    for _ in 0..200 {
        let (a, b, w) = (next() % n, next() % n, (next() % 1000) as u32);
        edges.push((a, b, w));
    }
    let adj = graph(n, &edges);
    for origin in [0, 7, 59] {
        let want = distances(&adj, origin);
        for budget in [0u32, 500, 1500, 100_000] {
            let got = reach_within(&adj, origin, budget, n);
            for w in got.windows(2) {
                assert!(w[0].1 <= w[1].1);
            }
            let mut seen = vec![false; n];
            for &(node, cost) in &got {
                assert!(!seen[node]);
                seen[node] = true;
                assert_eq!(want[node], Some(u64::from(cost)));
                assert!(cost <= budget);
            }
            for v in 0..n {
                if let Some(d) = want[v] {
                    assert_eq!(seen[v], d <= u64::from(budget), "{} {} {}", origin, budget, v);
                }
            }
            // With a cap the answer is a start of the full answer, by cost.
            let cut = reach_within(&adj, origin, budget, 5);
            assert_eq!(cut.len(), got.len().min(5));
            for (c, g) in cut.iter().zip(&got) {
                assert_eq!(c.1, g.1);
            }
        }
    }
}
