use nekolib::flow::dinic;
use nekolib::hld::Hld;
use nekolib::scc::scc;
use nekolib::dijkstra::DijkstraSssp;
use nekolib::sssp::Sssp;

#[test]
fn dijkstra_sanity_check() {
    let g: Vec<Vec<(usize, u64)>> = vec![vec![(1, 10), (2, 15)], vec![(2, 10)], vec![], vec![]];

    let sssp = DijkstraSssp::new(0, 4, &g);
    assert_eq!(sssp.cost(&0), Some(0));
    assert_eq!(sssp.cost(&1), Some(10));
    assert_eq!(sssp.cost(&2), Some(15));
    assert_eq!(sssp.cost(&3), None);

    assert_eq!(sssp.path(&0), [0]);
    assert_eq!(sssp.path(&1), [0, 1]);
    assert_eq!(sssp.path(&2), [0, 2]);
    assert_eq!(sssp.path(&3), Vec::<usize>::new());
}

#[test]
fn dijkstra_multi_edges_and_zero_costs() {
    // two edges 0 -> 1, the cheaper one second; a free edge 1 -> 2
    let g: Vec<Vec<(usize, u64)>> = vec![vec![(1, 7), (1, 3)], vec![(2, 0), (0, 1)], vec![(1, 5)]];
    let sssp = DijkstraSssp::new(0, 3, &g);
    assert_eq!(sssp.cost(&1), Some(3));
    assert_eq!(sssp.cost(&2), Some(3));
    assert_eq!(sssp.path(&2), [0, 1, 2]);
    // from another source
    let sssp = DijkstraSssp::new(2, 3, &g);
    assert_eq!(sssp.cost(&0), Some(6));
    assert_eq!(sssp.path(&0), [2, 1, 0]);
}

fn bellman_ford(g: &Vec<Vec<(usize, u64)>>, src: usize) -> Vec<Option<u64>> {
    let n = g.len();
    let mut d = vec![None; n];
    d[src] = Some(0u64);
    for _ in 0..n {
        for u in 0..n {
            if let Some(du) = d[u] {
                for &(v, w) in &g[u] {
                    if d[v].map_or(true, |dv| du + w < dv) {
                        d[v] = Some(du + w);
                    }
                }
            }
        }
    }
    d
}

#[test]
fn dijkstra_matches_bellman_ford() {
    let mut x: u64 = 12345;
    let mut next = || {
        x = x.wrapping_mul(6364136223846793005).wrapping_add(1442695040888963407);
        x >> 33
    };
    for n in 1..12usize {
        for _ in 0..20 {
            let mut g: Vec<Vec<(usize, u64)>> = vec![vec![]; n];
            let m = (next() % (3 * n as u64 + 1)) as usize;
            for _ in 0..m {
                let u = (next() % n as u64) as usize;
                let v = (next() % n as u64) as usize;
                let w = next() % 10;
                g[u].push((v, w));
            }
            for src in 0..n {
                let sssp = DijkstraSssp::new(src, n, &g);
                let want = bellman_ford(&g, src);
                for v in 0..n {
                    assert_eq!(sssp.cost(&v), want[v]);
                    let p = sssp.path(&v);
                    match want[v] {
                        None => assert!(p.is_empty()),
                        Some(d) => {
                            assert_eq!(p[0], src);
                            assert_eq!(*p.last().unwrap(), v);
                            // the path costs exactly the distance
                            let mut c = 0;
                            for k in 0..p.len() - 1 {
                                let best = g[p[k]]
                                    .iter()
                                    .filter(|&&(h, _)| h == p[k + 1])
                                    .map(|&(_, w)| w)
                                    .min()
                                    .unwrap();
                                c += best;
                            }
                            assert_eq!(c, d);
                        }
                    }
                }
            }
        }
    }
}

#[test]
fn scc_numbers_components_in_topological_order() {
    let g: Vec<Vec<usize>> = vec![
        vec![1],
        vec![2, 3],
        vec![4],
        vec![5, 9],
        vec![0],
        vec![6],
        vec![7],
        vec![8],
        vec![5, 6],
        vec![],
    ];
    assert_eq!(scc(&g), vec![0, 0, 0, 1, 0, 3, 3, 3, 3, 2]);
}

#[test]
fn scc_small_graphs() {
    let empty: Vec<Vec<usize>> = vec![];
    assert_eq!(scc(&empty), Vec::<usize>::new());
    assert_eq!(scc(&vec![vec![0]]), vec![0]);
    // 1 -> 0: vertex 1 is reached by fewer vertices, so it comes first
    assert_eq!(scc(&vec![vec![], vec![0]]), vec![1, 0]);
    // a cycle through all vertices is one component
    assert_eq!(scc(&vec![vec![1], vec![2], vec![0]]), vec![0, 0, 0]);
    // no edges: components ordered by their vertex
    assert_eq!(scc(&vec![vec![], vec![], vec![]]), vec![0, 1, 2]);
}

#[test]
fn hld_lowest_common_ancestors() {
    //        0
    //      /   \
    //     1     2
    //    / \     \
    //   3   4     5
    let g: Vec<Vec<usize>> = vec![vec![1, 2], vec![3, 4], vec![5], vec![], vec![], vec![]];
    let h = Hld::new(g, 0);
    assert_eq!(h.lca(3, 4), 1);
    assert_eq!(h.lca(3, 5), 0);
    assert_eq!(h.lca(4, 1), 1);
    assert_eq!(h.lca(5, 5), 5);
    assert_eq!(h.lca(2, 5), 2);
    assert_eq!(h.lca(0, 3), 0);
}

#[test]
fn hld_other_root() {
    // 2 -> 0 -> 1, 2 -> 3
    let g: Vec<Vec<usize>> = vec![vec![1], vec![], vec![0, 3], vec![]];
    let h = Hld::new(g, 2);
    assert_eq!(h.lca(1, 3), 2);
    assert_eq!(h.lca(1, 0), 0);
    assert_eq!(h.lca(2, 1), 2);
}

fn residual(n: usize, es: &[(usize, usize, u64)]) -> Vec<Vec<(usize, u64, usize)>> {
    let mut g: Vec<Vec<(usize, u64, usize)>> = vec![vec![]; n];
    for &(from, to, capacity) in es {
        let from_len = g[from].len();
        let to_len = g[to].len();
        g[from].push((to, capacity, to_len));
        g[to].push((from, 0, from_len));
    }
    g
}

#[test]
fn dinic_doc_example() {
    let es = vec![
        (0, 1, 10),
        (0, 2, 10),
        (1, 2, 2),
        (1, 3, 4),
        (1, 4, 8),
        (2, 4, 9),
        (3, 5, 10),
        (4, 3, 6),
        (4, 5, 10),
    ];
    let mut g = residual(6, &es);
    assert_eq!(dinic(&mut g, 0, 5), 19);
    // nothing more can flow
    assert_eq!(dinic(&mut g, 0, 5), 0);
}

#[test]
fn dinic_misawa_hack() {
    let n = 500;
    let (s, a, b, c, t) = (0, 1, 2, 3, 4);
    let mut uv = (5, 6);
    let mut es = vec![(s, a, 1), (s, b, 2), (b, a, 2), (c, t, 2), (a, uv.0, 3), (a, uv.1, 3)];
    while uv.1 + 2 < n {
        let nuv = (uv.0 + 2, uv.1 + 2);
        for &x in &[uv.0, uv.1] {
            for &y in &[nuv.0, nuv.1] {
                es.push((x, y, 3));
            }
        }
        uv = nuv;
    }
    es.push((uv.0, c, 3));
    es.push((uv.1, c, 3));
    let mut g = residual(n, &es);
    let flow = dinic(&mut g, s, t);
    assert_eq!(flow, 2);
}

#[test]
fn dinic_disconnected_and_reverse() {
    let mut g = residual(3, &[(0, 1, 5)]);
    assert_eq!(dinic(&mut g, 0, 2), 0);
    // flow can be pushed back along a used edge
    let mut g = residual(2, &[(0, 1, 5)]);
    assert_eq!(dinic(&mut g, 0, 1), 5);
    assert_eq!(dinic(&mut g, 1, 0), 5);
}
