use fj_contracting::graphgenerator::{attach_step, ba_edgelist, GilbertSampler};
use std::collections::HashSet;

#[test]
fn ba_edgelist_rejects_too_many_edges_per_node() {
    let start = vec![(0, 1), (1, 2)];
    assert!(ba_edgelist(5, 4, &start).is_err());
}

#[test]
fn ba_edgelist_extends_start_graph() {
    let start = vec![(0, 1), (1, 2), (2, 0)];
    let n_rand = 20;
    let nu = 2;
    let edges = ba_edgelist(n_rand, nu, &start).unwrap();
    assert_eq!(edges.len(), start.len() + n_rand * nu);
    assert_eq!(&edges[..start.len()], &start[..]);
    for i in 0..n_rand {
        let base = start.len() + nu * i;
        let mut seen = HashSet::new();
        let earlier: HashSet<usize> = edges[..base].iter().flat_map(|(a, b)| [*a, *b]).collect();
        for j in 0..nu {
            let (x, y) = edges[base + j];
            assert_eq!(y, 3 + i);
            assert!(x < y);
            assert!(earlier.contains(&x));
            assert!(seen.insert(x));
        }
    }
}

#[test]
fn ba_edgelist_without_new_nodes_copies_start() {
    let start = vec![(4, 1)];
    assert_eq!(ba_edgelist(0, 3, &start), Ok(vec![(4, 1)]));
    assert_eq!(ba_edgelist(3, 0, &start), Ok(vec![(4, 1)]));
    assert_eq!(ba_edgelist(0, 0, &[]), Ok(vec![]));
}

#[test]
fn gilbert_sampler_follows_the_skips() {
    // 3 nodes: the entries off the diagonal are at 1, 2, 3, 5, 6, 7
    let mut g = GilbertSampler::new(3);
    assert!(!g.is_done());
    g.advance(0); // entry 0 off the diagonal: position 1
    g.advance(1); // entry 2: position 3
    g.advance(2); // entry 5: position 7
    assert!(!g.is_done());
    g.advance(0); // every entry has been passed
    assert!(g.is_done());
    let a = g.into_adjacency();
    assert_eq!(a, vec![false, true, false, true, false, false, false, true, false]);
}

#[test]
fn gilbert_sampler_skips_the_diagonal() {
    // 4 nodes, gaps 3 then 4: entries 3 and 8 off the diagonal, positions 4 and 11
    let mut g = GilbertSampler::new(4);
    g.advance(3);
    g.advance(4);
    g.advance(usize::MAX);
    assert!(g.is_done());
    let a = g.into_adjacency();
    let marked: Vec<usize> = (0..16).filter(|p| a[*p]).collect();
    assert_eq!(marked, vec![4, 11]);
    for i in 0..4 {
        assert!(!a[i * 4 + i]);
    }
}

#[test]
fn gilbert_sampler_with_no_gaps_is_complete_without_loops() {
    let n = 5;
    let mut g = GilbertSampler::new(n);
    while !g.is_done() {
        g.advance(0);
    }
    let a = g.into_adjacency();
    for r in 0..n {
        for c in 0..n {
            assert_eq!(a[c * n + r], r != c);
        }
    }
}

#[test]
fn gilbert_sampler_stops_on_infinite_gap() {
    let mut g = GilbertSampler::new(4);
    g.advance(usize::MAX);
    assert!(g.is_done());
    assert_eq!(g.into_adjacency(), vec![false; 16]);
}

#[test]
fn gilbert_sampler_small_graphs_are_done() {
    assert!(GilbertSampler::new(0).is_done());
    assert!(GilbertSampler::new(1).is_done());
    assert_eq!(GilbertSampler::new(1).into_adjacency(), vec![false]);
}

#[test]
fn gilbert_sampler_reports_overflowing_gaps() {
    let mut g = GilbertSampler::new(2);
    assert!(g.fits(usize::MAX));
    assert!(g.fits(usize::MAX - 1));
    g.advance(0);
    assert!(!g.fits(usize::MAX - 1));
    g.advance(0);
    // both entries off the diagonal are passed: any gap only ends the sampling
    assert!(g.fits(usize::MAX - 1));
    assert_eq!(g.into_adjacency(), vec![false, true, true, false]);
}

#[test]
fn attach_step_takes_the_drawn_free_occurrence() {
    // free occurrences before position 2, with node 0 already linked at position 2: [1, 2, 1]
    let mut edges = vec![(0, 1), (2, 1), (0, 3)];
    attach_step(&mut edges, 2, 3, 1);
    assert_eq!(edges, vec![(0, 1), (2, 1), (0, 3), (2, 3)]);
    let mut edges = vec![(0, 1), (2, 1), (0, 3)];
    attach_step(&mut edges, 2, 3, 2);
    assert_eq!(edges[3], (1, 3));
}
