use rand::Rng;
use speedytree::hybrid_nj;
use speedytree::naive_nj;
use speedytree::rapid_nj;
use speedytree::{DistanceMatrix, Tree};
use std::collections::{HashMap, HashSet};

/// A plain weighted tree used as the oracle: labels per vertex (leaves
/// non-empty), undirected edges with weights in sixteenths.
struct Oracle {
    labels: Vec<String>,
    edges: Vec<(usize, usize, i64)>,
}

/// A random unrooted binary tree on `n` labelled leaves, edge weights in
/// [0.125, 100] in steps of one sixteenth, built by repeatedly subdividing
/// a random edge with a fresh leaf.
fn random_unrooted_binary_tree(n: usize, rng: &mut impl Rng) -> Oracle {
    assert!(n >= 3);
    let mut labels: Vec<String> = (0..n).map(|i| format!("L{}", i)).collect();
    let mut w = |rng: &mut dyn rand::RngCore| -> i64 { rng.gen_range(2..=1600) };
    let c = labels.len();
    labels.push(String::new());
    let mut edges: Vec<(usize, usize, i64)> = vec![
        (c, 0, w(rng)),
        (c, 1, w(rng)),
        (c, 2, w(rng)),
    ];
    for leaf in 3..n {
        let pick = rng.gen_range(0..edges.len());
        let (u, v, _) = edges.swap_remove(pick);
        let m = labels.len();
        labels.push(String::new());
        edges.push((u, m, w(rng)));
        edges.push((m, v, w(rng)));
        edges.push((m, leaf, w(rng)));
    }
    Oracle { labels, edges }
}

/// The patristic distance matrix of the oracle, exactly in sixteenths.
fn distance_matrix_from_tree(t: &Oracle) -> DistanceMatrix {
    let nv = t.labels.len();
    let n = t.labels.iter().filter(|l| !l.is_empty()).count();
    let mut adj: Vec<Vec<(usize, i64)>> = vec![Vec::new(); nv];
    for &(a, b, w) in &t.edges {
        adj[a].push((b, w));
        adj[b].push((a, w));
    }
    let mut matrix: Vec<Vec<i128>> = Vec::new();
    for i in 0..n {
        let mut dist: Vec<Option<i64>> = vec![None; nv];
        let mut queue = vec![i];
        dist[i] = Some(0);
        while let Some(x) = queue.pop() {
            let dx = dist[x].unwrap();
            for &(y, w) in &adj[x] {
                if dist[y].is_none() {
                    dist[y] = Some(dx + w);
                    queue.push(y);
                }
            }
        }
        matrix.push((0..n).map(|j| dist[j].unwrap() as i128).collect());
    }
    let names = (0..n).map(|i| t.labels[i].clone()).collect();
    DistanceMatrix::build_scaled(matrix, names, 16).unwrap()
}

/// The weighted bipartitions of a tree given as labels plus edges: each
/// edge maps to the set of leaf labels on the side away from leaf zero's
/// label, with the edge's weight.
fn splits(labels: &[String], edges: &[(usize, usize, f64)]) -> HashMap<Vec<String>, f64> {
    let nv = labels.len();
    let mut adj: Vec<Vec<(usize, usize)>> = vec![Vec::new(); nv];
    for (e, &(a, b, _)) in edges.iter().enumerate() {
        adj[a].push((b, e));
        adj[b].push((a, e));
    }
    let ref_label = labels
        .iter()
        .filter(|l| !l.is_empty())
        .min()
        .unwrap()
        .clone();
    let mut out = HashMap::new();
    for (e, &(a, _b, w)) in edges.iter().enumerate() {
        // leaves reachable from `a` without crossing edge `e`
        let mut seen = vec![false; nv];
        seen[a] = true;
        let mut queue = vec![a];
        while let Some(x) = queue.pop() {
            for &(y, ey) in &adj[x] {
                if ey != e && !seen[y] {
                    seen[y] = true;
                    queue.push(y);
                }
            }
        }
        let mut side: Vec<String> = (0..nv)
            .filter(|&v| seen[v] && !labels[v].is_empty())
            .map(|v| labels[v].clone())
            .collect();
        let on_side = side.contains(&ref_label);
        if on_side {
            side = (0..nv)
                .filter(|&v| !seen[v] && !labels[v].is_empty())
                .map(|v| labels[v].clone())
                .collect();
        }
        side.sort();
        out.insert(side, w);
    }
    out
}

fn oracle_splits(t: &Oracle) -> HashMap<Vec<String>, f64> {
    let edges: Vec<(usize, usize, f64)> = t
        .edges
        .iter()
        .map(|&(a, b, w)| (a, b, w as f64 / 16.0))
        .collect();
    splits(&t.labels, &edges)
}

fn tree_splits(t: &Tree) -> HashMap<Vec<String>, f64> {
    let labels: Vec<String> = (0..t.node_count())
        .map(|v| t.node_label(v).clone())
        .collect();
    let edges: Vec<(usize, usize, f64)> = (0..t.edge_count())
        .map(|e| {
            let (a, b) = t.edge_endpoints(e);
            let w = t.edge_weight(e);
            (a, b, w.num as f64 / w.den as f64)
        })
        .collect();
    splits(&labels, &edges)
}

fn robinson_foulds(a: &HashMap<Vec<String>, f64>, b: &HashMap<Vec<String>, f64>) -> usize {
    let ka: HashSet<&Vec<String>> = a.keys().collect();
    let kb: HashSet<&Vec<String>> = b.keys().collect();
    ka.symmetric_difference(&kb).count()
}

fn branch_score(a: &HashMap<Vec<String>, f64>, b: &HashMap<Vec<String>, f64>) -> f64 {
    let mut keys: HashSet<&Vec<String>> = a.keys().collect();
    keys.extend(b.keys());
    keys.iter()
        .map(|k| {
            let wa = a.get(*k).copied().unwrap_or(0.0);
            let wb = b.get(*k).copied().unwrap_or(0.0);
            (wa - wb) * (wa - wb)
        })
        .sum()
}

fn assert_equal_tree(original: &Oracle, tree: &Tree) {
    let sa = oracle_splits(original);
    let sb = tree_splits(tree);
    assert_eq!(robinson_foulds(&sa, &sb), 0);
    assert!(branch_score(&sa, &sb) < f64::EPSILON);
}

#[test]
fn test_random_additive_binary_trees() {
    let mut rng = rand::thread_rng();
    for i in 4..50 {
        let original_tree = random_unrooted_binary_tree(i, &mut rng);
        let d = distance_matrix_from_tree(&original_tree);
        let tree = naive_nj::naive_neighbor_joining(d).unwrap();
        assert_eq!(
            robinson_foulds(&oracle_splits(&original_tree), &tree_splits(&tree)),
            0
        );
    }
}

#[test]
fn tests_test_random_additive_binary_trees() {
    let mut rng = rand::thread_rng();
    for i in 4..50 {
        let original_tree = random_unrooted_binary_tree(i, &mut rng);
        let d = distance_matrix_from_tree(&original_tree);
        let tree = naive_nj::naive_neighbor_joining(d).unwrap();
        assert_eq!(
            robinson_foulds(&oracle_splits(&original_tree), &tree_splits(&tree)),
            0
        );
    }
}

#[test]
fn test_random_additive_binary_trees_naive() {
    let mut rng = rand::thread_rng();
    for i in 4..20 {
        let original_tree = random_unrooted_binary_tree(i, &mut rng);
        let d = distance_matrix_from_tree(&original_tree);
        let tree = naive_nj::naive_neighbor_joining(d).unwrap();
        assert_equal_tree(&original_tree, &tree);
    }
}

#[test]
fn test_random_additive_binary_trees_rapid() {
    let mut rng = rand::thread_rng();
    for i in 4..20 {
        let original_tree = random_unrooted_binary_tree(i, &mut rng);
        let d = distance_matrix_from_tree(&original_tree);
        let chunk_size = rng.gen_range(1..=i + 1);
        let tree = rapid_nj::rapid_nj(d, chunk_size).unwrap();
        assert_equal_tree(&original_tree, &tree);
    }
}

#[test]
fn test_random_additive_binary_trees_mix() {
    let mut rng = rand::thread_rng();
    for i in (25..100).step_by(25) {
        let original_tree = random_unrooted_binary_tree(i, &mut rng);
        let d = distance_matrix_from_tree(&original_tree);
        for _ in 0..5 {
            // the switch point must lie strictly inside (0, N)
            let naive_steps = rng.gen_range(1..i);
            let chunk_size = rng.gen_range(1..=i + 1);
            let tree = hybrid_nj::neighbor_joining(d.clone(), naive_steps, chunk_size).unwrap();
            assert_equal_tree(&original_tree, &tree);
        }
    }
}

#[test]
fn scenario_random_additive_twenty_taxa() {
    let mut rng = rand::thread_rng();
    let original_tree = random_unrooted_binary_tree(20, &mut rng);
    let d = distance_matrix_from_tree(&original_tree);
    let canonical = naive_nj::naive_neighbor_joining(d.clone()).unwrap();
    assert_equal_tree(&original_tree, &canonical);
    let pruned = rapid_nj::rapid_nj(d.clone(), 3).unwrap();
    assert_equal_tree(&original_tree, &pruned);
    for iters in [4, 10, 16] {
        let hybrid = hybrid_nj::neighbor_joining(d.clone(), iters, 2).unwrap();
        assert_equal_tree(&original_tree, &hybrid);
    }
}

#[test]
fn scenario_permutation_invariance() {
    let mut rng = rand::thread_rng();
    let original_tree = random_unrooted_binary_tree(12, &mut rng);
    let d = distance_matrix_from_tree(&original_tree);
    let n = d.matrix.len();
    // a random permutation of the taxa
    let mut perm: Vec<usize> = (0..n).collect();
    for i in (1..n).rev() {
        let j = rng.gen_range(0..=i);
        perm.swap(i, j);
    }
    let pmatrix: Vec<Vec<i128>> = (0..n)
        .map(|i| (0..n).map(|j| d.matrix[perm[i]][perm[j]]).collect())
        .collect();
    let pnames: Vec<String> = (0..n).map(|i| d.names[perm[i]].clone()).collect();
    let pd = DistanceMatrix::build_scaled(pmatrix, pnames, 16).unwrap();
    let t1 = naive_nj::naive_neighbor_joining(d).unwrap();
    let t2 = naive_nj::naive_neighbor_joining(pd).unwrap();
    // as labelled weighted trees the two results coincide
    let s1 = tree_splits(&t1);
    let s2 = tree_splits(&t2);
    assert_eq!(robinson_foulds(&s1, &s2), 0);
    assert!(branch_score(&s1, &s2) < f64::EPSILON);
}
