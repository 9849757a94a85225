use rand::Rng;
use speedytree::bin;
use speedytree::configuration;
use speedytree::hybrid_nj;
use speedytree::naive_nj;
use speedytree::rapid_nj;
use speedytree::{
    read_phylip_distance_matrix, Algorithm, Canonical, DistanceMatrix, Hybrid,
    NeighborJoiningSolver, RapidBtrees, Tree,
};

fn edge_weight_f64(t: &Tree, a: usize, b: usize) -> f64 {
    let e = t.find_edge(a, b).unwrap();
    let w = t.edge_weight(e);
    w.num as f64 / w.den as f64
}

#[test]
fn scenario_three_taxon_closing() {
    let d = DistanceMatrix::build(
        vec![vec![0, 1, 2], vec![1, 0, 3], vec![2, 3, 0]],
        vec!["A".to_string(), "B".to_string(), "C".to_string()],
    )
    .unwrap();
    let tree = naive_nj::naive_neighbor_joining(d).unwrap();
    assert_eq!(tree.node_count(), 4);
    assert_eq!(tree.edge_count(), 3);
    let v = 3;
    assert_eq!(edge_weight_f64(&tree, v, 0), 0.0);
    assert_eq!(edge_weight_f64(&tree, v, 1), 1.0);
    assert_eq!(edge_weight_f64(&tree, v, 2), 2.0);
}

fn square(n: usize, vals: Vec<i128>) -> DistanceMatrix {
    let matrix: Vec<Vec<i128>> = (0..n).map(|i| vals[i * n..(i + 1) * n].to_vec()).collect();
    let names = (0..n).map(|i| format!("T{}", i)).collect();
    DistanceMatrix::build(matrix, names).unwrap()
}

#[test]
fn scenario_config_rejection() {
    let d = square(4, vec![0, 1, 2, 3, 1, 0, 4, 5, 2, 4, 0, 6, 3, 5, 6, 0]);
    // a zero chunk size is a configuration error
    let r = rapid_nj::rapid_nj(d.clone(), 0);
    assert!(r.unwrap_err().is_config_invalid());
    let r = hybrid_nj::neighbor_joining(d.clone(), 2, 0);
    assert!(r.unwrap_err().is_config_invalid());
    // a canonical switch point of zero or N is a configuration error
    let r = hybrid_nj::neighbor_joining(d.clone(), 0, 1);
    assert!(r.unwrap_err().is_config_invalid());
    let r = hybrid_nj::neighbor_joining(d.clone(), 4, 1);
    assert!(r.unwrap_err().is_config_invalid());
    // two taxa are too few
    let tiny = square(2, vec![0, 1, 1, 0]);
    let r = naive_nj::naive_neighbor_joining(tiny);
    assert!(r.unwrap_err().is_input_invalid());
    // an asymmetric or negative matrix is rejected
    let bad = square(3, vec![0, 1, 2, 1, 0, 3, 2, 4, 0]);
    assert!(naive_nj::naive_neighbor_joining(bad).unwrap_err().is_input_invalid());
    let neg = square(3, vec![0, -1, 2, -1, 0, 3, 2, 3, 0]);
    assert!(naive_nj::naive_neighbor_joining(neg).unwrap_err().is_input_invalid());
}

/// The Q-criterion over the input matrix, as the specification states it.
fn q_of(d: &DistanceMatrix, i: usize, j: usize) -> i128 {
    let n = d.matrix.len();
    let s: i128 = (n - 2) as i128;
    let sum = |r: usize| -> i128 { d.matrix[r].iter().sum() };
    s * d.matrix[i][j] - sum(i) - sum(j)
}

#[test]
fn scenario_pruned_equals_canonical() {
    let mut rng = rand::thread_rng();
    for _ in 0..20 {
        let n: usize = rng.gen_range(4..=50);
        let mut matrix = vec![vec![0i128; n]; n];
        for i in 0..n {
            for j in (i + 1)..n {
                let v: i128 = rng.gen_range(1..=1_000_000);
                matrix[i][j] = v;
                matrix[j][i] = v;
            }
        }
        let names = (0..n).map(|i| format!("T{}", i)).collect();
        let d = DistanceMatrix::build(matrix, names).unwrap();
        let cq = naive_nj::QMatrix::new(d.clone());
        let (ci, cj) = cq.find_neighbors();
        let mut pq = rapid_nj::QMatrix::from(&d);
        let chunk: usize = rng.gen_range(1..=n);
        pq.set_chunk_size(chunk);
        let (pi, pj) = pq.find_neighbors();
        // both searches achieve the one global minimum of the criterion
        assert_eq!(q_of(&d, ci, cj), q_of(&d, pi, pj));
    }
}

#[test]
fn scenario_six_primates() {
    let input = "6
Mouse     0.0000 1.5232 1.4841 1.4465 1.4389 1.4629
Gibbon    1.5232 0.0000 0.7115 0.5958 0.6179 0.5583
Orang     1.4841 0.7115 0.0000 0.4631 0.5061 0.4710
Gorilla   1.4465 0.5958 0.4631 0.0000 0.3484 0.3083
Chimp     1.4389 0.6179 0.5061 0.3484 0.0000 0.2692
Human     1.4629 0.5583 0.4710 0.3083 0.2692 0.0000
"
    .as_bytes();
    let d = read_phylip_distance_matrix(input).unwrap();
    let input_f64: Vec<Vec<f64>> = d
        .matrix
        .iter()
        .map(|row| row.iter().map(|v| *v as f64 / d.den as f64).collect())
        .collect();
    let tree = naive_nj::naive_neighbor_joining(d).unwrap();
    // recovered patristic distances agree with the input
    let n = 6;
    let nv = tree.node_count();
    let mut adj: Vec<Vec<(usize, f64)>> = vec![Vec::new(); nv];
    for e in 0..tree.edge_count() {
        let (a, b) = tree.edge_endpoints(e);
        let w = tree.edge_weight(e);
        let wf = w.num as f64 / w.den as f64;
        adj[a].push((b, wf));
        adj[b].push((a, wf));
    }
    for i in 0..n {
        let mut dist: Vec<Option<f64>> = vec![None; nv];
        dist[i] = Some(0.0);
        let mut queue = vec![i];
        while let Some(x) = queue.pop() {
            let dx = dist[x].unwrap();
            for &(y, w) in &adj[x] {
                if dist[y].is_none() {
                    dist[y] = Some(dx + w);
                    queue.push(y);
                }
            }
        }
        for j in 0..n {
            // the published matrix is not exactly additive, so recovery
            // is only approximate; the topology check below is exact
            assert!((dist[j].unwrap() - input_f64[i][j]).abs() < 5e-2);
        }
    }
    // the topology is the nested chain of ape clades
    let names = ["Mouse", "Gibbon", "Orang", "Gorilla", "Chimp", "Human"];
    let mut clades: Vec<Vec<&str>> = Vec::new();
    for e in 0..tree.edge_count() {
        let (a, _b) = tree.edge_endpoints(e);
        let mut seen = vec![false; nv];
        seen[a] = true;
        let mut queue = vec![a];
        while let Some(x) = queue.pop() {
            for ee in 0..tree.edge_count() {
                if ee == e {
                    continue;
                }
                let (u, v) = tree.edge_endpoints(ee);
                if u == x && !seen[v] {
                    seen[v] = true;
                    queue.push(v);
                } else if v == x && !seen[u] {
                    seen[u] = true;
                    queue.push(u);
                }
            }
        }
        let mut side: Vec<&str> = (0..n).filter(|&l| seen[l]).map(|l| names[l]).collect();
        if side.contains(&"Mouse") {
            side = (0..n).filter(|&l| !seen[l]).map(|l| names[l]).collect();
        }
        side.sort();
        clades.push(side);
    }
    assert!(clades.contains(&vec!["Chimp", "Human"]));
    assert!(clades.contains(&vec!["Chimp", "Gorilla", "Human"]));
    assert!(clades.contains(&vec!["Chimp", "Gorilla", "Human", "Orang"]));
}

#[test]
fn solver_canonical_wikipedia() {
    let d = square_wiki();
    let tree = NeighborJoiningSolver::<Canonical>::default(d).solve().unwrap();
    assert_eq!(tree.node_count(), 8);
    assert_eq!(tree.edge_count(), 7);
}

#[test]
fn solver_rapid_and_hybrid() {
    let d = square_wiki();
    let t1 = NeighborJoiningSolver::<Canonical>::default(d.clone()).solve().unwrap();
    let t2 = NeighborJoiningSolver::<RapidBtrees>::default(d.clone())
        .set_chunk_size(4)
        .solve()
        .unwrap();
    let t3 = NeighborJoiningSolver::<Hybrid>::default(d.clone())
        .set_canonical_steps(2)
        .solve()
        .unwrap();
    for t in [&t1, &t2, &t3] {
        assert_eq!(t.node_count(), 8);
        assert_eq!(t.edge_count(), 7);
        assert_eq!(t.node_label(0), "A");
        assert_eq!(t.node_label(4), "E");
    }
}

fn square_wiki() -> DistanceMatrix {
    DistanceMatrix::build(
        vec![
            vec![0, 5, 9, 9, 8],
            vec![5, 0, 10, 10, 9],
            vec![9, 10, 0, 8, 7],
            vec![9, 10, 8, 0, 3],
            vec![8, 9, 7, 3, 0],
        ],
        vec![
            "A".to_string(),
            "B".to_string(),
            "C".to_string(),
            "D".to_string(),
            "E".to_string(),
        ],
    )
    .unwrap()
}

#[test]
fn config_build_selects_algorithm() {
    let args = bin::Args {
        rapidnj: false,
        naive: true,
        hybrid: false,
        cores: 2,
        chunk_size: 30,
        naive_percentage: 90,
    };
    let c = bin::Config::build(args).unwrap();
    assert!(matches!(c.algo, Algorithm::Naive));
    assert_eq!(c.threads, 2);
    let args = configuration::Args {
        rapidnj: true,
        naive: false,
        hybrid: false,
        cores: 1,
        chunk_size: 30,
        naive_percentage: 90,
    };
    let c = configuration::Config::build(args).unwrap();
    assert!(matches!(c.algo, Algorithm::RapidNJ));
    let args = configuration::Args {
        rapidnj: false,
        naive: false,
        hybrid: false,
        cores: 1,
        chunk_size: 30,
        naive_percentage: 90,
    };
    let c = configuration::Config::build(args).unwrap();
    assert!(matches!(c.algo, Algorithm::Hybrid));
}

#[test]
fn config_build_rejects_bad_options() {
    let base = bin::Args {
        rapidnj: false,
        naive: false,
        hybrid: true,
        cores: 1,
        chunk_size: 0,
        naive_percentage: 90,
    };
    assert!(bin::Config::build(base).unwrap_err().is_config_invalid());
    let base = bin::Args {
        rapidnj: false,
        naive: false,
        hybrid: true,
        cores: 1,
        chunk_size: 30,
        naive_percentage: 0,
    };
    assert!(bin::Config::build(base).unwrap_err().is_config_invalid());
    let base = configuration::Args {
        rapidnj: false,
        naive: false,
        hybrid: true,
        cores: 1,
        chunk_size: 30,
        naive_percentage: 100,
    };
    assert!(configuration::Config::build(base).unwrap_err().is_config_invalid());
}
