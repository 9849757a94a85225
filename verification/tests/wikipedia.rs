use speedytree::hybrid_nj;
use speedytree::naive_nj;
use speedytree::rapid_nj;
use speedytree::{DistanceMatrix, Tree};

fn wikipedia_distance_matrix() -> DistanceMatrix {
    DistanceMatrix::build(
        vec![
            vec![0, 5, 9, 9, 8],
            vec![5, 0, 10, 10, 9],
            vec![9, 10, 0, 8, 7],
            vec![9, 10, 8, 0, 3],
            vec![8, 9, 7, 3, 0],
        ],
        vec![
            "A".to_string(),
            "B".to_string(),
            "C".to_string(),
            "D".to_string(),
            "E".to_string(),
        ],
    )
    .unwrap()
}

fn edge_weight_f64(t: &Tree, a: usize, b: usize) -> f64 {
    let e = t.find_edge(a, b).unwrap();
    let w = t.edge_weight(e);
    w.num as f64 / w.den as f64
}

fn check_wikipedia_tree(tree: &Tree) {
    let (a, b, c, d, e) = (0, 1, 2, 3, 4);
    let u = tree.neighbors(a)[0];
    let w = tree.neighbors(e)[0];
    let v = tree.neighbors(c)[0];
    let expected = [
        (a, u, 2.0),
        (b, u, 3.0),
        (e, w, 1.0),
        (d, w, 2.0),
        (c, v, 4.0),
        (v, u, 3.0),
        (v, w, 2.0),
    ];
    for (x, y, dist) in expected.into_iter() {
        assert_eq!(edge_weight_f64(tree, x, y), dist);
    }
}

#[test]
fn test_example_wikipedia() {
    let phylo = naive_nj::naive_neighbor_joining(wikipedia_distance_matrix());
    assert!(phylo.is_ok());
    check_wikipedia_tree(&phylo.unwrap());
}

#[test]
fn algorithm_test_example_wikipedia() {
    let phylo = naive_nj::naive_neighbor_joining(wikipedia_distance_matrix());
    assert!(phylo.is_ok());
    check_wikipedia_tree(&phylo.unwrap());
}

#[test]
fn tests_test_example_wikipedia() {
    let phylo = naive_nj::naive_neighbor_joining(wikipedia_distance_matrix());
    assert!(phylo.is_ok());
    let tree = phylo.unwrap();
    assert_eq!(tree.node_count(), 8);
    assert_eq!(tree.edge_count(), 7);
    check_wikipedia_tree(&tree);
}

#[test]
fn algo_test_example_wikipedia() {
    let phylo = hybrid_nj::neighbor_joining(wikipedia_distance_matrix(), 4, 1);
    assert!(phylo.is_ok());
    check_wikipedia_tree(&phylo.unwrap());
}

#[test]
fn mod_test_example_wikipedia() {
    let phylo = hybrid_nj::neighbor_joining(wikipedia_distance_matrix(), 4, 1);
    assert!(phylo.is_ok());
    check_wikipedia_tree(&phylo.unwrap());
}

#[test]
fn rapidnj_mod_test_example_wikipedia() {
    let phylo = rapid_nj::rapid_nj(wikipedia_distance_matrix(), 1);
    assert!(phylo.is_ok());
    check_wikipedia_tree(&phylo.unwrap());
}

#[test]
fn test_find_neighbors() {
    let q = naive_nj::QMatrix::new(wikipedia_distance_matrix());
    assert_eq!(q.find_neighbors(), (0, 1));
}

#[test]
fn qmatrix_test_find_neighbors() {
    let q = rapid_nj::QMatrix::from(&wikipedia_distance_matrix());
    assert_eq!(q.find_neighbors(), (0, 1));
}

#[test]
fn test_from_distance_matrix() {
    let d = wikipedia_distance_matrix();
    let q = rapid_nj::QMatrix::from(&d);
    assert_eq!(
        q.sum_cols,
        vec![Some(31), Some(34), Some(34), Some(30), Some(27)]
    );
    assert_eq!(
        q.distances,
        vec![
            Some(vec![5, 9, 9, 8]),
            Some(vec![10, 10, 9]),
            Some(vec![8, 7]),
            Some(vec![3]),
            Some(vec![])
        ]
    );
    for i in 0..5 {
        for j in 0..5 {
            assert_eq!(q.distance(i, j), d.matrix[i][j]);
        }
    }
    let expected_one = vec![
        rapid_nj::Node::new(1, 5),
        rapid_nj::Node::new(4, 8),
        rapid_nj::Node::new(2, 9),
        rapid_nj::Node::new(3, 9),
    ];
    for (node, expected) in q.trees[0]
        .as_ref()
        .unwrap()
        .iter()
        .zip(expected_one.iter())
    {
        assert_eq!(node, expected);
    }
    assert_eq!(q.u_max, 34);
}

#[test]
fn test_update() {
    let d = wikipedia_distance_matrix();
    let mut q = rapid_nj::QMatrix::from(&d);
    q.update(0, 1).unwrap();
    // the shared denominator doubles per merge, so compare values
    let val = |num: i128, den: i128| num as f64 / den as f64;
    assert_eq!(q.den, 2);
    assert!(q.distances[0].is_none() && q.distances[1].is_none());
    assert_eq!(val(q.distance(2, 3), q.den), 8.0);
    assert_eq!(val(q.distance(2, 4), q.den), 7.0);
    assert_eq!(val(q.distance(2, 5), q.den), 7.0);
    assert_eq!(val(q.distance(3, 4), q.den), 3.0);
    assert_eq!(val(q.distance(3, 5), q.den), 7.0);
    assert_eq!(val(q.distance(4, 5), q.den), 6.0);
    assert_eq!(
        q.sum_cols.iter().map(|s| s.map(|v| v as f64 / q.den as f64)).collect::<Vec<_>>(),
        vec![None, None, Some(22.0), Some(18.0), Some(16.0), Some(20.0)]
    );
    // the running maximum of row sums tracks the update exactly
    assert_eq!(val(q.u_max, q.den), 22.0);
    // two pairs tie for the minimum criterion here; the search returns the
    // first-seen one in ascending row order, which achieves the same value
    let q_of = |q: &rapid_nj::QMatrix, i: usize, j: usize| -> f64 {
        let s = (4 - 2) as f64;
        let sum = |m: usize| q.sum_cols[m].unwrap() as f64 / q.den as f64;
        s * val(q.distance(i, j), q.den) - sum(i) - sum(j)
    };
    let pair = q.find_neighbors();
    assert!(pair == (2, 5) || pair == (3, 4));
    assert_eq!(q_of(&q, pair.0, pair.1), q_of(&q, 3, 4));
    q.update(3, 4).unwrap();
    assert!(q.distances[3].is_none() && q.distances[4].is_none());
    assert_eq!(val(q.distance(2, 5), q.den), 7.0);
    assert_eq!(val(q.distance(2, 6), q.den), 6.0);
    assert_eq!(val(q.distance(5, 6), q.den), 5.0);
    assert_eq!(q.unmerged_nodes(), vec![2, 5, 6]);
}

#[test]
fn test_new() {
    let tree = naive_nj::PhyloTree::build(&vec![
        "A".to_string(),
        "B".to_string(),
        "C".to_string(),
        "D".to_string(),
    ]);
    assert_eq!(tree.tree.node_count(), 4);
    assert_eq!(tree.tree.edge_count(), 0);
}
