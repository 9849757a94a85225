use vstd::prelude::*;

use crate::distances::DistanceMatrix;
use crate::errors::NjError;
use crate::naive_nj::matrix::{
    lemma_guarantee_step, pow2, pow3, QMatrix,
};
use crate::naive_nj::phylo_tree::{
    appears, injective, lemma_merge_membership, node_after, PhyloTree,
};
use crate::ratio::Ratio;
use crate::tree::{degree, lemma_degree_push, lemma_degree_zero, Edge, Tree};

verus! {

/// The shape every strategy owes on success, for an input of `n` taxa: an
/// unrooted binary tree with `2n - 2` vertices and `2n - 3` edges, the
/// first `n` vertices labelled with the taxon names and of degree one, the
/// rest anonymous and of degree three.
pub open spec fn nj_tree_shape(t: Tree, names: Seq<String>, n: int) -> bool {
    &&& t.wf()
    &&& t.labels@.len() == 2 * n - 2
    &&& t.edges@.len() == 2 * n - 3
    &&& forall|k: int| 0 <= k < n ==> t.labels@[k] == names[k]
    &&& forall|k: int| n <= k < 2 * n - 2 ==> (#[trigger] t.labels@[k])@ == Seq::<char>::empty()
    &&& forall|k: int| 0 <= k < n ==> #[trigger] degree(t.edges@, k) == 1
    &&& forall|k: int| n <= k < 2 * n - 2 ==> #[trigger] degree(t.edges@, k) == 3
}

/// The degree every vertex holds mid-run: a vertex still active (mapped by
/// some logical row) awaits one more edge than it has; a retired leaf has
/// its single edge, a retired internal vertex its three.
pub open spec fn run_degree(nodes: Seq<usize>, n0: int, v: int) -> int {
    if appears(nodes, v) {
        if v < n0 {
            0
        } else {
            2
        }
    } else {
        if v < n0 {
            1
        } else {
            3
        }
    }
}

/// What the driver maintains between merges.
pub open spec fn driver_inv(q: QMatrix, t: PhyloTree, names: Seq<String>, n0: int) -> bool {
    &&& q.wf()
    &&& t.linked()
    &&& t.nodes@.len() == q.n()
    &&& 3 <= q.n() <= n0
    &&& n0 <= crate::distances::MAX_TAXA
    &&& names.len() == n0
    &&& t.tree.labels@.len() == n0 + (n0 - q.n())
    &&& t.tree.edges@.len() == 2 * (n0 - q.n())
    &&& forall|k: int| 0 <= k < n0 ==> t.tree.labels@[k] == names[k]
    &&& forall|k: int|
        n0 <= k < t.tree.labels@.len() ==> (#[trigger] t.tree.labels@[k])@ == Seq::<char>::empty()
    &&& forall|v: int|
        0 <= v < t.tree.labels@.len() ==> #[trigger] degree(t.tree.edges@, v) == run_degree(
            t.nodes@,
            n0,
            v,
        )
}

/// One merge step: pick the Q-minimising pair, compute the two branch
/// lengths, record the join in the tree, and compact the matrix.
pub(crate) fn merge_step(q: &mut QMatrix, t: &mut PhyloTree, names: Ghost<Seq<String>>, n0: Ghost<int>) -> (r:
    Result<(), NjError>)
    requires
        driver_inv(*old(q), *old(t), names@, n0@),
        old(q).n() > 3,
    ensures
        r is Ok ==> driver_inv(*final(q), *final(t), names@, n0@) && final(q).n() == old(q).n()
            - 1,
        r is Err ==> (r matches Err(NjError::InputInvalid(_))),
        3 * old(q).limit@ <= crate::naive_nj::matrix::CAP && 2 * old(q).den
            <= crate::naive_nj::matrix::CAP ==> r is Ok,
        r is Ok ==> final(q).den == 2 * old(q).den && final(q).limit@ == (if 3 * old(q).limit@
            <= crate::naive_nj::matrix::CAP {
            3 * old(q).limit@
        } else {
            crate::naive_nj::matrix::CAP as int
        }),
    {
    let (i, j) = q.find_neighbors();
    let (dist_ui, dist_uj) = q.new_node_distances(i, j);
    let ghost old_t = *t;
    let ghost old_edges = t.tree.edges@;
    let ghost oldn = t.nodes@;
    let ghost va = t.nodes@[i as int];
    let ghost vb = t.nodes@[j as int];
    let u = t.merge_neighbors(i, j, dist_ui, dist_uj);
    let r = q.update_distance_matrix(i, j);
    match r {
        Err(e) => Err(e),
        Ok(()) => {
            proof {
                let e1 = Edge { a: u, b: old_t.nodes@[i as int], weight: dist_ui };
                let e2 = Edge { a: u, b: old_t.nodes@[j as int], weight: dist_uj };
                assert forall|k: int|
                    0 <= k < oldn.len() implies (#[trigger] oldn[k]) != u by {}
                assert(!appears(oldn, u as int));
                lemma_merge_membership(oldn, t.nodes@, i as int, j as int, u);
                assert(va != vb);
                assert forall|k: int| 0 <= k < n0@ implies t.tree.labels@[k] == names@[k] by {
                    assert(t.tree.labels@[k] == old_t.tree.labels@[k]);
                }
                assert forall|k: int|
                    n0@ <= k < t.tree.labels@.len() implies (#[trigger] t.tree.labels@[k])@
                    == Seq::<char>::empty() by {
                    if k < old_t.tree.labels@.len() {
                        assert(t.tree.labels@[k] == old_t.tree.labels@[k]);
                    }
                }
                assert forall|v: int|
                    0 <= v < t.tree.labels@.len() implies #[trigger] degree(t.tree.edges@, v)
                    == run_degree(t.nodes@, n0@, v) by {
                    lemma_degree_push(old_edges, e1, v);
                    lemma_degree_push(old_edges.push(e1), e2, v);
                    if v == u {
                        lemma_degree_zero(old_edges, v, old_edges.len() as int);
                        assert(appears(t.nodes@, v));
                        assert(degree(t.tree.edges@, v) == 2);
                    } else if v == va || v == vb {
                        assert(!appears(t.nodes@, v));
                        assert(degree(t.tree.edges@, v) == degree(old_edges, v) + 1);
                        assert(degree(old_edges, v) == run_degree(oldn, n0@, v));
                        assert(appears(oldn, v));
                    } else {
                        assert(degree(t.tree.edges@, v) == degree(old_edges, v));
                        if v < old_t.tree.labels@.len() {
                            assert(degree(old_edges, v) == run_degree(oldn, n0@, v));
                            assert(appears(oldn, v) <==> appears(t.nodes@, v));
                        } else {
                            assert(false);
                        }
                    }
                }
            }
            Ok(())
        },
    }
}

/// Close the last three taxa: one fresh anonymous vertex `v` joined to the
/// three remaining subtrees, with the three-way formulas
/// `d(v,x) = (d(x,y) + d(x,z) - d(y,z)) / 2` as exact rationals.
pub fn terminate_nj(tree: PhyloTree, q: QMatrix) -> (t: Tree)
    requires
        q.wf(),
        q.n() == 3,
        tree.linked(),
        tree.nodes@.len() == 3,
    ensures
        t.wf(),
        t.labels@.len() == tree.tree.labels@.len() + 1,
        forall|k: int|
            0 <= k < tree.tree.labels@.len() ==> t.labels@[k] == #[trigger] tree.tree.labels@[k],
        t.labels@[tree.tree.labels@.len() as int]@ == Seq::<char>::empty(),
        t.edges@ == tree.tree.edges@.push(
            Edge {
                a: tree.tree.labels@.len() as usize,
                b: tree.nodes@[0],
                weight: Ratio {
                    num: (q.at(0, 1) + q.at(0, 2) - q.at(1, 2)) as i128,
                    den: (2 * q.den) as i128,
                },
            },
        ).push(
            Edge {
                a: tree.tree.labels@.len() as usize,
                b: tree.nodes@[1],
                weight: Ratio {
                    num: (q.at(0, 1) + q.at(1, 2) - q.at(0, 2)) as i128,
                    den: (2 * q.den) as i128,
                },
            },
        ).push(
            Edge {
                a: tree.tree.labels@.len() as usize,
                b: tree.nodes@[2],
                weight: Ratio {
                    num: (q.at(0, 2) + q.at(1, 2) - q.at(0, 1)) as i128,
                    den: (2 * q.den) as i128,
                },
            },
        ),
{
    let mut tree = tree;
    let d01 = q.distance(0, 1);
    let d02 = q.distance(0, 2);
    let d12 = q.distance(1, 2);
    let den = 2 * q.den;
    let dvi = Ratio::new(d01 + d02 - d12, den);
    let dvj = Ratio::new(d01 + d12 - d02, den);
    let dvm = Ratio::new(d02 + d12 - d01, den);
    let v = tree.tree.add_node(String::new());
    let n0 = tree.nodes[0];
    let n1 = tree.nodes[1];
    let n2 = tree.nodes[2];
    tree.tree.add_edge(v, n0, dvi);
    tree.tree.add_edge(v, n1, dvj);
    tree.tree.add_edge(v, n2, dvm);
    tree.tree
}


/// Run the three-taxon closing step and conclude the full tree shape from
/// the driver's invariant.
pub(crate) fn finish_canonical(t: PhyloTree, q: QMatrix, names: Ghost<Seq<String>>, n0: Ghost<
    int,
>) -> (tr: Tree)
    requires
        driver_inv(q, t, names@, n0@),
        q.n() == 3,
    ensures
        nj_tree_shape(tr, names@, n0@),
{
    let ghost pre_t = t;
    let ghost pre_q = q;
    let ghost pre_edges = t.tree.edges@;
    let ghost pre_nodes = t.nodes@;
    let tr = terminate_nj(t, q);
    proof {
        let v = pre_t.tree.labels@.len() as int;
        let e1 = Edge {
            a: pre_t.tree.labels@.len() as usize,
            b: pre_nodes[0],
            weight: Ratio {
                num: (pre_q.at(0, 1) + pre_q.at(0, 2) - pre_q.at(1, 2)) as i128,
                den: (2 * pre_q.den) as i128,
            },
        };
        let e2 = Edge {
            a: pre_t.tree.labels@.len() as usize,
            b: pre_nodes[1],
            weight: Ratio {
                num: (pre_q.at(0, 1) + pre_q.at(1, 2) - pre_q.at(0, 2)) as i128,
                den: (2 * pre_q.den) as i128,
            },
        };
        let e3 = Edge {
            a: pre_t.tree.labels@.len() as usize,
            b: pre_nodes[2],
            weight: Ratio {
                num: (pre_q.at(0, 2) + pre_q.at(1, 2) - pre_q.at(0, 1)) as i128,
                den: (2 * pre_q.den) as i128,
            },
        };
        assert(tr.edges@ == pre_edges.push(e1).push(e2).push(e3));
        assert(pre_nodes[0] < v && pre_nodes[1] < v && pre_nodes[2] < v);
        assert forall|k: int| 0 <= k < n0@ implies tr.labels@[k] == names@[k] by {
            assert(tr.labels@[k] == pre_t.tree.labels@[k]);
        }
        assert forall|k: int|
            n0@ <= k < tr.labels@.len() implies (#[trigger] tr.labels@[k])@
            == Seq::<char>::empty() by {
            if k < pre_t.tree.labels@.len() {
                assert(tr.labels@[k] == pre_t.tree.labels@[k]);
            }
        }
        assert forall|w: int|
            0 <= w < tr.labels@.len() implies #[trigger] degree(tr.edges@, w) == (if w < n0@ {
            1int
        } else {
            3int
        }) by {
            lemma_degree_push(pre_edges, e1, w);
            lemma_degree_push(pre_edges.push(e1), e2, w);
            lemma_degree_push(pre_edges.push(e1).push(e2), e3, w);
            if w == v {
                lemma_degree_zero(pre_edges, w, pre_edges.len() as int);
                assert(degree(pre_edges, w) == 0);
                assert(degree(pre_edges.push(e1), w) == 1);
                assert(degree(pre_edges.push(e1).push(e2), w) == 2);
                assert(degree(pre_edges.push(e1).push(e2).push(e3), w) == 3);
                assert(degree(tr.edges@, w) == 3);
            } else {
                assert(degree(pre_edges, w) == run_degree(pre_nodes, n0@, w));
                if w == pre_nodes[0] || w == pre_nodes[1] || w == pre_nodes[2] {
                    assert(appears(pre_nodes, w));
                    assert(degree(tr.edges@, w) == degree(pre_edges, w) + 1);
                } else {
                    assert(!appears(pre_nodes, w)) by {
                        if appears(pre_nodes, w) {
                            let k = choose|k: int|
                                0 <= k < pre_nodes.len() && pre_nodes[k] == w;
                            assert(k == 0 || k == 1 || k == 2);
                        }
                    }
                    assert(degree(pre_edges.push(e1), w) == degree(pre_edges, w));
                    assert(degree(pre_edges.push(e1).push(e2), w) == degree(pre_edges, w));
                    assert(degree(pre_edges.push(e1).push(e2).push(e3), w) == degree(
                        pre_edges,
                        w,
                    ));
                    assert(degree(tr.edges@, w) == degree(pre_edges, w));
                }
            }
        }
        assert(nj_tree_shape(tr, names@, n0@));
    }
    tr
}

/// An input on which canonical success is owed outright: valid, at most
/// fifty taxa, entries below `2^38`. The exact arithmetic then never runs
/// out of headroom.
pub open spec fn guaranteed_input(d: DistanceMatrix) -> bool {
    &&& d.valid_input()
    &&& 3 <= d.matrix@.len() <= 50
    &&& crate::naive_nj::matrix::entries_le(d.matrix@, d.matrix@.len() as int, 0x40_0000_0000)
}

/// Canonical Neighbor-Joining: reject an invalid input, then merge the
/// Q-minimising pair until three taxa remain and close the tree. On
/// success the result has the full Neighbor-Joining shape over the taxon
/// names; on a guaranteed input success is certain.
pub fn naive_neighbor_joining(dist: DistanceMatrix) -> (r: Result<Tree, NjError>)
    ensures
        r matches Ok(t) ==> dist.valid_input() && dist.matrix@.len() >= 3 && nj_tree_shape(
            t,
            dist.names@,
            dist.matrix@.len() as int,
        ),
        !(dist.valid_input() && dist.matrix@.len() >= 3) ==> (r matches Err(
            NjError::InputInvalid(_),
        )),
        r is Err ==> (r matches Err(NjError::InputInvalid(_))),
        guaranteed_input(dist) ==> r is Ok,
{
    match dist.validate() {
        Err(e) => {
            return Err(e);
        },
        Ok(()) => {},
    }
    if dist.size() < 3 {
        return Err(NjError::InputInvalid("at least three taxa are required".to_owned()));
    }
    let ghost names = dist.names@;
    let ghost n0 = dist.matrix@.len() as int;
    let mut t = PhyloTree::build(&dist.names);
    let mut q = QMatrix::new(dist);
    proof {
        assert forall|v: int|
            0 <= v < t.tree.labels@.len() implies #[trigger] degree(t.tree.edges@, v) == run_degree(
            t.nodes@,
            n0,
            v,
        ) by {
            assert(t.nodes@[v] == v);
            assert(appears(t.nodes@, v));
        }
        assert(driver_inv(q, t, names, n0));
    }
    let ghost den0 = dist.den as int;
    while q.n_leaves() > 3
        invariant
            driver_inv(q, t, names, n0),
            guaranteed_input(dist) ==> q.limit@ <= 0x40_0000_0000 * pow3(n0 - q.n()) && q.den
                <= den0 * pow2(n0 - q.n()) && n0 <= 50 && 1 <= den0
                <= crate::distances::INPUT_CAP,
        decreases q.n(),
    {
        let ghost qpre = q;
        let ghost tstep = n0 - q.n();
        proof {
            if guaranteed_input(dist) {
                lemma_guarantee_step(q.limit@, q.den as int, den0, tstep);
            }
        }
        let r = merge_step(&mut q, &mut t, Ghost(names), Ghost(n0));
        match r {
            Err(e) => {
                proof {
                    if guaranteed_input(dist) {
                        assert(3 * qpre.limit@ <= crate::naive_nj::matrix::CAP);
                        assert(false);
                    }
                }
                return Err(e);
            },
            Ok(()) => {},
        }
    }
    let tr = finish_canonical(t, q, Ghost(names), Ghost(n0));
    Ok(tr)
}

} // verus!
