use vstd::prelude::*;

use crate::distances::DistanceMatrix;
use crate::errors::NjError;
use crate::naive_nj::matrix::{entries_le, lemma_guarantee_step, pow2, pow3, CAP};
use crate::naive_nj::nj_tree_shape;
use crate::rapid_nj::phylo_tree::PhyloTree;
use crate::rapid_nj::qmatrix::QMatrix;
use crate::ratio::Ratio;
use crate::tree::{degree, lemma_degree_push, lemma_degree_zero, Edge, Tree};

verus! {

/// The degree a vertex holds mid-run under the pruned strategy: row ids
/// and graph vertices coincide, so activity of the id decides.
pub open spec fn rapid_degree(q: QMatrix, n0: int, v: int) -> int {
    if q.active(v) {
        if v < n0 {
            0
        } else {
            2
        }
    } else {
        if v < n0 {
            1
        } else {
            3
        }
    }
}

/// What the pruned driver maintains between merges.
pub open spec fn rapid_inv(q: QMatrix, t: PhyloTree, names: Seq<String>, n0: int) -> bool {
    &&& q.wf()
    &&& t.linked()
    &&& t.tree.labels@.len() == q.total()
    &&& names.len() == n0
    &&& q.total() == n0 + (n0 - q.n_leaves)
    &&& t.tree.edges@.len() == 2 * (n0 - q.n_leaves)
    &&& q.n_leaves <= n0
    &&& forall|k: int| 0 <= k < n0 ==> t.tree.labels@[k] == names[k]
    &&& forall|k: int|
        n0 <= k < t.tree.labels@.len() ==> (#[trigger] t.tree.labels@[k])@ == Seq::<char>::empty()
    &&& forall|v: int|
        0 <= v < t.tree.labels@.len() ==> #[trigger] degree(t.tree.edges@, v) == rapid_degree(
            q,
            n0,
            v,
        )
}

/// One merge of the pruned strategy: pick the Q-minimising pair, record
/// the join, rewrite the matrix.
pub(crate) fn rapid_merge_step(
    q: &mut QMatrix,
    t: &mut PhyloTree,
    names: Ghost<Seq<String>>,
    n0: Ghost<int>,
) -> (r: Result<(), NjError>)
    requires
        rapid_inv(*old(q), *old(t), names@, n0@),
        old(q).n_leaves > 3,
    ensures
        r is Ok ==> rapid_inv(*final(q), *final(t), names@, n0@) && final(q).n_leaves == old(
            q,
        ).n_leaves - 1 && final(q).den == 2 * old(q).den,
        r is Err ==> (r matches Err(NjError::InputInvalid(_))),
        3 * old(q).limit@ <= CAP && 2 * old(q).den <= CAP ==> r is Ok,
        r is Ok ==> final(q).limit@ == (if 3 * old(q).limit@ <= CAP {
            3 * old(q).limit@
        } else {
            CAP as int
        }),
{
    let (i, j) = q.find_neighbors();
    let (dist_ui, dist_uj) = q.new_node_distances(i, j);
    let ghost old_t = *t;
    let ghost old_q = *q;
    let ghost old_edges = t.tree.edges@;
    let u = t.merge_neighbors(i, j, dist_ui, dist_uj);
    let r = q.update(i, j);
    match r {
        Err(e) => Err(e),
        Ok(()) => {
            proof {
                let e1 = Edge { a: u, b: i, weight: dist_ui };
                let e2 = Edge { a: u, b: j, weight: dist_uj };
                assert forall|k: int| 0 <= k < n0@ implies t.tree.labels@[k] == names@[k] by {
                    assert(t.tree.labels@[k] == old_t.tree.labels@[k]);
                }
                assert forall|k: int|
                    n0@ <= k < t.tree.labels@.len() implies (#[trigger] t.tree.labels@[k])@
                    == Seq::<char>::empty() by {
                    if k < old_t.tree.labels@.len() {
                        assert(t.tree.labels@[k] == old_t.tree.labels@[k]);
                    }
                }
                assert forall|v: int|
                    0 <= v < t.tree.labels@.len() implies #[trigger] degree(t.tree.edges@, v)
                    == rapid_degree(*q, n0@, v) by {
                    lemma_degree_push(old_edges, e1, v);
                    lemma_degree_push(old_edges.push(e1), e2, v);
                    if v == u {
                        lemma_degree_zero(old_edges, v, old_edges.len() as int);
                        assert(q.active(v));
                        assert(degree(t.tree.edges@, v) == 2);
                    } else if v == i || v == j {
                        assert(!q.active(v));
                        assert(degree(t.tree.edges@, v) == degree(old_edges, v) + 1);
                        assert(degree(old_edges, v) == rapid_degree(old_q, n0@, v));
                        assert(old_q.active(v));
                    } else {
                        assert(degree(t.tree.edges@, v) == degree(old_edges, v));
                        assert(degree(old_edges, v) == rapid_degree(old_q, n0@, v));
                        assert(q.active(v) <==> old_q.active(v));
                    }
                }
            }
            Ok(())
        },
    }
}

/// Close the final three rows of the pruned representation.
pub(crate) fn terminate_rapid(t: PhyloTree, q: &QMatrix, names: Ghost<Seq<String>>, n0: Ghost<
    int,
>) -> (tr: Tree)
    requires
        rapid_inv(*q, t, names@, n0@),
        q.n_leaves == 3,
        3 <= n0@,
    ensures
        nj_tree_shape(tr, names@, n0@),
{
    let unmerged = q.unmerged_nodes();
    let u0 = unmerged[0];
    let u1 = unmerged[1];
    let u2 = unmerged[2];
    proof {
        crate::rapid_nj::qmatrix::lemma_dval_bound(*q, u0 as int, u1 as int);
        crate::rapid_nj::qmatrix::lemma_dval_bound(*q, u0 as int, u2 as int);
        crate::rapid_nj::qmatrix::lemma_dval_bound(*q, u1 as int, u2 as int);
    }
    let d01 = q.distance(u0, u1);
    let d02 = q.distance(u0, u2);
    let d12 = q.distance(u1, u2);
    let den = 2 * q.den;
    let dvi = Ratio::new(d01 + d02 - d12, den);
    let dvj = Ratio::new(d01 + d12 - d02, den);
    let dvm = Ratio::new(d02 + d12 - d01, den);
    let mut t = t;
    let ghost pre_t = t;
    let ghost pre_edges = t.tree.edges@;
    let v = t.tree.add_node(String::new());
    t.tree.add_edge(v, u0, dvi);
    t.tree.add_edge(v, u1, dvj);
    t.tree.add_edge(v, u2, dvm);
    proof {
        let tr = t.tree;
        let e1 = tr.edges@[pre_edges.len() as int];
        let e2 = tr.edges@[pre_edges.len() as int + 1];
        let e3 = tr.edges@[pre_edges.len() as int + 2];
        assert forall|k: int| 0 <= k < n0@ implies tr.labels@[k] == names@[k] by {
            assert(tr.labels@[k] == pre_t.tree.labels@[k]);
        }
        assert forall|k: int|
            n0@ <= k < tr.labels@.len() implies (#[trigger] tr.labels@[k])@
            == Seq::<char>::empty() by {
            if k < pre_t.tree.labels@.len() {
                assert(tr.labels@[k] == pre_t.tree.labels@[k]);
            }
        }
        assert forall|w: int|
            0 <= w < tr.labels@.len() implies #[trigger] degree(tr.edges@, w) == (if w < n0@ {
            1int
        } else {
            3int
        }) by {
            lemma_degree_push(pre_edges, e1, w);
            lemma_degree_push(pre_edges.push(e1), e2, w);
            lemma_degree_push(pre_edges.push(e1).push(e2), e3, w);
            if w == v {
                lemma_degree_zero(pre_edges, w, pre_edges.len() as int);
                assert(degree(tr.edges@, w) == 3);
            } else {
                assert(degree(pre_edges, w) == rapid_degree(*q, n0@, w));
                if w == u0 || w == u1 || w == u2 {
                    assert(q.active(w));
                    assert(degree(tr.edges@, w) == degree(pre_edges, w) + 1);
                } else {
                    assert(!q.active(w)) by {
                        if q.active(w) {
                            let p = choose|p: int|
                                0 <= p < unmerged@.len() && unmerged@[p] == w;
                            assert(p == 0 || p == 1 || p == 2);
                        }
                    }
                    assert(degree(tr.edges@, w) == degree(pre_edges, w));
                }
            }
        }
        assert(nj_tree_shape(tr, names@, n0@));
    }
    t.tree
}

/// An input on which pruned success is owed outright: valid, four to
/// fifty taxa, entries below `2^38`. The exact arithmetic then never runs
/// out of headroom.
pub open spec fn rapid_guaranteed_input(d: DistanceMatrix) -> bool {
    &&& d.valid_input()
    &&& 4 <= d.matrix@.len() <= 50
    &&& entries_le(d.matrix@, d.matrix@.len() as int, 0x40_0000_0000)
}

/// Pruned Neighbor-Joining: validate, then merge the Q-minimising pair
/// found by the pruned search until three taxa remain, and close. On a
/// guaranteed input with a positive batch size, success is certain.
pub fn rapid_nj(dist: DistanceMatrix, chunk_size: usize) -> (r: Result<Tree, NjError>)
    ensures
        chunk_size == 0 ==> (r matches Err(NjError::ConfigInvalid(_))),
        r matches Ok(t) ==> dist.valid_input() && dist.matrix@.len() >= 4 && chunk_size >= 1
            && nj_tree_shape(t, dist.names@, dist.matrix@.len() as int),
        chunk_size >= 1 && !(dist.valid_input() && dist.matrix@.len() >= 4) ==> (r matches Err(
            NjError::InputInvalid(_),
        )),
        rapid_guaranteed_input(dist) && chunk_size >= 1 ==> r is Ok,
{
    if chunk_size == 0 {
        return Err(NjError::ConfigInvalid("chunk size cannot be zero".to_owned()));
    }
    match dist.validate() {
        Err(e) => {
            return Err(e);
        },
        Ok(()) => {},
    }
    if dist.size() < 4 {
        return Err(NjError::InputInvalid(
            "the pruned strategy needs at least four taxa".to_owned(),
        ));
    }
    let ghost names = dist.names@;
    let ghost n0 = dist.matrix@.len() as int;
    let mut t = PhyloTree::build(&dist.names);
    let mut q = QMatrix::from(&dist);
    let ghost q0 = q;
    q.set_chunk_size(chunk_size);
    proof {
        assert(q.distances@ == q0.distances@);
        assert forall|v: int| 0 <= v < q.total() implies #[trigger] q.active(v) by {
            assert(q0.active(v));
        }
        assert forall|v: int|
            0 <= v < t.tree.labels@.len() implies #[trigger] degree(t.tree.edges@, v)
            == rapid_degree(q, n0, v) by {
            crate::tree::lemma_degree_zero(t.tree.edges@, v, 0);
            assert(q.active(v));
        }
        assert(rapid_inv(q, t, names, n0));
    }
    let ghost den0 = dist.den as int;
    while q.n_leaves() > 3
        invariant
            rapid_inv(q, t, names, n0),
            chunk_size >= 1,
            rapid_guaranteed_input(dist) ==> q.limit@ <= 0x40_0000_0000 * pow3(
                n0 - q.n_leaves,
            ) && q.den <= den0 * pow2(n0 - q.n_leaves) && n0 <= 50 && 1 <= den0
                <= crate::distances::INPUT_CAP,
        decreases q.n_leaves,
    {
        let ghost qpre = q;
        let ghost tstep = n0 - q.n_leaves as int;
        proof {
            if rapid_guaranteed_input(dist) {
                lemma_guarantee_step(q.limit@, q.den as int, den0, tstep);
            }
        }
        let r = rapid_merge_step(&mut q, &mut t, Ghost(names), Ghost(n0));
        match r {
            Err(e) => {
                proof {
                    if rapid_guaranteed_input(dist) {
                        assert(3 * qpre.limit@ <= CAP);
                        assert(false);
                    }
                }
                return Err(e);
            },
            Ok(()) => {},
        }
    }
    Ok(terminate_rapid(t, &q, Ghost(names), Ghost(n0)))
}

} // verus!
