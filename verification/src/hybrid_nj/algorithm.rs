use vstd::prelude::*;

use crate::distances::DistanceMatrix;
use crate::errors::NjError;
use crate::hybrid_nj::data::{DataNaiveNJ, DataRapidNJ};
use crate::naive_nj;
use crate::naive_nj::matrix::{entries_le, lemma_guarantee_step, pow2, pow3, CAP};
use crate::naive_nj::nj_tree_shape;
use crate::rapid_nj;
use crate::tree::Tree;

verus! {

/// An input and configuration on which hybrid success is owed outright: a
/// positive batch size, a switch point inside `(0, N]`-but-not-`N`, and a
/// valid matrix of three to fifty taxa with entries below `2^38`.
pub open spec fn hybrid_guaranteed_input(d: DistanceMatrix, naive_iters: int, chunk_size: int) -> bool {
    &&& chunk_size >= 1
    &&& 1 <= naive_iters
    &&& naive_iters != d.matrix@.len()
    &&& d.valid_input()
    &&& 3 <= d.matrix@.len() <= 50
    &&& entries_le(d.matrix@, d.matrix@.len() as int, 0x40_0000_0000)
}

/// Hybrid Neighbor-Joining: start with the pruned strategy, switch to the
/// canonical one once `naive_iters` taxa remain. A switch point of zero or
/// `N` is rejected (the driver configuration demands a point strictly
/// inside the problem); one above `N`, or too small a problem, runs the
/// canonical strategy alone, and a point below four runs the pruned one
/// alone. On a guaranteed input success is certain.
pub fn neighbor_joining(dist: DistanceMatrix, naive_iters: usize, chunk_size: usize) -> (r:
    Result<Tree, NjError>)
    ensures
        chunk_size == 0 ==> (r matches Err(NjError::ConfigInvalid(_))),
        chunk_size >= 1 && naive_iters == 0 ==> (r matches Err(NjError::ConfigInvalid(_))),
        chunk_size >= 1 && naive_iters >= 1 && !(dist.valid_input() && dist.matrix@.len() >= 3)
            ==> (r matches Err(NjError::InputInvalid(_))),
        chunk_size >= 1 && naive_iters >= 1 && dist.valid_input() && dist.matrix@.len() >= 3
            && naive_iters == dist.matrix@.len() ==> (r matches Err(NjError::ConfigInvalid(_))),
        r matches Ok(t) ==> dist.valid_input() && dist.matrix@.len() >= 3 && nj_tree_shape(
            t,
            dist.names@,
            dist.matrix@.len() as int,
        ),
        hybrid_guaranteed_input(dist, naive_iters as int, chunk_size as int) ==> r is Ok,
{
    if chunk_size == 0 {
        return Err(NjError::ConfigInvalid("chunk size cannot be zero".to_owned()));
    }
    if naive_iters == 0 {
        return Err(NjError::ConfigInvalid("the canonical phase cannot be empty".to_owned()));
    }
    match dist.validate() {
        Err(e) => {
            return Err(e);
        },
        Ok(()) => {},
    }
    if dist.size() < 3 {
        return Err(NjError::InputInvalid("at least three taxa are required".to_owned()));
    }
    if naive_iters == dist.size() {
        return Err(NjError::ConfigInvalid(
            "the switch point must lie strictly inside the problem".to_owned(),
        ));
    }
    if dist.size() < 4 || naive_iters > dist.size() {
        return naive_nj::naive_neighbor_joining(dist);
    }
    if naive_iters < 4 {
        return rapid_nj::rapid_nj(dist, chunk_size);
    }
    let ghost names = dist.names@;
    let ghost n0 = dist.matrix@.len() as int;
    let mut t = rapid_nj::PhyloTree::build(&dist.names);
    let mut q = rapid_nj::QMatrix::from(&dist);
    let ghost q0 = q;
    q.set_chunk_size(chunk_size);
    proof {
        assert(q.distances@ == q0.distances@);
        assert forall|v: int| 0 <= v < q.total() implies #[trigger] q.active(v) by {
            assert(q0.active(v));
        }
        assert forall|v: int|
            0 <= v < t.tree.labels@.len() implies #[trigger] crate::tree::degree(
            t.tree.edges@,
            v,
        ) == crate::rapid_nj::algorithm::rapid_degree(q, n0, v) by {
            crate::tree::lemma_degree_zero(t.tree.edges@, v, 0);
            assert(q.active(v));
        }
        assert(crate::rapid_nj::algorithm::rapid_inv(q, t, names, n0));
    }
    let ghost den0 = dist.den as int;
    let ghost guar = hybrid_guaranteed_input(dist, naive_iters as int, chunk_size as int);
    while q.n_leaves() > naive_iters
        invariant
            crate::rapid_nj::algorithm::rapid_inv(q, t, names, n0),
            4 <= naive_iters,
            chunk_size >= 1,
            q.n_leaves >= naive_iters,
            naive_iters < n0,
            n0 == dist.matrix@.len(),
            den0 == dist.den as int,
            guar == hybrid_guaranteed_input(dist, naive_iters as int, chunk_size as int),
            guar ==> q.limit@ <= 0x40_0000_0000 * pow3(n0 - q.n_leaves) && q.den <= den0 * pow2(
                n0 - q.n_leaves,
            ) && n0 <= 50 && 1 <= den0 <= crate::distances::INPUT_CAP,
        decreases q.n_leaves,
    {
        let ghost qpre = q;
        proof {
            if guar {
                lemma_guarantee_step(q.limit@, q.den as int, den0, n0 - q.n_leaves as int);
            }
        }
        let r = crate::rapid_nj::algorithm::rapid_merge_step(&mut q, &mut t, Ghost(names), Ghost(
            n0,
        ));
        match r {
            Err(e) => {
                proof {
                    if guar {
                        assert(3 * qpre.limit@ <= CAP);
                        assert(false);
                    }
                }
                return Err(e);
            },
            Ok(()) => {},
        }
    }
    let data = DataNaiveNJ::from(DataRapidNJ::new(q, t), Ghost(names), Ghost(n0));
    let mut q = data.qmatrix;
    let mut t = data.phylo_tree;
    while q.n_leaves() > 3
        invariant
            crate::naive_nj::algorithm::driver_inv(q, t, names, n0),
            chunk_size >= 1,
            4 <= naive_iters < n0,
            n0 == dist.matrix@.len(),
            den0 == dist.den as int,
            guar == hybrid_guaranteed_input(dist, naive_iters as int, chunk_size as int),
            guar ==> q.limit@ <= 0x40_0000_0000 * pow3(n0 - q.n()) && q.den <= den0 * pow2(
                n0 - q.n(),
            ) && n0 <= 50 && 1 <= den0 <= crate::distances::INPUT_CAP,
        decreases q.n(),
    {
        let ghost qpre = q;
        proof {
            if guar {
                lemma_guarantee_step(q.limit@, q.den as int, den0, n0 - q.n());
            }
        }
        let r = crate::naive_nj::algorithm::merge_step(&mut q, &mut t, Ghost(names), Ghost(n0));
        match r {
            Err(e) => {
                proof {
                    if guar {
                        assert(3 * qpre.limit@ <= CAP);
                        assert(false);
                    }
                }
                return Err(e);
            },
            Ok(()) => {},
        }
    }
    Ok(crate::naive_nj::algorithm::finish_canonical(t, q, Ghost(names), Ghost(n0)))
}

/// Both searches find the same minimum of the Q-criterion on states that
/// describe the same distances — the canonical row `a` standing for
/// `map[a]`, the `a`-th live pruned id in ascending order, as the handoff
/// builds it. So a pair returned by the canonical scan and a pair returned
/// by the pruned search (under any batch size) are equally good, each
/// achieving the one global minimum.
pub proof fn lemma_strategies_agree(
    cq: crate::naive_nj::QMatrix,
    pq: crate::rapid_nj::QMatrix,
    map: Seq<usize>,
    ci: int,
    cj: int,
    pi: int,
    pj: int,
)
    requires
        cq.wf(),
        pq.wf(),
        cq.n() == map.len(),
        forall|p: int| 0 <= p < map.len() ==> pq.active(#[trigger] map[p] as int),
        forall|p1: int, p2: int|
            0 <= p1 < p2 < map.len() ==> (#[trigger] map[p1]) < (#[trigger] map[p2]),
        forall|i: int|
            #[trigger] pq.active(i) ==> exists|p: int| 0 <= p < map.len() && map[p] == i,
        cq.n() == pq.n_leaves,
        forall|a: int, b: int|
            0 <= a < cq.n() && 0 <= b < cq.n() ==> #[trigger] cq.at(a, b) == pq.dval(
                map[a] as int,
                map[b] as int,
            ),
        forall|a: int|
            0 <= a < cq.n() ==> #[trigger] cq.sum_cols@[a] == pq.sumv(map[a] as int),
        0 <= ci < cj < cq.n(),
        forall|a: int, b: int|
            0 <= a < b < cq.n() ==> cq.q_of(ci, cj) <= #[trigger] cq.q_of(a, b),
        pq.active(pi),
        pq.active(pj),
        pi < pj,
        forall|a: int, b: int|
            pq.active(a) && pq.active(b) && a < b ==> pq.q_of(pi, pj) <= #[trigger] pq.q_of(a, b),
    ensures
        cq.q_of(ci, cj) == pq.q_of(pi, pj),
{
    let p1 = choose|p: int| 0 <= p < map.len() && #[trigger] map[p] == pi;
    let p2 = choose|p: int| 0 <= p < map.len() && #[trigger] map[p] == pj;
    assert(p1 != p2);
    if p2 < p1 {
        assert(map[p2] < map[p1]);
        assert(false);
    }
    assert(p1 < p2);
    assert(cq.at(p1, p2) == pq.dval(pi, pj));
    assert(cq.q_of(p1, p2) == pq.q_of(pi, pj));
    let qi = map[ci] as int;
    let qj = map[cj] as int;
    assert(pq.active(qi) && pq.active(qj));
    assert(map[ci] < map[cj]);
    assert(qi < qj);
    assert(cq.q_of(ci, cj) == pq.q_of(qi, qj));
    assert(pq.q_of(pi, pj) <= pq.q_of(qi, qj));
    assert(cq.q_of(ci, cj) <= cq.q_of(p1, p2));
}

} // verus!
