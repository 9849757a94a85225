use vstd::prelude::*;

use crate::naive_nj;
use crate::rapid_nj;
use crate::rapid_nj::qmatrix::QMatrix as RapidQ;
use crate::tree::degree;

verus! {

/// The pruned strategy's working state, bundled for the handoff.
pub struct DataRapidNJ {
    pub qmatrix: rapid_nj::QMatrix,
    pub phylo_tree: rapid_nj::PhyloTree,
}

impl DataRapidNJ {
    pub fn new(qmatrix: rapid_nj::QMatrix, phylo_tree: rapid_nj::PhyloTree) -> (r: DataRapidNJ)
        ensures
            r.qmatrix == qmatrix,
            r.phylo_tree == phylo_tree,
    {
        DataRapidNJ { qmatrix, phylo_tree }
    }
}

/// The canonical strategy's working state, as produced by the handoff.
pub struct DataNaiveNJ {
    pub qmatrix: naive_nj::QMatrix,
    pub phylo_tree: naive_nj::PhyloTree,
}

/// `ids` enumerates the live rows in ascending order, completely.
pub open spec fn asc_live_ids(q: RapidQ, ids: Seq<usize>) -> bool {
    &&& ids.len() == q.n_leaves
    &&& forall|p: int| 0 <= p < ids.len() ==> q.active(#[trigger] ids[p] as int)
    &&& forall|p1: int, p2: int|
        0 <= p1 < p2 < ids.len() ==> (#[trigger] ids[p1]) < (#[trigger] ids[p2])
    &&& forall|i: int|
        #[trigger] q.active(i) ==> exists|p: int| 0 <= p < ids.len() && ids[p] == i
}

/// The first live id not yet enumerated, or the total when all are.
pub open spec fn asc_bound(q: RapidQ, ids: Seq<usize>, p: int) -> int {
    if p < ids.len() {
        ids[p] as int
    } else {
        q.total()
    }
}

/// Prefix sums over the dense bridged row equal the pruned filtered sums:
/// the first `p` live ids are exactly the live ids below `asc_bound(p)`.
proof fn lemma_bridge_row_sum(q: RapidQ, ids: Seq<usize>, row: Seq<i128>, m: int, p: int)
    requires
        q.wf(),
        q.active(m),
        asc_live_ids(q, ids),
        0 <= p <= ids.len(),
        row.len() >= p,
        forall|b: int| 0 <= b < p ==> #[trigger] row[b] == q.dval(m, ids[b] as int),
    ensures
        crate::naive_nj::matrix::sum_upto(row, p) == q.sum_at(m, asc_bound(q, ids, p)),
    decreases p,
{
    if p > 0 {
        lemma_bridge_row_sum(q, ids, row, m, p - 1);
        let prev = asc_bound(q, ids, p - 1);
        let cur = asc_bound(q, ids, p);
        assert(q.active(prev));
        assert forall|x: int| prev < x < cur implies !q.active(x) by {
            if q.active(x) {
                let px = choose|px: int| 0 <= px < ids.len() && ids[px] == x;
                if px < p - 1 {
                    assert(ids[px] < ids[p - 1]);
                } else if px == p - 1 {
                } else {
                    if p < ids.len() {
                        if px > p {
                            assert(ids[p] < ids[px]);
                        }
                        assert(x >= cur);
                    }
                }
            }
        }
        assert(prev < q.total());
        assert(prev + 1 <= cur) by {
            if p < ids.len() {
                assert(ids[p - 1] < ids[p]);
            }
        }
        lemma_sum_at_skip(q, m, prev + 1, cur);
        assert(q.sum_at(m, prev + 1) == q.sum_at(m, prev) + q.dval(m, prev));
        assert(row[p - 1] == q.dval(m, prev));
        assert(crate::naive_nj::matrix::sum_upto(row, p) == crate::naive_nj::matrix::sum_upto(
            row,
            p - 1,
        ) + row[p - 1]);
    } else {
        assert forall|x: int| 0 <= x < asc_bound(q, ids, 0) implies !q.active(x) by {
            if q.active(x) {
                let px = choose|px: int| 0 <= px < ids.len() && ids[px] == x;
                if px > 0 {
                    assert(ids[0] < ids[px]);
                }
                assert(x >= asc_bound(q, ids, 0));
            }
        }
        lemma_sum_at_skip(q, m, 0, asc_bound(q, ids, 0));
    }
}

/// A stretch without live rows adds nothing to the filtered sum.
proof fn lemma_sum_at_skip(q: RapidQ, m: int, c1: int, c2: int)
    requires
        c1 <= c2,
        forall|x: int| c1 <= x < c2 ==> !q.active(x),
    ensures
        q.sum_at(m, c2) == q.sum_at(m, c1),
    decreases c2 - c1,
{
    if c1 < c2 {
        lemma_sum_at_skip(q, m, c1, c2 - 1);
    }
}

impl DataNaiveNJ {
    /// The hybrid handoff: relabel the live pruned ids `0..M` in ascending
    /// order, copy their pairwise distances into a dense matrix and their
    /// sums into a dense vector, and keep the graph built so far. The
    /// canonical invariant holds of the result and the distances are
    /// carried over exactly; the node map records which pruned id each
    /// dense row stands for.
    pub fn from(data: DataRapidNJ, names: Ghost<Seq<String>>, n0: Ghost<int>) -> (r: DataNaiveNJ)
        requires
            crate::rapid_nj::algorithm::rapid_inv(data.qmatrix, data.phylo_tree, names@, n0@),
            4 <= data.qmatrix.n_leaves,
        ensures
            crate::naive_nj::algorithm::driver_inv(r.qmatrix, r.phylo_tree, names@, n0@),
            r.qmatrix.n() == data.qmatrix.n_leaves,
            r.qmatrix.den == data.qmatrix.den,
            r.qmatrix.limit@ == data.qmatrix.limit@,
            asc_live_ids(data.qmatrix, r.phylo_tree.nodes@),
            forall|a: int, b: int|
                0 <= a < r.qmatrix.n() && 0 <= b < r.qmatrix.n() ==> #[trigger] r.qmatrix.at(a, b)
                    == data.qmatrix.dval(
                    r.phylo_tree.nodes@[a] as int,
                    r.phylo_tree.nodes@[b] as int,
                ),
            forall|a: int|
                0 <= a < r.qmatrix.n() ==> #[trigger] r.qmatrix.sum_cols@[a]
                    == data.qmatrix.sumv(r.phylo_tree.nodes@[a] as int),
            r.phylo_tree.tree == data.phylo_tree.tree,
    {
        let q = data.qmatrix;
        let tree = data.phylo_tree;
        let m = q.n_leaves();
        let unmerged = q.unmerged_nodes();
        let ghost ids = unmerged@;
        let mut matrix: Vec<Vec<i128>> = Vec::new();
        let mut sum_cols: Vec<i128> = Vec::new();
        let mut a: usize = 0;
        while a < m
            invariant
                q.wf(),
                m == q.n_leaves,
                ids == unmerged@,
                asc_live_ids(q, ids),
                a <= m,
                matrix@.len() == a,
                sum_cols@.len() == a,
                forall|x: int| 0 <= x < a ==> (#[trigger] matrix@[x])@.len() == m,
                forall|x: int, y: int|
                    0 <= x < a && 0 <= y < m ==> #[trigger] matrix@[x]@[y] == q.dval(
                        ids[x] as int,
                        ids[y] as int,
                    ),
                forall|x: int| 0 <= x < a ==> #[trigger] sum_cols@[x] == q.sumv(ids[x] as int),
            decreases m - a,
        {
            let ua = unmerged[a];
            let mut row: Vec<i128> = Vec::new();
            let mut b: usize = 0;
            while b < m
                invariant
                    q.wf(),
                    m == q.n_leaves,
                    ids == unmerged@,
                    asc_live_ids(q, ids),
                    a < m,
                    ua == ids[a as int],
                    b <= m,
                    row@.len() == b,
                    forall|y: int|
                        0 <= y < b ==> #[trigger] row@[y] == q.dval(
                            ids[a as int] as int,
                            ids[y] as int,
                        ),
                decreases m - b,
            {
                let ub = unmerged[b];
                let d = q.distance(ua, ub);
                row.push(d);
                b += 1;
            }
            proof {
                lemma_bridge_row_sum(q, ids, row@, ua as int, m as int);
                let last = ids[m - 1] as int;
                assert forall|x: int| last < x < q.total() implies !q.active(x) by {
                    if q.active(x) {
                        let px = choose|px: int| 0 <= px < ids.len() && ids[px] == x;
                        if px < m - 1 {
                            assert(ids[px] < ids[m - 1]);
                        }
                    }
                }
                lemma_sum_at_skip(q, ua as int, asc_bound(q, ids, m as int), q.total());
                assert(crate::naive_nj::matrix::sum_upto(row@, m as int) == q.sum_at(
                    ua as int,
                    q.total(),
                ));
            }
            let s = q.sum_cols[ua].unwrap();
            matrix.push(row);
            sum_cols.push(s);
            a += 1;
        }
        let qmatrix = naive_nj::QMatrix {
            matrix,
            sum_cols,
            den: q.den,
            limit: Ghost(q.limit@),
        };
        let phylo_tree = naive_nj::PhyloTree { tree: tree.tree, nodes: unmerged };
        proof {
            assert forall|x: int, y: int|
                0 <= x < m && 0 <= y < m implies #[trigger] qmatrix.at(x, y) == qmatrix.at(
                y,
                x,
            ) by {
                assert(qmatrix.at(x, y) == q.dval(ids[x] as int, ids[y] as int));
                assert(qmatrix.at(y, x) == q.dval(ids[y] as int, ids[x] as int));
            }
            assert forall|x: int, y: int|
                0 <= x < m && 0 <= y < m implies -qmatrix.limit@ <= #[trigger] qmatrix.at(x, y)
                <= qmatrix.limit@ by {
                crate::rapid_nj::qmatrix::lemma_dval_bound(q, ids[x] as int, ids[y] as int);
            }
            assert forall|x: int| 0 <= x < m implies #[trigger] qmatrix.at(x, x) == 0 by {
                assert(qmatrix.at(x, x) == q.dval(ids[x] as int, ids[x] as int));
            }
            assert forall|x: int|
                0 <= x < m implies #[trigger] qmatrix.sum_cols@[x]
                == crate::naive_nj::matrix::sum_upto(qmatrix.matrix@[x]@, m as int) by {
                let ux = ids[x] as int;
                assert(q.active(ux));
                lemma_bridge_row_sum(q, ids, qmatrix.matrix@[x]@, ux, m as int);
                let last = ids[m - 1] as int;
                assert forall|y: int| last < y < q.total() implies !q.active(y) by {
                    if q.active(y) {
                        let py = choose|py: int| 0 <= py < ids.len() && ids[py] == y;
                        if py < m - 1 {
                            assert(ids[py] < ids[m - 1]);
                        }
                    }
                }
                lemma_sum_at_skip(q, ux, asc_bound(q, ids, m as int), q.total());
                assert(q.sumv(ux) == q.sum_at(ux, q.total()));
            }
            assert(qmatrix.wf());
            assert(phylo_tree.linked()) by {
                assert forall|k1: int, k2: int|
                    0 <= k1 < phylo_tree.nodes@.len() && 0 <= k2 < phylo_tree.nodes@.len() && k1
                        != k2 implies #[trigger] phylo_tree.nodes@[k1]
                    != #[trigger] phylo_tree.nodes@[k2] by {
                    if k1 < k2 {
                        assert(ids[k1] < ids[k2]);
                    } else {
                        assert(ids[k2] < ids[k1]);
                    }
                }
            }
            assert forall|v: int|
                0 <= v < phylo_tree.tree.labels@.len() implies #[trigger] degree(
                phylo_tree.tree.edges@,
                v,
            ) == crate::naive_nj::algorithm::run_degree(phylo_tree.nodes@, n0@, v) by {
                assert(degree(phylo_tree.tree.edges@, v)
                    == crate::rapid_nj::algorithm::rapid_degree(q, n0@, v));
                if q.active(v) {
                    let p = choose|p: int| 0 <= p < ids.len() && ids[p] == v;
                    assert(phylo_tree.nodes@[p] == v);
                    assert(crate::naive_nj::phylo_tree::appears(phylo_tree.nodes@, v));
                } else {
                    if crate::naive_nj::phylo_tree::appears(phylo_tree.nodes@, v) {
                        let p = choose|p: int|
                            0 <= p < phylo_tree.nodes@.len() && phylo_tree.nodes@[p] == v;
                        assert(q.active(ids[p] as int));
                        assert(false);
                    }
                }
            }
            assert(crate::naive_nj::algorithm::driver_inv(qmatrix, phylo_tree, names@, n0@));
        }
        DataNaiveNJ { qmatrix, phylo_tree }
    }
}

} // verus!
