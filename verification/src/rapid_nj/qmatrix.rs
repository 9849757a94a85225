use vstd::prelude::*;

use crate::distances::{DistanceMatrix, MAX_TAXA};
use crate::errors::NjError;
use crate::naive_nj::matrix::{entries_le, CAP};
use crate::rapid_nj::node::{has_index, insert_sorted, node_lt, remove_index, sorted, Node};
use crate::ratio::Ratio;

verus! {

/// `x` walks before `y` under the given keys: the larger key first, ties
/// by the smaller id.
pub open spec fn key_before(keys: Seq<i128>, x: usize, y: usize) -> bool {
    keys[x as int] > keys[y as int] || (keys[x as int] == keys[y as int] && x < y)
}

/// The ids are listed in walk order for the given keys.
pub open spec fn sorted_by_key(keys: Seq<i128>, ids: Seq<usize>) -> bool {
    forall|p1: int, p2: int|
        0 <= p1 < p2 < ids.len() ==> key_before(keys, #[trigger] ids[p1], #[trigger] ids[p2])
}

/// Some entry of the list is the id `v`.
pub open spec fn id_in(ids: Seq<usize>, v: int) -> bool {
    exists|p: int| 0 <= p < ids.len() && (#[trigger] ids[p]) == v
}

/// Insert an id into its walk-order position; the id must be fresh.
fn insert_by_key(ids: &mut Vec<usize>, keys: &Vec<i128>, id: usize)
    requires
        (id as int) < keys@.len(),
        forall|p: int| 0 <= p < old(ids)@.len() ==> (#[trigger] old(ids)@[p] as int) < keys@.len(),
        sorted_by_key(keys@, old(ids)@),
        !id_in(old(ids)@, id as int),
    ensures
        final(ids)@.len() == old(ids)@.len() + 1,
        sorted_by_key(keys@, final(ids)@),
        forall|p: int|
            0 <= p < final(ids)@.len() ==> (#[trigger] final(ids)@[p]) == id || old(
                ids,
            )@.contains(final(ids)@[p]),
        forall|p: int| 0 <= p < old(ids)@.len() ==> final(ids)@.contains(#[trigger] old(ids)@[p]),
        forall|v: int| #[trigger] id_in(final(ids)@, v) <==> (v == id || id_in(old(ids)@, v)),
{
    let n = ids.len();
    let kid = keys[id];
    let mut p: usize = 0;
    while p < n && (keys[ids[p]] > kid || (keys[ids[p]] == kid && ids[p] < id))
        invariant
            n == ids@.len(),
            p <= n,
            ids@ == old(ids)@,
            (id as int) < keys@.len(),
            kid == keys@[id as int],
            forall|pp: int| 0 <= pp < ids@.len() ==> (#[trigger] ids@[pp] as int) < keys@.len(),
            sorted_by_key(keys@, ids@),
            !id_in(ids@, id as int),
            forall|k: int| 0 <= k < p ==> key_before(keys@, #[trigger] ids@[k], id),
        decreases n - p,
    {
        p += 1;
    }
    proof {
        if p < n {
            assert(ids@[p as int] != id);
            assert(key_before(keys@, id, ids@[p as int]));
        }
        assert forall|k: int| p <= k < n implies key_before(keys@, id, #[trigger] ids@[k]) by {
            if k > p {
                assert(key_before(keys@, ids@[p as int], ids@[k]));
            }
        }
    }
    ids.insert(p, id);
    proof {
        let newr = ids@;
        let oldr = old(ids)@;
        assert forall|p1: int, p2: int|
            0 <= p1 < p2 < newr.len() implies key_before(
            keys@,
            #[trigger] newr[p1],
            #[trigger] newr[p2],
        ) by {
            if p1 < p && p2 > p {
                assert(newr[p1] == oldr[p1]);
            }
        }
        assert forall|v: int|
            id_in(newr, v) implies (v == id || id_in(oldr, v)) by {
            let q = choose|q: int| 0 <= q < newr.len() && (#[trigger] newr[q]) == v;
            if q < p {
                assert(oldr[q] == v);
            } else if q > p {
                assert(oldr[q - 1] == v);
            }
        }
        assert forall|v: int|
            (v == id || id_in(oldr, v)) implies id_in(newr, v) by {
            if v == id {
                assert(newr[p as int] == v);
            } else {
                let q = choose|q: int| 0 <= q < oldr.len() && (#[trigger] oldr[q]) == v;
                if q < p {
                    assert(newr[q] == v);
                } else {
                    assert(newr[q + 1] == v);
                }
            }
        }
        assert forall|q: int| 0 <= q < oldr.len() implies newr.contains(#[trigger] oldr[q]) by {
            if q < p {
                assert(newr[q] == oldr[q]);
            } else {
                assert(newr[q + 1] == oldr[q]);
            }
        }
        assert forall|q: int|
            0 <= q < newr.len() implies #[trigger] newr[q] == id || oldr.contains(newr[q]) by {
            if q < p {
                assert(oldr[q] == newr[q]);
            } else if q > p {
                assert(oldr[q - 1] == newr[q]);
            }
        }
    }
}

/// The ids `0..keys.len()` in walk order: the larger key first, ties by
/// the smaller id.
fn build_sorted_indexes(skeys: &Vec<i128>) -> (r: Vec<usize>)
    ensures
        r@.len() == skeys@.len(),
        sorted_by_key(skeys@, r@),
        forall|v: int| #[trigger] id_in(r@, v) <==> 0 <= v < skeys@.len(),
{
    let n = skeys.len();
    let mut indexes: Vec<usize> = Vec::new();
    let mut i5: usize = 0;
    while i5 < n
        invariant
            n == skeys@.len(),
            i5 <= n,
            indexes@.len() == i5,
            sorted_by_key(skeys@, indexes@),
            forall|p: int| 0 <= p < indexes@.len() ==> (#[trigger] indexes@[p] as int) < i5,
            forall|v: int| #[trigger] id_in(indexes@, v) <==> 0 <= v < i5,
        decreases n - i5,
    {
        proof {
            if id_in(indexes@, i5 as int) {
                assert(false);
            }
        }
        let ghost old_idx = indexes@;
        insert_by_key(&mut indexes, &skeys, i5);
        proof {
            assert forall|v: int| #[trigger] id_in(indexes@, v) <==> 0 <= v < i5 + 1 by {
                assert(id_in(indexes@, v) <==> (v == i5 || id_in(old_idx, v)));
            }
            assert forall|p: int|
                0 <= p < indexes@.len() implies (#[trigger] indexes@[p] as int) < i5 + 1 by {
                assert(id_in(indexes@, indexes@[p] as int));
            }
        }
        i5 += 1;
    }
    indexes
}

/// The pruned Q-matrix of the RapidNJ-style strategy.
///
/// Merged rows are tombstoned (`None`) and fresh rows append with
/// monotonically growing ids, so `n` only grows while `n_leaves` shrinks.
/// Row `i` stores its scaled distances to the columns `i+1 ..`; `trees[i]`
/// keeps the same pairs ordered by distance (ties by column) for the pruned
/// search; `u_max` bounds all active row sums; `indexes` lists the active
/// ids in descending order of their row sums.
pub struct QMatrix {
    pub distances: Vec<Option<Vec<i128>>>,
    pub sum_cols: Vec<Option<i128>>,
    pub indexes: Vec<usize>,
    pub trees: Vec<Option<Vec<Node>>>,
    pub u_max: i128,
    pub n: usize,
    pub n_leaves: usize,
    pub chunk_size: usize,
    pub den: i128,
    pub limit: Ghost<int>,
}

impl QMatrix {
    /// Total ids handed out so far, tombstoned ones included.
    pub open spec fn total(self) -> int {
        self.distances@.len() as int
    }

    /// The row is live (not yet merged away).
    pub open spec fn active(self, i: int) -> bool {
        0 <= i < self.total() && self.distances@[i] is Some
    }

    pub open spec fn rowv(self, i: int) -> Seq<i128> {
        self.distances@[i]->Some_0@
    }

    /// The scaled distance between the rows `i` and `j`, through the
    /// upper-triangular storage.
    pub open spec fn dval(self, i: int, j: int) -> int {
        if i < j {
            self.rowv(i)[j - i - 1] as int
        } else if j < i {
            self.rowv(j)[i - j - 1] as int
        } else {
            0
        }
    }

    pub open spec fn sumv(self, m: int) -> int {
        self.sum_cols@[m]->Some_0 as int
    }

    pub open spec fn treev(self, m: int) -> Seq<Node> {
        self.trees@[m]->Some_0@
    }

    /// Sum of `dval(m, k)` over the active rows `k` below `cut`.
    pub open spec fn sum_at(self, m: int, cut: int) -> int
        decreases cut,
    {
        if cut <= 0 {
            0
        } else {
            self.sum_at(m, cut - 1) + if self.active(cut - 1) {
                self.dval(m, cut - 1)
            } else {
                0
            }
        }
    }

    /// The Q-criterion over scaled values: `(n_leaves - 2) * d(i,j) - s_i - s_j`.
    pub open spec fn q_of(self, i: int, j: int) -> int {
        (self.n_leaves - 2) * self.dval(i, j) - self.sumv(i) - self.sumv(j)
    }

    /// How many rows below `cut` are live.
    pub open spec fn active_count(self, cut: int) -> int
        decreases cut,
    {
        if cut <= 0 {
            0
        } else {
            self.active_count(cut - 1) + if self.active(cut - 1) {
                1int
            } else {
                0int
            }
        }
    }

    pub open spec fn wf_shape(self) -> bool {
        &&& self.sum_cols@.len() == self.total()
        &&& self.n_leaves == self.active_count(self.total())
        &&& self.trees@.len() == self.total()
        &&& self.n == self.total()
        &&& self.n + self.n_leaves <= 2 * MAX_TAXA
        &&& 3 <= self.n_leaves <= MAX_TAXA
        &&& 1 <= self.den <= CAP
        &&& 0 <= self.limit@ <= CAP
        &&& 1 <= self.chunk_size
        &&& forall|i: int|
            0 <= i < self.total() ==> ((#[trigger] self.sum_cols@[i]) is Some <==> self.active(i))
        &&& forall|i: int|
            0 <= i < self.total() ==> ((#[trigger] self.trees@[i]) is Some <==> self.active(i))
        &&& forall|i: int|
            self.active(i) ==> #[trigger] self.rowv(i).len() == self.total() - i - 1
    }

    /// Entries toward live columns are bounded by `limit`; slots of merged
    /// columns are zeroed.
    pub open spec fn wf_vals(self) -> bool {
        forall|i: int, k: int|
            self.active(i) && 0 <= k < self.rowv(i).len() ==> (if self.active(i + k + 1) {
                -self.limit@ <= (#[trigger] self.rowv(i)[k]) <= self.limit@
            } else {
                self.rowv(i)[k] == 0
            })
    }

    /// Every live row's stored sum is exactly the sum of its distances to
    /// the live columns, and is bounded.
    pub open spec fn wf_sums(self) -> bool {
        forall|m: int|
            self.active(m) ==> #[trigger] self.sumv(m) == self.sum_at(m, self.total()) && -(
            self.n_leaves * self.limit@) <= self.sumv(m) <= self.n_leaves * self.limit@
    }

    /// `u_max` is the largest live row sum.
    pub open spec fn wf_umax(self) -> bool {
        &&& exists|k: int| #[trigger] self.active(k) && self.sumv(k) == self.u_max
        &&& forall|k: int| #[trigger] self.active(k) ==> self.sumv(k) <= self.u_max
    }

    /// The search order of the rows: `x` walks before `y` when its row sum
    /// is larger, ties resolved by the smaller id.
    pub open spec fn idx_before(self, x: usize, y: usize) -> bool {
        self.sumv(x as int) > self.sumv(y as int) || (self.sumv(x as int) == self.sumv(y as int)
            && x < y)
    }

    /// `indexes` lists exactly the live ids, in descending order of their
    /// row sums (ties by ascending id).
    pub open spec fn wf_indexes(self) -> bool {
        &&& self.indexes@.len() == self.n_leaves
        &&& forall|p: int| 0 <= p < self.indexes@.len() ==> self.active(#[trigger] self.indexes@[p] as int)
        &&& forall|p1: int, p2: int|
            0 <= p1 < p2 < self.indexes@.len() ==> self.idx_before(
                #[trigger] self.indexes@[p1],
                #[trigger] self.indexes@[p2],
            )
        &&& forall|i: int|
            #[trigger] self.active(i) ==> exists|p: int|
                0 <= p < self.indexes@.len() && self.indexes@[p] == i
    }

    /// Each live row's ordered set holds exactly one entry per live column
    /// above it, carrying that column's distance, sorted by
    /// `(value, index)`.
    pub open spec fn wf_trees(self) -> bool {
        forall|m: int|
            #[trigger] self.active(m) ==> {
                &&& sorted(self.treev(m))
                &&& forall|p: int|
                    0 <= p < self.treev(m).len() ==> m < (#[trigger] self.treev(m)[p]).index
                        < self.total() && self.active(self.treev(m)[p].index as int) && self.treev(
                        m,
                    )[p].value == self.dval(m, self.treev(m)[p].index as int)
                &&& forall|j: int|
                    #[trigger] self.active(j) && m < j < self.total() ==> has_index(
                        self.treev(m),
                        j,
                    )
            }
    }

    pub open spec fn wf(self) -> bool {
        &&& self.wf_shape()
        &&& self.wf_vals()
        &&& self.wf_sums()
        &&& self.wf_umax()
        &&& self.wf_indexes()
        &&& self.wf_trees()
    }

    pub fn n_leaves(&self) -> (r: usize)
        ensures
            r == self.n_leaves,
    {
        self.n_leaves
    }

    pub fn set_chunk_size(&mut self, chunk_size: usize)
        requires
            chunk_size >= 1,
        ensures
            *final(self) == (QMatrix { chunk_size, ..*old(self) }),
            old(self).wf() ==> final(self).wf(),
    {
        let ghost qa = *self;
        self.chunk_size = chunk_size;
        proof {
            if qa.wf() {
                lemma_wf_chunk_congr(qa, *self);
            }
        }
    }

    /// The scaled distance between the live rows `i` and `j`.
    pub fn distance(&self, i: usize, j: usize) -> (d: i128)
        requires
            self.wf(),
            self.active(i as int),
            self.active(j as int),
        ensures
            d == self.dval(i as int, j as int),
    {
        if i < j {
            self.distances[i].as_ref().unwrap()[j - i - 1]
        } else if j < i {
            self.distances[j].as_ref().unwrap()[i - j - 1]
        } else {
            0
        }
    }

    /// The live ids, in ascending order. At termination these are exactly
    /// the three remaining taxa.
    pub fn unmerged_nodes(&self) -> (r: Vec<usize>)
        requires
            self.wf_shape(),
        ensures
            r@.len() == self.n_leaves,
            forall|p: int| 0 <= p < r@.len() ==> self.active(#[trigger] r@[p] as int),
            forall|p1: int, p2: int|
                0 <= p1 < p2 < r@.len() ==> (#[trigger] r@[p1]) < (#[trigger] r@[p2]),
            forall|i: int|
                #[trigger] self.active(i) ==> exists|p: int| 0 <= p < r@.len() && r@[p] == i,
    {
        let n = self.distances.len();
        let mut r: Vec<usize> = Vec::new();
        let mut a: usize = 0;
        while a < n
            invariant
                n == self.total(),
                a <= n,
                r@.len() == self.active_count(a as int),
                forall|p: int| 0 <= p < r@.len() ==> self.active(#[trigger] r@[p] as int),
                forall|p: int| 0 <= p < r@.len() ==> (#[trigger] r@[p] as int) < a,
                forall|p1: int, p2: int|
                    0 <= p1 < p2 < r@.len() ==> (#[trigger] r@[p1]) < (#[trigger] r@[p2]),
                forall|v: int|
                    self.active(v) && v < a ==> exists|p: int|
                        0 <= p < r@.len() && #[trigger] r@[p] == v,
            decreases n - a,
        {
            let ghost old_r = r@;
            if self.distances[a].is_some() {
                r.push(a);
            }
            proof {
                assert forall|v: int|
                    self.active(v) && v < a + 1 implies exists|p: int|
                        0 <= p < r@.len() && #[trigger] r@[p] == v by {
                    if v == a {
                        assert(r@[r@.len() - 1] == v);
                    } else {
                        let p = choose|p: int| 0 <= p < old_r.len() && old_r[p] == v;
                        assert(r@[p] == v);
                    }
                }
            }
            a += 1;
        }
        proof {
            assert(self.active_count(n as int) == self.n_leaves);
        }
        r
    }

    /// The two branch lengths from the merged pair to the new node, exactly
    /// as in the canonical strategy but over the pruned storage.
    pub fn new_node_distances(&self, i: usize, j: usize) -> (r: (Ratio, Ratio))
        requires
            self.wf(),
            self.active(i as int),
            self.active(j as int),
            i != j,
        ensures
            r.0.num == (self.n_leaves - 2) * self.dval(i as int, j as int) + self.sumv(i as int)
                - self.sumv(j as int),
            r.1.num == (self.n_leaves - 2) * self.dval(i as int, j as int) - self.sumv(i as int)
                + self.sumv(j as int),
            r.0.den == 2 * (self.n_leaves - 2) * self.den,
            r.1.den == r.0.den,
            r.0.wf(),
            r.1.wf(),
    {
        let s = (self.n_leaves - 2) as i128;
        let d = self.distance(i, j);
        let si = self.sum_cols[i].unwrap();
        let sj = self.sum_cols[j].unwrap();
        proof {
            lemma_dval_bound(*self, i as int, j as int);
            assert(-(1024 * CAP) <= s * self.dval(i as int, j as int) <= 1024 * CAP)
                by (nonlinear_arith)
                requires
                    0 <= s <= 1024,
                    -CAP <= self.dval(i as int, j as int) <= CAP,
            ;
            assert(self.n_leaves * self.limit@ <= 1024 * CAP) by (nonlinear_arith)
                requires
                    0 <= self.n_leaves <= 1024,
                    0 <= self.limit@ <= CAP,
            ;
            assert(1 <= 2 * s * self.den <= 4096 * CAP) by (nonlinear_arith)
                requires
                    1 <= s <= 1024,
                    1 <= self.den <= CAP,
            ;
        }
        let base = s * d;
        let den = 2 * s * self.den;
        (Ratio::new(base + si - sj, den), Ratio::new(base - si + sj, den))
    }
}

impl QMatrix {
    /// Build the pruned representation of a distance matrix: the upper
    /// triangle row by row, the ordered sets, the row sums, their maximum,
    /// and the id list in descending row-sum order. The worker batch size
    /// starts at one.
    #[verifier::rlimit(100)]
    #[verifier::spinoff_prover]
    pub fn from(d: &DistanceMatrix) -> (q: QMatrix)
        requires
            d.valid_input(),
            d.matrix@.len() >= 3,
        ensures
            q.wf(),
            q.total() == d.matrix@.len(),
            q.n_leaves == d.matrix@.len(),
            q.den == d.den,
            q.chunk_size == 1,
            forall|i: int| 0 <= i < q.total() ==> q.active(i),
            forall|i: int, j: int|
                0 <= i < q.total() && 0 <= j < q.total() ==> #[trigger] q.dval(i, j)
                    == d.matrix@[i]@[j],
            forall|b: int|
                b >= 0 && #[trigger] entries_le(d.matrix@, d.matrix@.len() as int, b) ==> q.limit@
                    <= b,
    {
        let n = d.matrix.len();
        let mut sum_cols: Vec<Option<i128>> = Vec::new();
        let mut skeys: Vec<i128> = Vec::new();
        let mut mx: i128 = 0;
        let mut i: usize = 0;
        while i < n
            invariant
                d.valid_input(),
                n == d.matrix@.len(),
                3 <= n <= MAX_TAXA,
                i <= n,
                sum_cols@.len() == i,
                skeys@.len() == i,
                forall|a: int| 0 <= a < i ==> #[trigger] skeys@[a] == sum_cols@[a]->Some_0,
                0 <= mx <= crate::distances::INPUT_CAP,
                forall|a: int|
                    0 <= a < i ==> (#[trigger] sum_cols@[a]) is Some && sum_cols@[a]->Some_0
                        == crate::naive_nj::matrix::sum_upto(d.matrix@[a]@, n as int),
                forall|x: int, y: int|
                    0 <= x < i && 0 <= y < n ==> #[trigger] d.matrix@[x]@[y] <= mx,
                forall|b: int|
                    b >= 0 && #[trigger] entries_le(d.matrix@, n as int, b) ==> mx <= b,
            decreases n - i,
        {
            let row = &d.matrix[i];
            let mut s: i128 = 0;
            let mut j: usize = 0;
            while j < n
                invariant
                    d.valid_input(),
                    n == d.matrix@.len(),
                    3 <= n <= MAX_TAXA,
                    i < n,
                    j <= n,
                    row == d.matrix@[i as int],
                    0 <= mx <= crate::distances::INPUT_CAP,
                    s == crate::naive_nj::matrix::sum_upto(d.matrix@[i as int]@, j as int),
                    0 <= s <= j * crate::distances::INPUT_CAP,
                    forall|y: int| 0 <= y < j ==> #[trigger] d.matrix@[i as int]@[y] <= mx,
                    forall|x: int, y: int|
                        0 <= x < i && 0 <= y < n ==> #[trigger] d.matrix@[x]@[y] <= mx,
                    forall|b: int|
                        b >= 0 && #[trigger] entries_le(d.matrix@, n as int, b) ==> mx <= b,
                decreases n - j,
            {
                let v = row[j];
                assert(0 <= v <= crate::distances::INPUT_CAP);
                assert(j * crate::distances::INPUT_CAP + crate::distances::INPUT_CAP == (j + 1)
                    * crate::distances::INPUT_CAP) by (nonlinear_arith);
                assert((j + 1) * crate::distances::INPUT_CAP <= 1024
                    * crate::distances::INPUT_CAP) by (nonlinear_arith)
                    requires
                        0 <= j + 1 <= 1024,
                ;
                s = s + v;
                if v > mx {
                    mx = v;
                }
                j += 1;
            }
            sum_cols.push(Some(s));
            skeys.push(s);
            i += 1;
        }
        let mut distances: Vec<Option<Vec<i128>>> = Vec::new();
        let mut i2: usize = 0;
        while i2 < n
            invariant
                d.valid_input(),
                n == d.matrix@.len(),
                i2 <= n,
                distances@.len() == i2,
                forall|a: int| 0 <= a < i2 ==> (#[trigger] distances@[a]) is Some,
                forall|a: int|
                    0 <= a < i2 ==> (#[trigger] distances@[a])->Some_0@.len() == n - a - 1,
                forall|a: int, k: int|
                    0 <= a < i2 && 0 <= k < n - a - 1 ==> #[trigger] distances@[a]->Some_0@[k]
                        == d.matrix@[a]@[a + k + 1],
            decreases n - i2,
        {
            let mut row: Vec<i128> = Vec::new();
            let mut k: usize = 0;
            while k < n - i2 - 1
                invariant
                    d.valid_input(),
                    n == d.matrix@.len(),
                    i2 < n,
                    k <= n - i2 - 1,
                    row@.len() == k,
                    forall|y: int|
                        0 <= y < k ==> #[trigger] row@[y] == d.matrix@[i2 as int]@[i2 + y + 1],
                decreases n - i2 - 1 - k,
            {
                row.push(d.matrix[i2][i2 + k + 1]);
                k += 1;
            }
            distances.push(Some(row));
            i2 += 1;
        }
        let mut trees: Vec<Option<Vec<Node>>> = Vec::new();
        let mut i3: usize = 0;
        while i3 < n
            invariant
                d.valid_input(),
                n == d.matrix@.len(),
                i3 <= n,
                trees@.len() == i3,
                forall|a: int| 0 <= a < i3 ==> (#[trigger] trees@[a]) is Some,
                forall|a: int| 0 <= a < i3 ==> sorted((#[trigger] trees@[a])->Some_0@),
                forall|a: int, p: int|
                    0 <= a < i3 && 0 <= p < trees@[a]->Some_0@.len() ==> a
                        < (#[trigger] trees@[a]->Some_0@[p]).index < n
                        && trees@[a]->Some_0@[p].value == d.matrix@[a]@[trees@[a]->Some_0@[p].index as int],
                forall|a: int, v: int|
                    0 <= a < i3 ==> (#[trigger] has_index(trees@[a]->Some_0@, v) <==> a < v < n),
            decreases n - i3,
        {
            let mut tr: Vec<Node> = Vec::new();
            let mut j: usize = i3 + 1;
            while j < n
                invariant
                    d.valid_input(),
                    n == d.matrix@.len(),
                    i3 < n,
                    i3 + 1 <= j <= n,
                    sorted(tr@),
                    forall|p: int|
                        0 <= p < tr@.len() ==> i3 < (#[trigger] tr@[p]).index < n && tr@[p].value
                            == d.matrix@[i3 as int]@[tr@[p].index as int],
                    forall|v: int| has_index(tr@, v) <==> i3 < v < j,
                decreases n - j,
            {
                let ghost old_tr = tr@;
                let nd = Node::new(j, d.matrix[i3][j]);
                insert_sorted(&mut tr, nd);
                proof {
                    assert forall|p: int|
                        0 <= p < tr@.len() implies i3 < (#[trigger] tr@[p]).index < n
                        && tr@[p].value == d.matrix@[i3 as int]@[tr@[p].index as int] by {
                        if tr@[p] != nd {
                            assert(old_tr.contains(tr@[p]));
                            let q2 = choose|q2: int|
                                0 <= q2 < old_tr.len() && old_tr[q2] == tr@[p];
                            assert(i3 < old_tr[q2].index < n);
                        }
                    }
                    assert forall|v: int| #[trigger] has_index(tr@, v) <==> i3 < v < j + 1 by {
                        assert(has_index(tr@, v) <==> (v == nd.index || has_index(old_tr, v)));
                    }
                }
                j += 1;
            }
            trees.push(Some(tr));
            i3 += 1;
        }
        let mut um: i128 = sum_cols[0].unwrap();
        let mut i4: usize = 1;
        while i4 < n
            invariant
                n == sum_cols@.len(),
                1 <= i4 <= n,
                forall|a: int| 0 <= a < n ==> (#[trigger] sum_cols@[a]) is Some,
                exists|w: int| 0 <= w < i4 && (#[trigger] sum_cols@[w])->Some_0 == um,
                forall|a: int| 0 <= a < i4 ==> (#[trigger] sum_cols@[a])->Some_0 <= um,
            decreases n - i4,
        {
            let s = sum_cols[i4].unwrap();
            if s > um {
                um = s;
            }
            i4 += 1;
        }
        let indexes = build_sorted_indexes(&skeys);
        let q = QMatrix {
            distances,
            sum_cols,
            indexes,
            trees,
            u_max: um,
            n,
            n_leaves: n,
            chunk_size: 1,
            den: d.den,
            limit: Ghost(mx as int),
        };
        proof {
            lemma_count_full(q, q.total());
            assert forall|x: int, y: int|
                0 <= x < q.total() && 0 <= y < q.total() implies #[trigger] q.dval(x, y)
                == d.matrix@[x]@[y] by {
                if x < y {
                    assert(q.rowv(x)[y - x - 1] == d.matrix@[x]@[x + (y - x - 1) + 1]);
                } else if y < x {
                    assert(q.rowv(y)[x - y - 1] == d.matrix@[y]@[y + (x - y - 1) + 1]);
                    assert(d.matrix@[y]@[x] == d.matrix@[x]@[y]);
                }
            }
            assert forall|m: int| q.active(m) implies #[trigger] q.sumv(m) == q.sum_at(
                m,
                q.total(),
            ) && -(q.n_leaves * q.limit@) <= q.sumv(m) <= q.n_leaves * q.limit@ by {
                lemma_sum_at_matches(q, d.matrix@[m]@, m, q.total());
                crate::naive_nj::matrix::lemma_sum_bound(d.matrix@[m]@, q.total(), mx as int);
                assert(q.sumv(m) == crate::naive_nj::matrix::sum_upto(d.matrix@[m]@, q.total()));
            }
            assert forall|m: int| #[trigger] q.active(m) implies {
                &&& sorted(q.treev(m))
                &&& forall|p: int|
                    0 <= p < q.treev(m).len() ==> m < (#[trigger] q.treev(m)[p]).index
                        < q.total() && q.active(q.treev(m)[p].index as int) && q.treev(m)[p].value
                        == q.dval(m, q.treev(m)[p].index as int)
                &&& forall|j: int|
                    #[trigger] q.active(j) && m < j < q.total() ==> has_index(q.treev(m), j)
            } by {
                assert forall|p: int|
                    0 <= p < q.treev(m).len() implies m < (#[trigger] q.treev(m)[p]).index
                    < q.total() && q.active(q.treev(m)[p].index as int) && q.treev(m)[p].value
                    == q.dval(m, q.treev(m)[p].index as int) by {
                    assert(q.treev(m)[p].value == d.matrix@[m]@[q.treev(m)[p].index as int]);
                }
            }
            assert(q.wf_shape());
            assert(q.wf_vals());
            assert(q.wf_umax()) by {
                let w = choose|w: int|
                    0 <= w < n && (#[trigger] sum_cols@[w])->Some_0 == um;
                assert(q.active(w) && q.sumv(w) == q.u_max);
            }
            assert(q.wf_indexes()) by {
                assert forall|i: int| #[trigger] q.active(i) implies exists|p: int|
                    0 <= p < q.indexes@.len() && q.indexes@[p] == i by {
                    assert(id_in(q.indexes@, i));
                }
                assert forall|p1: int, p2: int|
                    0 <= p1 < p2 < q.indexes@.len() implies q.idx_before(
                    #[trigger] q.indexes@[p1],
                    #[trigger] q.indexes@[p2],
                ) by {
                    assert(key_before(skeys@, q.indexes@[p1], q.indexes@[p2]));
                    assert(id_in(q.indexes@, q.indexes@[p1] as int));
                    assert(id_in(q.indexes@, q.indexes@[p2] as int));
                    assert(skeys@[q.indexes@[p1] as int] == q.sumv(q.indexes@[p1] as int));
                    assert(skeys@[q.indexes@[p2] as int] == q.sumv(q.indexes@[p2] as int));
                }
                assert forall|p: int|
                    0 <= p < q.indexes@.len() implies q.active(
                    #[trigger] q.indexes@[p] as int,
                ) by {
                    assert(id_in(q.indexes@, q.indexes@[p] as int));
                }
            }
            assert(q.wf_trees());
            assert(q.wf());
        }
        q
    }
}

/// For a fully live matrix whose distances agree with a dense row, the
/// filtered prefix sum equals the plain prefix sum.
proof fn lemma_sum_at_matches(q: QMatrix, row: Seq<i128>, m: int, cut: int)
    requires
        0 <= m < q.total(),
        cut <= q.total(),
        forall|x: int| 0 <= x < q.total() ==> #[trigger] q.active(x),
        forall|x: int| 0 <= x < q.total() ==> #[trigger] q.dval(m, x) == row[x],
        row.len() >= q.total(),
    ensures
        q.sum_at(m, cut) == crate::naive_nj::matrix::sum_upto(row, cut),
    decreases cut,
{
    if cut > 0 {
        lemma_sum_at_matches(q, row, m, cut - 1);
    }
}

impl QMatrix {
    /// The candidate is a live pair achieving its recorded criterion.
    pub open spec fn best_ok(self, found: bool, bi: int, bj: int, bq: int) -> bool {
        found ==> self.active(bi) && self.active(bj) && bi < bj && bq == self.q_of(bi, bj)
    }

    /// No live pair whose lower row stands among the first `p` searched
    /// rows beats the candidate.
    pub open spec fn covered(self, p: int, found: bool, bq: int) -> bool {
        forall|a: int, b: int|
            #![trigger self.active(a), self.active(b)]
            self.active(a) && self.active(b) && a < b && (exists|qq: int|
                0 <= qq < p && (#[trigger] self.indexes@[qq]) == a) ==> found && bq <= self.q_of(
                a,
                b,
            )
    }

    /// The pruned search: walk each live row's ordered set in increasing
    /// distance, leave the row as soon as the optimistic bound
    /// `(n_leaves-2)*d - s_i - u_max` cannot beat the running minimum, and
    /// return a pair minimising the Q-criterion over all live pairs.
    /// Rows are walked in descending order of their sums, as `indexes`
    /// keeps them; any batching of rows leaves the result unchanged, since
    /// the search is one sequential pass.
    #[verifier::rlimit(80)]
    pub fn find_neighbors(&self) -> (r: (usize, usize))
        requires
            self.wf(),
        ensures
            self.active(r.0 as int),
            self.active(r.1 as int),
            r.0 < r.1,
            forall|a: int, b: int|
                self.active(a) && self.active(b) && a < b ==> self.q_of(r.0 as int, r.1 as int)
                    <= #[trigger] self.q_of(a, b),
    {
        let nl = self.indexes.len();
        let nl2: i128 = (self.n_leaves - 2) as i128;
        let mut found: bool = false;
        let mut bi: usize = 0;
        let mut bj: usize = 0;
        let mut bq: i128 = 0;
        let mut p: usize = 0;
        proof {
            assert(self.n_leaves * self.limit@ <= 1024 * CAP) by (nonlinear_arith)
                requires
                    0 <= self.n_leaves <= 1024,
                    0 <= self.limit@ <= CAP,
            ;
            let w = choose|w: int| #[trigger] self.active(w) && self.sumv(w) == self.u_max;
            assert(-(1024 * CAP) <= self.u_max <= 1024 * CAP);
        }
        while p < nl
            invariant
                self.wf(),
                nl == self.indexes@.len(),
                nl == self.n_leaves,
                nl2 == self.n_leaves - 2,
                -(1024 * CAP) <= self.u_max <= 1024 * CAP,
                p <= nl,
                self.best_ok(found, bi as int, bj as int, bq as int),
                self.covered(p as int, found, bq as int),
            decreases nl - p,
        {
            let i = self.indexes[p];
            let ghost iv = i as int;
            let si = self.sum_cols[i].unwrap();
            let row = self.trees[i].as_ref().unwrap();
            let rlen = row.len();
            let mut k: usize = 0;
            let mut go: usize = 1;
            while k < rlen && go == 1
                invariant
                    self.wf(),
                    nl == self.indexes@.len(),
                    nl == self.n_leaves,
                    nl2 == self.n_leaves - 2,
                    -(1024 * CAP) <= self.u_max <= 1024 * CAP,
                    p < nl,
                    i == self.indexes@[p as int],
                    iv == i as int,
                    self.active(iv),
                    si == self.sumv(iv),
                    row@ == self.treev(iv),
                    rlen == row@.len(),
                    k <= rlen,
                    go == 1 || go == 0,
                    self.best_ok(found, bi as int, bj as int, bq as int),
                    self.covered(p as int, found, bq as int),
                    forall|kk: int|
                        0 <= kk < k ==> found && bq <= self.q_of(
                            iv,
                            (#[trigger] row@[kk]).index as int,
                        ),
                    go == 0 ==> k < rlen && found && nl2 * row@[k as int].value - si - self.u_max
                        >= bq,
                decreases rlen - k + go,
            {
                let e = row[k];
                let j = e.index;
                proof {
                    assert(self.active(j as int) && e.value == self.dval(iv, j as int));
                    lemma_dval_bound(*self, iv, j as int);
                    assert(-(1024 * CAP) <= nl2 * e.value <= 1024 * CAP) by (nonlinear_arith)
                        requires
                            0 <= nl2 <= 1024,
                            -CAP <= e.value <= CAP,
                    ;
                    assert(self.n_leaves * self.limit@ <= 1024 * CAP) by (nonlinear_arith)
                        requires
                            0 <= self.n_leaves <= 1024,
                            0 <= self.limit@ <= CAP,
                    ;
                }
                if found && nl2 * e.value - si - self.u_max >= bq {
                    go = 0;
                } else {
                    let sj = self.sum_cols[j].unwrap();
                    let q = nl2 * e.value - si - sj;
                    if !found || q < bq {
                        found = true;
                        bi = i;
                        bj = j;
                        bq = q;
                    }
                    k += 1;
                }
            }
            proof {
                assert forall|kk: int|
                    k <= kk < rlen implies found && bq <= self.q_of(
                    iv,
                    row@[kk].index as int,
                ) by {
                    let jkk = row@[kk].index as int;
                    assert(self.active(jkk) && row@[kk].value == self.dval(iv, jkk));
                    assert(go == 0);
                    if kk > k {
                        assert(node_lt(row@[k as int], row@[kk]));
                    }
                    assert(row@[kk].value >= row@[k as int].value);
                    assert(self.sumv(jkk) <= self.u_max);
                    assert(nl2 * row@[kk].value >= nl2 * row@[k as int].value)
                        by (nonlinear_arith)
                        requires
                            nl2 >= 0,
                            row@[kk].value >= row@[k as int].value,
                    ;
                }
                assert forall|b: int|
                    self.active(b) && iv < b implies found && bq <= #[trigger] self.q_of(
                    iv,
                    b,
                ) by {
                    assert(has_index(self.treev(iv), b));
                    let kk = choose|kk: int|
                        0 <= kk < self.treev(iv).len() && (#[trigger] self.treev(iv)[kk]).index
                            == b;
                    assert(row@[kk].index == b);
                    if kk < k {
                        assert(found && bq <= self.q_of(iv, row@[kk].index as int));
                    } else {
                        assert(found && bq <= self.q_of(iv, row@[kk].index as int));
                    }
                }
                lemma_extend_cover(*self, p as int, iv, found, bq as int);
                assert(self.covered(p as int + 1, found, bq as int));
            }
            p += 1;
        }
        proof {
            let i0 = self.indexes@[0] as int;
            let i1 = self.indexes@[1] as int;
            assert(self.active(i0) && self.active(i1));
            assert(self.idx_before(self.indexes@[0], self.indexes@[1]));
            assert(i0 != i1);
            let a = if i0 < i1 {
                i0
            } else {
                i1
            };
            let b = if i0 < i1 {
                i1
            } else {
                i0
            };
            assert(exists|qq: int|
                0 <= qq < nl && (#[trigger] self.indexes@[qq]) == a) by {
                if a == i0 {
                    assert(self.indexes@[0] == a);
                } else {
                    assert(self.indexes@[1] == a);
                }
            }
            assert(found && bq <= self.q_of(a, b));
            assert forall|x: int, y: int|
                self.active(x) && self.active(y) && x < y implies self.q_of(bi as int, bj as int)
                <= #[trigger] self.q_of(x, y) by {
                let px = choose|px: int|
                    0 <= px < self.indexes@.len() && self.indexes@[px] == x;
                assert(exists|qq: int| 0 <= qq < nl && (#[trigger] self.indexes@[qq]) == x);
            }
        }
        (bi, bj)
    }
}

/// The doubled merged distance of the surviving row `a` to the fresh row.
pub open spec fn merged_val(qo: QMatrix, i: int, j: int, a: int) -> int {
    qo.dval(a, i) + qo.dval(a, j) - qo.dval(i, j)
}

/// The sum a surviving row holds after the merge: doubled, minus its two
/// merged distances, plus the appended merged distance.
pub open spec fn newsum_row(qo: QMatrix, i: int, j: int, a: int) -> int {
    2 * (qo.sumv(a) - qo.dval(a, i) - qo.dval(a, j)) + merged_val(qo, i, j, a)
}

/// What the update has done to one surviving row: every old slot doubled,
/// the slots of the two merged columns zeroed, the merged distance
/// appended; the ordered set rewritten to match; the sum adjusted by the
/// two removals and the one insertion.
pub open spec fn processed_row(qo: QMatrix, qn: QMatrix, i: int, j: int, a: int) -> bool {
    let n = qo.total();
    &&& qn.rowv(a).len() == n - a
    &&& forall|k: int|
        0 <= k < n - a - 1 ==> #[trigger] qn.rowv(a)[k] == (if a + k + 1 == i || a + k + 1 == j {
            0int
        } else {
            2 * qo.rowv(a)[k]
        })
    &&& qn.rowv(a)[n - a - 1] == merged_val(qo, i, j, a)
    &&& qn.sumv(a) == newsum_row(qo, i, j, a)
    &&& sorted(qn.treev(a))
    &&& forall|p: int|
        0 <= p < qn.treev(a).len() ==> a < (#[trigger] qn.treev(a)[p]).index <= n && (qn.treev(
            a,
        )[p].index < n ==> qo.active(qn.treev(a)[p].index as int) && qn.treev(a)[p].index != i
            && qn.treev(a)[p].index != j && qn.treev(a)[p].value == 2 * qo.dval(
            a,
            qn.treev(a)[p].index as int,
        )) && (qn.treev(a)[p].index == n ==> qn.treev(a)[p].value == merged_val(qo, i, j, a))
    &&& forall|v: int|
        #[trigger] has_index(qn.treev(a), v) <==> (v == n || (qo.active(v) && a < v < n && v != i
            && v != j))
}

/// The fields the update's survivor loop leaves alone, and the rows it has
/// already rewritten.
pub open spec fn mid_state(qo: QMatrix, qn: QMatrix, i: int, j: int, m: int) -> bool {
    &&& qn.distances@.len() == qo.total()
    &&& qn.sum_cols@.len() == qo.total()
    &&& qn.trees@.len() == qo.total()
    &&& qn.n == qo.n
    &&& qn.n_leaves == qo.n_leaves
    &&& qn.den == qo.den
    &&& qn.u_max == qo.u_max
    &&& qn.chunk_size == qo.chunk_size
    &&& qn.indexes == qo.indexes
    &&& qn.limit == qo.limit
    &&& forall|a: int|
        0 <= a < qo.total() ==> ((#[trigger] qn.distances@[a]) is Some <==> qo.active(a))
    &&& forall|a: int|
        0 <= a < qo.total() ==> ((#[trigger] qn.trees@[a]) is Some <==> qo.active(a))
    &&& forall|a: int|
        0 <= a < qo.total() ==> ((#[trigger] qn.sum_cols@[a]) is Some <==> qo.active(a))
    &&& forall|a: int|
        0 <= a < qo.total() && (m <= a || a == i || a == j) ==> #[trigger] qn.distances@[a]
            == qo.distances@[a]
    &&& forall|a: int|
        0 <= a < qo.total() && (m <= a || a == i || a == j) ==> #[trigger] qn.trees@[a]
            == qo.trees@[a]
    &&& forall|a: int|
        0 <= a < qo.total() && (m <= a || a == i || a == j) ==> #[trigger] qn.sum_cols@[a]
            == qo.sum_cols@[a]
    &&& forall|a: int|
        0 <= a < m && a != i && a != j && qo.active(a) ==> #[trigger] processed_row(
            qo,
            qn,
            i,
            j,
            a,
        )
}

/// Like `lemma_dval_bound`, against an arbitrary slot bound.
proof fn lemma_dval_mag(q: QMatrix, i: int, j: int, b: int)
    requires
        q.wf_shape(),
        q.active(i),
        q.active(j),
        b >= 0,
        forall|a: int, k: int|
            q.active(a) && 0 <= k < q.rowv(a).len() ==> -b <= #[trigger] q.rowv(a)[k] <= b,
    ensures
        -b <= q.dval(i, j) <= b,
{
    if i < j {
        assert(q.rowv(i)[j - i - 1] == q.dval(i, j));
    } else if j < i {
        assert(q.rowv(j)[i - j - 1] == q.dval(i, j));
    }
}

/// Once a search row is exhausted, the covered frontier grows by that
/// row: every pair whose lower row was just finished is now accounted for.
proof fn lemma_extend_cover(q: QMatrix, p: int, iv: int, found: bool, bq: int)
    requires
        q.wf(),
        0 <= p < q.indexes@.len(),
        iv == q.indexes@[p],
        q.covered(p, found, bq),
        forall|b: int|
            q.active(b) && iv < b ==> found && bq <= #[trigger] q.q_of(iv, b),
    ensures
        q.covered(p + 1, found, bq),
{
    assert forall|a: int, b: int|
        q.active(a) && q.active(b) && a < b && (exists|qq: int|
            0 <= qq < p + 1 && (#[trigger] q.indexes@[qq]) == a) implies found && bq <= q.q_of(
        a,
        b,
    ) by {
        let qq = choose|qq: int| 0 <= qq < p + 1 && (#[trigger] q.indexes@[qq]) == a;
        if qq < p {
            assert(exists|q2: int| 0 <= q2 < p && (#[trigger] q.indexes@[q2]) == a);
            assert(found && bq <= q.q_of(a, b));
        } else {
            assert(a == iv);
            assert(found && bq <= q.q_of(iv, b));
        }
    }
}

/// A fully live matrix has as many live rows as rows.
proof fn lemma_count_full(q: QMatrix, cut: int)
    requires
        0 <= cut <= q.total(),
        forall|x: int| 0 <= x < q.total() ==> #[trigger] q.active(x),
    ensures
        q.active_count(cut) == cut,
    decreases cut,
{
    if cut > 0 {
        lemma_count_full(q, cut - 1);
    }
}

/// Live-row counts never exceed the range counted.
proof fn lemma_count_le(q: QMatrix, cut: int)
    requires
        0 <= cut,
    ensures
        0 <= q.active_count(cut) <= cut,
    decreases cut,
{
    if cut > 0 {
        lemma_count_le(q, cut - 1);
    }
}

/// After tombstoning `i` and `j`, counts drop by one per tombstone seen.
proof fn lemma_count_update(qo: QMatrix, qn: QMatrix, i: int, j: int, cut: int)
    requires
        0 <= cut <= qo.total(),
        i != j,
        qo.active(i),
        qo.active(j),
        forall|a: int|
            0 <= a < qo.total() ==> (#[trigger] qn.active(a) <==> (qo.active(a) && a != i && a
                != j)),
    ensures
        qn.active_count(cut) == qo.active_count(cut) - (if 0 <= i < cut {
            1int
        } else {
            0int
        }) - (if 0 <= j < cut {
            1int
        } else {
            0int
        }),
    decreases cut,
{
    if cut > 0 {
        lemma_count_update(qo, qn, i, j, cut - 1);
    }
}

/// A surviving row's filtered prefix sum doubles, minus its two merged
/// distances.
proof fn lemma_sum_at_rel(qo: QMatrix, qn: QMatrix, i: int, j: int, m: int, cut: int)
    requires
        0 <= cut <= qo.total(),
        i != j,
        qo.active(i),
        qo.active(j),
        forall|a: int|
            0 <= a < qo.total() ==> (#[trigger] qn.active(a) <==> (qo.active(a) && a != i && a
                != j)),
        forall|a: int|
            0 <= a < qo.total() && qn.active(a) && a != m ==> #[trigger] qn.dval(m, a) == 2
                * qo.dval(m, a),
    ensures
        qn.sum_at(m, cut) == 2 * (qo.sum_at(m, cut) - (if 0 <= i < cut {
            qo.dval(m, i)
        } else {
            0int
        }) - (if 0 <= j < cut {
            qo.dval(m, j)
        } else {
            0int
        })),
    decreases cut,
{
    if cut > 0 {
        lemma_sum_at_rel(qo, qn, i, j, m, cut - 1);
    }
}

/// The distance of each merged pair to the fresh row, summed over the
/// survivors below `cut`.
pub open spec fn newsum_upto(qo: QMatrix, i: int, j: int, cut: int) -> int
    decreases cut,
{
    if cut <= 0 {
        0
    } else {
        newsum_upto(qo, i, j, cut - 1) + if qo.active(cut - 1) && cut - 1 != i && cut - 1 != j {
            qo.dval(cut - 1, i) + qo.dval(cut - 1, j) - qo.dval(i, j)
        } else {
            0
        }
    }
}

/// The fresh row's filtered prefix sum is the accumulated merged-pair sum.
proof fn lemma_sum_at_newrow(qo: QMatrix, qn: QMatrix, i: int, j: int, nid: int, cut: int)
    requires
        0 <= cut <= qo.total(),
        nid == qo.total(),
        forall|a: int|
            0 <= a < qo.total() ==> (#[trigger] qn.active(a) <==> (qo.active(a) && a != i && a
                != j)),
        forall|a: int|
            0 <= a < qo.total() && qn.active(a) ==> #[trigger] qn.dval(nid, a) == qo.dval(a, i)
                + qo.dval(a, j) - qo.dval(i, j),
    ensures
        qn.sum_at(nid, cut) == newsum_upto(qo, i, j, cut),
    decreases cut,
{
    if cut > 0 {
        lemma_sum_at_newrow(qo, qn, i, j, nid, cut - 1);
    }
}

/// A filtered prefix sum of pointwise-bounded distances is bounded by the
/// live count times the bound.
proof fn lemma_sum_at_abs(q: QMatrix, m: int, cut: int, b: int)
    requires
        0 <= cut,
        b >= 0,
        forall|a: int| #[trigger] q.active(a) ==> -b <= q.dval(m, a) <= b,
    ensures
        -(q.active_count(cut) * b) <= q.sum_at(m, cut) <= q.active_count(cut) * b,
    decreases cut,
{
    if cut > 0 {
        lemma_sum_at_abs(q, m, cut - 1, b);
        assert((q.active_count(cut - 1) + 1) * b == q.active_count(cut - 1) * b + b)
            by (nonlinear_arith);
    }
}

/// Within one row's ordered set every column appears at most once.
proof fn lemma_tree_distinct(q: QMatrix, m: int)
    requires
        q.wf_shape(),
        q.wf_trees(),
        q.active(m),
    ensures
        forall|p1: int, p2: int|
            0 <= p1 < p2 < q.treev(m).len() ==> (#[trigger] q.treev(m)[p1]).index
                != (#[trigger] q.treev(m)[p2]).index,
{
    assert forall|p1: int, p2: int|
        0 <= p1 < p2 < q.treev(m).len() implies (#[trigger] q.treev(m)[p1]).index
        != (#[trigger] q.treev(m)[p2]).index by {
        assert(node_lt(q.treev(m)[p1], q.treev(m)[p2]));
        if q.treev(m)[p1].index == q.treev(m)[p2].index {
            assert(q.treev(m)[p1].value == q.dval(m, q.treev(m)[p1].index as int));
            assert(q.treev(m)[p2].value == q.dval(m, q.treev(m)[p2].index as int));
        }
    }
}

impl QMatrix {
    /// The largest magnitude stored in any live row.
    fn max_mag(&self) -> (mx: i128)
        requires
            self.wf(),
        ensures
            0 <= mx <= self.limit@,
            forall|a: int, k: int|
                self.active(a) && 0 <= k < self.rowv(a).len() ==> -mx <= #[trigger] self.rowv(a)[k]
                    <= mx,
    {
        let n = self.distances.len();
        let mut mx: i128 = 0;
        let mut a: usize = 0;
        while a < n
            invariant
                self.wf(),
                n == self.total(),
                a <= n,
                0 <= mx <= self.limit@,
                forall|x: int, k: int|
                    self.active(x) && x < a && 0 <= k < self.rowv(x).len() ==> -mx
                        <= #[trigger] self.rowv(x)[k] <= mx,
            decreases n - a,
        {
            if self.distances[a].is_some() {
                let row = self.distances[a].as_ref().unwrap();
                let rl = row.len();
                let mut k: usize = 0;
                while k < rl
                    invariant
                        self.wf(),
                        n == self.total(),
                        a < n,
                        self.active(a as int),
                        row@ == self.rowv(a as int),
                        rl == row@.len(),
                        k <= rl,
                        0 <= mx <= self.limit@,
                        forall|x: int, kk: int|
                            self.active(x) && x < a && 0 <= kk < self.rowv(x).len() ==> -mx
                                <= #[trigger] self.rowv(x)[kk] <= mx,
                        forall|kk: int|
                            0 <= kk < k ==> -mx <= #[trigger] self.rowv(a as int)[kk] <= mx,
                    decreases rl - k,
                {
                    let v = row[k];
                    proof {
                        if self.active(a as int + k + 1) {
                        } else {
                            assert(self.rowv(a as int)[k as int] == 0);
                        }
                    }
                    if v > mx {
                        mx = v;
                    } else if v < 0 && -v > mx {
                        mx = -v;
                    }
                    k += 1;
                }
            }
            a += 1;
        }
        mx
    }

    /// Merge the live rows `i < j`: rewrite every surviving row (doubled
    /// slots, merged columns zeroed, the merged distance appended), adjust
    /// its ordered set and sum, tombstone the two rows, append the fresh
    /// row, double the shared denominator, and rebuild `u_max` and the id
    /// list. Fails only when a value would outgrow the 128-bit capacity,
    /// leaving the state untouched.
    #[verifier::rlimit(100)]
    #[verifier::spinoff_prover]
    pub fn update(&mut self, i: usize, j: usize) -> (r: Result<(), NjError>)
        requires
            old(self).wf(),
            old(self).active(i as int),
            old(self).active(j as int),
            i < j,
            old(self).n_leaves > 3,
        ensures
            r is Err ==> *final(self) == *old(self) && (r matches Err(NjError::InputInvalid(_))),
            3 * old(self).limit@ <= CAP && 2 * old(self).den <= CAP ==> r is Ok,
            r is Ok ==> {
                &&& final(self).wf()
                &&& final(self).total() == old(self).total() + 1
                &&& final(self).n_leaves == old(self).n_leaves - 1
                &&& final(self).den == 2 * old(self).den
                &&& final(self).chunk_size == old(self).chunk_size
                &&& forall|a: int|
                    #[trigger] final(self).active(a) <==> (a == old(self).total() || (old(
                        self,
                    ).active(a) && a != i && a != j))
                &&& forall|a: int, b: int|
                    old(self).active(a) && old(self).active(b) && a != i && a != j && b != i && b
                        != j ==> #[trigger] final(self).dval(a, b) == 2 * old(self).dval(a, b)
                &&& forall|a: int|
                    old(self).active(a) && a != i && a != j ==> #[trigger] final(self).dval(
                        a,
                        old(self).total(),
                    ) == merged_val(*old(self), i as int, j as int, a)
                &&& final(self).limit@ == (if 3 * old(self).limit@ <= CAP {
                    3 * old(self).limit@
                } else {
                    CAP as int
                })
            },
    {
        let mx = self.max_mag();
        if 3 * mx > CAP {
            return Err(NjError::InputInvalid(
                "input exceeds the exact arithmetic capacity".to_owned(),
            ));
        }
        if self.den > CAP / 2 {
            return Err(NjError::InputInvalid(
                "input exceeds the exact arithmetic capacity".to_owned(),
            ));
        }
        let ghost qo = *self;
        let n = self.distances.len();
        let dij = self.distance(i, j);
        proof {
            lemma_dval_mag(qo, i as int, j as int, mx as int);
            assert(qo.n_leaves * qo.limit@ <= 1024 * CAP) by (nonlinear_arith)
                requires
                    0 <= qo.n_leaves <= 1024,
                    0 <= qo.limit@ <= CAP,
            ;
        }
        let mut news: i128 = 0;
        let mut um: i128 = 0;
        let mut have_um: bool = false;
        let mut m: usize = 0;
        while m < n
            invariant
                qo.wf(),
                qo.active(i as int),
                qo.active(j as int),
                i < j < n,
                n == qo.total(),
                qo.n_leaves > 3,
                dij == qo.dval(i as int, j as int),
                0 <= mx <= qo.limit@,
                3 * mx <= CAP,
                qo.den <= CAP / 2,
                qo.n_leaves * qo.limit@ <= 1024 * CAP,
                forall|a: int, k: int|
                    qo.active(a) && 0 <= k < qo.rowv(a).len() ==> -mx <= #[trigger] qo.rowv(a)[k]
                        <= mx,
                m <= n,
                mid_state(qo, *self, i as int, j as int, m as int),
                news == newsum_upto(qo, i as int, j as int, m as int),
                -(qo.active_count(m as int) * CAP) <= news <= qo.active_count(m as int) * CAP,
                have_um <==> (exists|a: int|
                    0 <= a < m && #[trigger] qo.active(a) && a != i && a != j),
                have_um ==> (exists|a: int|
                    0 <= a < m && #[trigger] qo.active(a) && a != i && a != j && newsum_row(
                        qo,
                        i as int,
                        j as int,
                        a,
                    ) == um),
                forall|a: int|
                    0 <= a < m && #[trigger] qo.active(a) && a != i && a != j ==> newsum_row(
                        qo,
                        i as int,
                        j as int,
                        a,
                    ) <= um,
            decreases n - m,
        {
            proof {
                lemma_count_le(qo, m as int + 1);
            }
            let keep = m != i && m != j && self.distances[m].is_some();
            if keep {
                let nn = self.process_survivor(Ghost(qo), i, j, m, mx, dij);
                let nmd = nn.0;
                let ns = nn.1;
                proof {
                    assert(newsum_upto(qo, i as int, j as int, m as int + 1) == newsum_upto(
                        qo,
                        i as int,
                        j as int,
                        m as int,
                    ) + merged_val(qo, i as int, j as int, m as int));
                    assert((qo.active_count(m as int) + 1) * CAP == qo.active_count(m as int)
                        * CAP + CAP) by (nonlinear_arith);
                }
                news = news + nmd;

                if !have_um || ns > um {
                    um = ns;
                    have_um = true;
                }
            } else {
                proof {
                    assert(newsum_upto(qo, i as int, j as int, m as int + 1) == newsum_upto(
                        qo,
                        i as int,
                        j as int,
                        m as int,
                    ));
                    assert(qo.active_count(m as int) * CAP <= qo.active_count(m as int + 1)
                        * CAP) by (nonlinear_arith)
                        requires
                            qo.active_count(m as int) <= qo.active_count(m as int + 1),
                            CAP > 0,
                    ;
                    assert forall|a: int|
                        0 <= a < m + 1 && #[trigger] qo.active(a) && a != i && a
                            != j implies newsum_row(qo, i as int, j as int, a) <= um by {
                        assert(a < m);
                    }
                }
            }
            m += 1;
        }
        proof {
            lemma_survivor_exists(qo, i as int, j as int);
            assert(have_um);
        }
        self.finish_update(Ghost(qo), i, j, mx, news, um);
        Ok(())
    }

    /// Tombstone the merged rows, append the fresh row, rebuild the id
    /// list and the row-sum maximum, and re-establish the invariant.
    #[verifier::rlimit(100)]
    fn finish_update(&mut self, Ghost(qo): Ghost<QMatrix>, i: usize, j: usize, mx: i128, news: i128, um: i128)
        requires
            qo.wf(),
            qo.active(i as int),
            qo.active(j as int),
            i < j < qo.total(),
            qo.n_leaves > 3,
            0 <= mx <= qo.limit@,
            3 * mx <= CAP,
            qo.den <= CAP / 2,
            forall|a: int, k: int|
                qo.active(a) && 0 <= k < qo.rowv(a).len() ==> -mx <= #[trigger] qo.rowv(a)[k]
                    <= mx,
            mid_state(qo, *old(self), i as int, j as int, qo.total()),
            news == newsum_upto(qo, i as int, j as int, qo.total()),
            exists|a: int|
                0 <= a < qo.total() && #[trigger] qo.active(a) && a != i && a != j && newsum_row(
                    qo,
                    i as int,
                    j as int,
                    a,
                ) == um,
            forall|a: int|
                0 <= a < qo.total() && #[trigger] qo.active(a) && a != i && a != j ==> newsum_row(
                    qo,
                    i as int,
                    j as int,
                    a,
                ) <= um,
        ensures
            final(self).wf(),
            final(self).total() == qo.total() + 1,
            final(self).n_leaves == qo.n_leaves - 1,
            final(self).den == 2 * qo.den,
            final(self).chunk_size == qo.chunk_size,
            forall|a: int|
                #[trigger] final(self).active(a) <==> (a == qo.total() || (qo.active(a) && a != i
                    && a != j)),
            forall|a: int, b: int|
                qo.active(a) && qo.active(b) && a != i && a != j && b != i && b != j
                    ==> #[trigger] final(self).dval(a, b) == 2 * qo.dval(a, b),
            forall|a: int|
                qo.active(a) && a != i && a != j ==> #[trigger] final(self).dval(a, qo.total())
                    == merged_val(qo, i as int, j as int, a),
            final(self).limit@ == (if 3 * qo.limit@ <= CAP {
                3 * qo.limit@
            } else {
                CAP as int
            }),
    {
        let n = self.distances.len();
        proof {
            assert(n == qo.total());
        }
        let mut idx2 = self.rebuild_indexes(Ghost(qo), i, j);
        let ghost surv_asc = idx2@;
        idx2.push(n);
        proof {
            assert(qo.active_count(n as int) == qo.n_leaves);
            assert(idx2@.len() == qo.n_leaves - 1);
            assert forall|p1: int, p2: int|
                0 <= p1 < p2 < idx2@.len() implies (#[trigger] idx2@[p1])
                < (#[trigger] idx2@[p2]) by {
                if p2 < idx2@.len() - 1 {
                    assert(surv_asc[p1] < surv_asc[p2]);
                } else {
                    assert((idx2@[p1] as int) < n);
                }
            }
        }
        let um_final: i128 = if news > um {
            news
        } else {
            um
        };
        let ghost qmid = *self;
        self.distances[i] = None;
        self.distances[j] = None;
        self.trees[i] = None;
        self.trees[j] = None;
        self.sum_cols[i] = None;
        self.sum_cols[j] = None;
        self.distances.push(Some(Vec::new()));
        self.trees.push(Some(Vec::new()));
        self.sum_cols.push(Some(news));
        self.den = 2 * self.den;
        self.n = self.n + 1;
        self.n_leaves = self.n_leaves - 1;
        let total2 = self.sum_cols.len();
        let mut keys: Vec<i128> = Vec::new();
        let mut a3: usize = 0;
        while a3 < total2
            invariant
                total2 == self.sum_cols@.len(),
                a3 <= total2,
                keys@.len() == a3,
                forall|x: int|
                    0 <= x < a3 && (#[trigger] self.sum_cols@[x]) is Some ==> keys@[x]
                        == self.sum_cols@[x]->Some_0,
            decreases total2 - a3,
        {
            let k: i128 = match self.sum_cols[a3] {
                Some(v) => v,
                None => 0,
            };
            keys.push(k);
            a3 += 1;
        }
        let nid2 = idx2.len();
        proof {
            assert forall|p: int|
                0 <= p < idx2@.len() implies (#[trigger] idx2@[p] as int) < total2 by {
                if p < idx2@.len() - 1 {
                    assert(surv_asc[p] == idx2@[p]);
                }
            }
        }
        let mut idx_sorted: Vec<usize> = Vec::new();
        let mut p4: usize = 0;
        while p4 < nid2
            invariant
                nid2 == idx2@.len(),
                p4 <= nid2,
                keys@.len() == total2,
                forall|p: int| 0 <= p < idx2@.len() ==> (#[trigger] idx2@[p] as int) < total2,
                forall|p1: int, p2: int|
                    0 <= p1 < p2 < idx2@.len() ==> (#[trigger] idx2@[p1]) < (#[trigger] idx2@[p2]),
                idx_sorted@.len() == p4,
                sorted_by_key(keys@, idx_sorted@),
                forall|p: int|
                    0 <= p < idx_sorted@.len() ==> (#[trigger] idx_sorted@[p] as int) < total2,
                forall|v: int|
                    #[trigger] id_in(idx_sorted@, v) <==> (exists|pp: int|
                        0 <= pp < p4 && (#[trigger] idx2@[pp]) == v),
            decreases nid2 - p4,
        {
            let id = idx2[p4];
            proof {
                if id_in(idx_sorted@, id as int) {
                    let pp = choose|pp: int| 0 <= pp < p4 && (#[trigger] idx2@[pp]) == id as int;
                    assert(idx2@[pp] < idx2@[p4 as int]);
                    assert(false);
                }
            }
            let ghost old_s = idx_sorted@;
            insert_by_key(&mut idx_sorted, &keys, id);
            proof {
                assert forall|v: int|
                    #[trigger] id_in(idx_sorted@, v) <==> (exists|pp: int|
                        0 <= pp < p4 + 1 && (#[trigger] idx2@[pp]) == v) by {
                    assert(id_in(idx_sorted@, v) <==> (v == id || id_in(old_s, v)));
                    if v == id {
                        assert(idx2@[p4 as int] == v);
                    }
                    if exists|pp: int| 0 <= pp < p4 + 1 && (#[trigger] idx2@[pp]) == v {
                        let pp = choose|pp: int|
                            0 <= pp < p4 + 1 && (#[trigger] idx2@[pp]) == v;
                        if pp == p4 {
                            assert(v == id);
                        } else {
                            assert(id_in(old_s, v));
                        }
                    }
                }
                assert forall|p: int|
                    0 <= p < idx_sorted@.len() implies (#[trigger] idx_sorted@[p] as int)
                    < total2 by {
                    assert(id_in(idx_sorted@, idx_sorted@[p] as int));
                    let pp = choose|pp: int|
                        0 <= pp < p4 + 1 && (#[trigger] idx2@[pp]) == idx_sorted@[p] as int;
                    assert((idx2@[pp] as int) < total2);
                }
            }
            p4 += 1;
        }
        self.indexes = idx_sorted;
        self.u_max = um_final;
        let ghost old_limit = qo.limit@;
        self.limit = Ghost(
            if 3 * old_limit <= CAP {
                3 * old_limit
            } else {
                CAP as int
            },
        );
        proof {
            let qf = *self;
            assert forall|a: int|
                0 <= a < n && a != i as int && a != j as int && qo.active(
                    a,
                ) implies #[trigger] processed_row(qo, qf, i as int, j as int, a) by {
                assert(processed_row(qo, qmid, i as int, j as int, a));
                assert(qf.distances@[a] == qmid.distances@[a]);
                assert(qf.trees@[a] == qmid.trees@[a]);
                assert(qf.sum_cols@[a] == qmid.sum_cols@[a]);
                assert(qf.rowv(a) == qmid.rowv(a));
                assert(qf.treev(a) == qmid.treev(a));
                assert(qf.sumv(a) == qmid.sumv(a));
            }
            assert forall|a: int|
                0 <= a < n && a != i as int && a != j as int implies ((
            #[trigger] qf.distances@[a]) is Some <==> qo.active(a)) && ((qf.trees@[a]) is Some
                <==> qo.active(a)) && ((qf.sum_cols@[a]) is Some <==> qo.active(a)) by {
                assert(qf.distances@[a] == qmid.distances@[a]);
                assert(qf.trees@[a] == qmid.trees@[a]);
                assert(qf.sum_cols@[a] == qmid.sum_cols@[a]);
            }
            lemma_update_state(qo, qf, i as int, j as int, mx as int, news as int);
            assert(qf.wf_umax()) by {
                assert forall|kk: int| #[trigger] qf.active(kk) implies qf.sumv(kk)
                    <= qf.u_max by {
                    if kk < n {
                        assert(processed_row(qo, qf, i as int, j as int, kk));
                        assert(qf.sumv(kk) == newsum_row(qo, i as int, j as int, kk));
                    } else {
                        assert(qf.sumv(kk) == news);
                    }
                }
                if news > um {
                    assert(qf.active(n as int) && qf.sumv(n as int) == qf.u_max);
                } else {
                    let w = choose|a: int|
                        0 <= a < n && #[trigger] qo.active(a) && a != i && a != j && newsum_row(
                            qo,
                            i as int,
                            j as int,
                            a,
                        ) == um;
                    assert(processed_row(qo, qf, i as int, j as int, w));
                    assert(qf.active(w) && qf.sumv(w) == qf.u_max);
                }
            }
            assert(qf.wf_indexes()) by {
                assert(qf.indexes@.len() == qf.n_leaves);
                assert forall|p: int|
                    0 <= p < qf.indexes@.len() implies qf.active(
                    #[trigger] qf.indexes@[p] as int,
                ) by {
                    assert(id_in(qf.indexes@, qf.indexes@[p] as int));
                    let pp = choose|pp: int|
                        0 <= pp < nid2 && (#[trigger] idx2@[pp]) == qf.indexes@[p] as int;
                    if pp < nid2 - 1 {
                        assert(surv_asc[pp] == idx2@[pp]);
                        assert(qo.active(idx2@[pp] as int) && idx2@[pp] != i && idx2@[pp] != j);
                    } else {
                        assert(idx2@[pp] == n);
                    }
                }
                assert forall|ii: int| #[trigger] qf.active(ii) implies exists|p: int|
                    0 <= p < qf.indexes@.len() && qf.indexes@[p] == ii by {
                    if ii < n {
                        let p = choose|p: int|
                            0 <= p < surv_asc.len() && #[trigger] surv_asc[p] == ii;
                        assert(idx2@[p] == ii);
                        assert(id_in(qf.indexes@, ii));
                    } else {
                        assert(idx2@[nid2 - 1] == ii);
                        assert(id_in(qf.indexes@, ii));
                    }
                    let p2 = choose|p2: int|
                        0 <= p2 < qf.indexes@.len() && (#[trigger] qf.indexes@[p2]) == ii;
                    assert(qf.indexes@[p2] == ii);
                }
                assert forall|p1: int, p2: int|
                    0 <= p1 < p2 < qf.indexes@.len() implies qf.idx_before(
                    #[trigger] qf.indexes@[p1],
                    #[trigger] qf.indexes@[p2],
                ) by {
                    let e1 = qf.indexes@[p1];
                    let e2 = qf.indexes@[p2];
                    assert(key_before(keys@, e1, e2));
                    assert(qf.active(e1 as int) && qf.active(e2 as int));
                    assert((qf.sum_cols@[e1 as int]) is Some);
                    assert((qf.sum_cols@[e2 as int]) is Some);
                    assert(keys@[e1 as int] == qf.sumv(e1 as int));
                    assert(keys@[e2 as int] == qf.sumv(e2 as int));
                }
            }
            assert(qf.wf());
        }

    }

}

impl QMatrix {
    /// Rewrite one surviving row for the merge of `i < j`: double every
    /// slot, zero the two merged columns, append the merged distance, and
    /// adjust the ordered set and the row sum to match. Returns the merged
    /// distance and the row's new sum.
    #[verifier::rlimit(100)]
    fn process_survivor(
        &mut self,
        Ghost(qo): Ghost<QMatrix>,
        i: usize,
        j: usize,
        m: usize,
        mx: i128,
        dij: i128,
    ) -> (r: (i128, i128))
        requires
            qo.wf(),
            qo.active(i as int),
            qo.active(j as int),
            i < j < qo.total(),
            qo.n_leaves > 3,
            dij == qo.dval(i as int, j as int),
            0 <= mx <= qo.limit@,
            3 * mx <= CAP,
            qo.den <= CAP / 2,
            qo.n_leaves * qo.limit@ <= 1024 * CAP,
            forall|a: int, k: int|
                qo.active(a) && 0 <= k < qo.rowv(a).len() ==> -mx <= #[trigger] qo.rowv(a)[k]
                    <= mx,
            m < qo.total(),
            m != i,
            m != j,
            qo.active(m as int),
            mid_state(qo, *old(self), i as int, j as int, m as int),
        ensures
            mid_state(qo, *final(self), i as int, j as int, m as int + 1),
            r.0 == merged_val(qo, i as int, j as int, m as int),
            r.1 == newsum_row(qo, i as int, j as int, m as int),
            -CAP <= r.0 <= CAP,
    {
        let n = self.distances.len();
        proof {
            assert(n == qo.total());
        }
let ghost mv = m as int;
        proof {
            assert(qo.active(mv));
            assert(self.distances@[mv] == qo.distances@[mv]);
            assert(self.trees@[mv] == qo.trees@[mv]);
            assert(self.sum_cols@[mv] == qo.sum_cols@[mv]);
            assert(self.distances@[i as int] == qo.distances@[i as int]);
            assert(self.distances@[j as int] == qo.distances@[j as int]);
            lemma_dval_mag(qo, mv, i as int, mx as int);
            lemma_dval_mag(qo, mv, j as int, mx as int);
        }
        let dim: i128 = if m < i {
            self.distances[m].as_ref().unwrap()[i - m - 1]
        } else {
            self.distances[i].as_ref().unwrap()[m - i - 1]
        };
        let djm: i128 = if m < j {
            self.distances[m].as_ref().unwrap()[j - m - 1]
        } else {
            self.distances[j].as_ref().unwrap()[m - j - 1]
        };
        proof {
            assert(dim == qo.dval(mv, i as int));
            assert(djm == qo.dval(mv, j as int));
        }
        let nmd = dim + djm - dij;
        let old_row = self.distances[m].as_ref().unwrap();
        let rl = old_row.len();
        let mut nrow: Vec<i128> = Vec::new();
        let mut k: usize = 0;
        while k < rl
            invariant
                qo.wf(),
                qo.active(mv),
                mv == m as int,
                i < j < n,
                m != i && m != j,
                m < n,
                n == qo.total(),
                old_row@ == qo.rowv(mv),
                rl == old_row@.len(),
                k <= rl,
                0 <= mx,
                3 * mx <= CAP,
                forall|a: int, kk: int|
                    qo.active(a) && 0 <= kk < qo.rowv(a).len() ==> -mx
                        <= #[trigger] qo.rowv(a)[kk] <= mx,
                nrow@.len() == k,
                forall|kk: int|
                    0 <= kk < k ==> #[trigger] nrow@[kk] == (if mv + kk + 1 == i || mv + kk
                        + 1 == j {
                        0int
                    } else {
                        2 * qo.rowv(mv)[kk]
                    }),
            decreases rl - k,
        {
            let col = m + k + 1;
            let v = old_row[k];
            proof {
                if !qo.active(mv + k + 1) {
                    assert(qo.rowv(mv)[k as int] == 0);
                }
            }
            let nv: i128 = if col == i || col == j {
                0
            } else {
                2 * v
            };
            nrow.push(nv);
            k += 1;
        }
        nrow.push(nmd);
        let old_tr = self.trees[m].as_ref().unwrap();
        let tl = old_tr.len();
        proof {
            lemma_tree_distinct(qo, mv);
        }
        let mut ntr: Vec<Node> = Vec::new();
        let mut k2: usize = 0;
        while k2 < tl
            invariant
                qo.wf(),
                qo.active(mv),
                mv == m as int,
                i < j < n,
                m != i && m != j,
                m < n,
                n == qo.total(),
                old_tr@ == qo.treev(mv),
                tl == old_tr@.len(),
                k2 <= tl,
                0 <= mx,
                3 * mx <= CAP,
                forall|a: int, kk: int|
                    qo.active(a) && 0 <= kk < qo.rowv(a).len() ==> -mx
                        <= #[trigger] qo.rowv(a)[kk] <= mx,
                forall|p1: int, p2: int|
                    0 <= p1 < p2 < old_tr@.len() ==> (#[trigger] old_tr@[p1]).index
                        != (#[trigger] old_tr@[p2]).index,
                sorted(ntr@),
                forall|pp: int|
                    0 <= pp < ntr@.len() ==> mv < (#[trigger] ntr@[pp]).index < n
                        && qo.active(ntr@[pp].index as int) && ntr@[pp].index != i
                        && ntr@[pp].index != j && ntr@[pp].value == 2 * qo.dval(
                        mv,
                        ntr@[pp].index as int,
                    ),
                forall|p2: int|
                    0 <= p2 < k2 && (#[trigger] old_tr@[p2]).index != i
                        && old_tr@[p2].index != j ==> has_index(
                        ntr@,
                        old_tr@[p2].index as int,
                    ),
                forall|v: int|
                    #[trigger] has_index(ntr@, v) ==> exists|p2: int|
                        0 <= p2 < k2 && old_tr@[p2].index == v,
            decreases tl - k2,
        {
            let e = old_tr[k2];
            if e.index != i && e.index != j {
                proof {
                    if has_index(ntr@, e.index as int) {
                        let p2 = choose|p2: int|
                            0 <= p2 < k2 && old_tr@[p2].index == e.index as int;
                        assert(old_tr@[p2].index == old_tr@[k2 as int].index);
                        assert(false);
                    }
                    assert(qo.active(e.index as int) && e.value == qo.dval(
                        mv,
                        e.index as int,
                    ));
                    lemma_dval_mag(qo, mv, e.index as int, mx as int);
                }
                let ghost prev = ntr@;
                insert_sorted(&mut ntr, Node::new(e.index, 2 * e.value));
                proof {
                    assert forall|pp: int|
                        0 <= pp < ntr@.len() implies mv < (#[trigger] ntr@[pp]).index < n
                        && qo.active(ntr@[pp].index as int) && ntr@[pp].index != i
                        && ntr@[pp].index != j && ntr@[pp].value == 2 * qo.dval(
                        mv,
                        ntr@[pp].index as int,
                    ) by {
                        if ntr@[pp] != (Node {
                            index: e.index,
                            value: (2 * e.value) as i128,
                        }) {
                            assert(prev.contains(ntr@[pp]));
                            let q2 = choose|q2: int|
                                0 <= q2 < prev.len() && prev[q2] == ntr@[pp];
                            assert(mv < prev[q2].index < n);
                        }
                    }
                    assert forall|v: int| #[trigger] has_index(ntr@, v) implies exists|
                        p2: int,
                    |
                        0 <= p2 < k2 + 1 && old_tr@[p2].index == v by {
                        if v == e.index {
                            assert(old_tr@[k2 as int].index == v);
                        } else {
                            assert(has_index(prev, v));
                            let p2 = choose|p2: int|
                                0 <= p2 < k2 && old_tr@[p2].index == v;
                            assert(0 <= p2 < k2 + 1 && old_tr@[p2].index == v);
                        }
                    }
                }
            }
            k2 += 1;
        }
        proof {
            if has_index(ntr@, n as int) {
                let p2 = choose|p2: int| 0 <= p2 < tl && old_tr@[p2].index == n as int;
                assert(old_tr@[p2].index < n);
                assert(false);
            }
        }
        let ghost pre_final = ntr@;
        insert_sorted(&mut ntr, Node::new(n, nmd));
        let s_old = self.sum_cols[m].unwrap();
        proof {
            assert(s_old == qo.sumv(mv));
            assert(-(1024 * CAP) <= qo.sumv(mv) <= 1024 * CAP);
        }
        let ns = 2 * (s_old - dim - djm) + nmd;
        let ghost qprev = *self;
        self.distances[m] = Some(nrow);
        self.trees[m] = Some(ntr);
        self.sum_cols[m] = Some(ns);
        proof {
            assert forall|p: int|
                0 <= p < self.treev(mv).len() implies mv < (#[trigger] self.treev(
                mv,
            )[p]).index <= n && (self.treev(mv)[p].index < n ==> qo.active(
                self.treev(mv)[p].index as int,
            ) && self.treev(mv)[p].index != i && self.treev(mv)[p].index != j && self.treev(
                mv,
            )[p].value == 2 * qo.dval(mv, self.treev(mv)[p].index as int)) && (self.treev(
                mv,
            )[p].index == n ==> self.treev(mv)[p].value == merged_val(
                qo,
                i as int,
                j as int,
                mv,
            )) by {
                if self.treev(mv)[p] != (Node { index: n, value: nmd }) {
                    assert(pre_final.contains(self.treev(mv)[p]));
                    let q2 = choose|q2: int|
                        0 <= q2 < pre_final.len() && pre_final[q2] == self.treev(mv)[p];
                    assert(mv < pre_final[q2].index < n);
                }
            }
            assert forall|v: int| #[trigger] has_index(self.treev(mv), v) implies (v
                == n || (qo.active(v) && mv < v < n && v != i && v != j)) by {
                if v != n {
                    assert(has_index(pre_final, v));
                    let p2 = choose|p2: int| 0 <= p2 < tl && old_tr@[p2].index == v;
                    assert(qo.active(v) && mv < v < n);
                }
            }
            assert forall|v: int|
                (v == n as int || (qo.active(v) && mv < v < n && v != i && v
                    != j)) implies has_index(self.treev(mv), v) by {
                if v != n {
                    assert(has_index(qo.treev(mv), v));
                    let p2 = choose|p2: int|
                        0 <= p2 < qo.treev(mv).len() && (#[trigger] qo.treev(mv)[p2]).index
                            == v;
                    assert(has_index(pre_final, v));
                }
            }
            assert(processed_row(qo, *self, i as int, j as int, mv));
            assert forall|a: int|
                0 <= a < mv && a != i && a != j && qo.active(
                    a,
                ) implies #[trigger] processed_row(qo, *self, i as int, j as int, a) by {
                assert(processed_row(qo, qprev, i as int, j as int, a));
                assert(self.distances@[a] == qprev.distances@[a]);
                assert(self.trees@[a] == qprev.trees@[a]);
                assert(self.sum_cols@[a] == qprev.sum_cols@[a]);
                assert(self.rowv(a) == qprev.rowv(a));
                assert(self.treev(a) == qprev.treev(a));
                assert(self.sumv(a) == qprev.sumv(a));
            }
            assert(mid_state(qo, *self, i as int, j as int, mv + 1));
            assert(newsum_upto(qo, i as int, j as int, mv + 1) == newsum_upto(
                qo,
                i as int,
                j as int,
                mv,
            ) + (qo.dval(mv, i as int) + qo.dval(mv, j as int) - qo.dval(
                i as int,
                j as int,
            )));
            assert((qo.active_count(mv) + 1) * CAP == qo.active_count(mv) * CAP + CAP)
                by (nonlinear_arith);
            assert(ns == newsum_row(qo, i as int, j as int, mv));
        }
        proof {
            lemma_dval_mag(qo, m as int, i as int, mx as int);
            lemma_dval_mag(qo, m as int, j as int, mx as int);
            lemma_dval_mag(qo, i as int, j as int, mx as int);
        }
        (nmd, ns)
    }
}

impl QMatrix {
    /// The ascending list of ids that survive the merge of `i` and `j`.
    #[verifier::rlimit(60)]
    fn rebuild_indexes(&self, Ghost(qo): Ghost<QMatrix>, i: usize, j: usize) -> (idx2: Vec<
        usize,
    >)
        requires
            qo.wf(),
            qo.active(i as int),
            qo.active(j as int),
            i < j < qo.total(),
            mid_state(qo, *self, i as int, j as int, qo.total()),
        ensures
            idx2@.len() == qo.n_leaves - 2,
            forall|p: int|
                0 <= p < idx2@.len() ==> qo.active(#[trigger] idx2@[p] as int) && idx2@[p] != i
                    && idx2@[p] != j && (idx2@[p] as int) < qo.total(),
            forall|p1: int, p2: int|
                0 <= p1 < p2 < idx2@.len() ==> (#[trigger] idx2@[p1]) < (#[trigger] idx2@[p2]),
            forall|v: int|
                qo.active(v) && v != i && v != j ==> exists|p: int|
                    0 <= p < idx2@.len() && #[trigger] idx2@[p] == v,
    {
        let n = self.distances.len();
        proof {
            assert(n == qo.total());
        }
        let mut idx2: Vec<usize> = Vec::new();
        let mut a2: usize = 0;
        while a2 < n
            invariant
                qo.wf(),
                qo.active(i as int),
                qo.active(j as int),
                i < j < n,
                n == qo.total(),
                mid_state(qo, *self, i as int, j as int, n as int),
                a2 <= n,
                idx2@.len() == qo.active_count(a2 as int) - (if i < a2 {
                    1int
                } else {
                    0int
                }) - (if j < a2 {
                    1int
                } else {
                    0int
                }),
                forall|p: int|
                    0 <= p < idx2@.len() ==> qo.active(#[trigger] idx2@[p] as int) && idx2@[p] != i
                        && idx2@[p] != j && (idx2@[p] as int) < a2,
                forall|p1: int, p2: int|
                    0 <= p1 < p2 < idx2@.len() ==> (#[trigger] idx2@[p1]) < (#[trigger] idx2@[p2]),
                forall|v: int|
                    qo.active(v) && v < a2 && v != i && v != j ==> exists|p: int|
                        0 <= p < idx2@.len() && #[trigger] idx2@[p] == v,
            decreases n - a2,
        {
            let ghost old_idx = idx2@;
            proof {
                assert(qo.active_count(a2 as int + 1) == qo.active_count(a2 as int) + (if qo.active(
                    a2 as int,
                ) {
                    1int
                } else {
                    0int
                }));
            }
            if a2 != i && a2 != j && self.distances[a2].is_some() {
                proof {
                    assert(qo.active(a2 as int));
                }
                idx2.push(a2);
            }
            proof {
                assert forall|v: int|
                    qo.active(v) && v < a2 + 1 && v != i && v != j implies exists|p: int|
                        0 <= p < idx2@.len() && #[trigger] idx2@[p] == v by {
                    if v == a2 {
                        assert(idx2@[idx2@.len() - 1] == v);
                    } else {
                        let p = choose|p: int| 0 <= p < old_idx.len() && old_idx[p] == v;
                        assert(idx2@[p] == v);
                    }
                }
                if a2 != i && a2 != j && qo.active(a2 as int) {
                    assert(idx2@.len() == old_idx.len() + 1);
                } else {
                    assert(idx2@.len() == old_idx.len());
                }
                assert(idx2@.len() == qo.active_count(a2 as int + 1) - (if i < a2 + 1 {
                    1int
                } else {
                    0int
                }) - (if j < a2 + 1 {
                    1int
                } else {
                    0int
                }));
            }
            a2 += 1;
        }
        proof {
            assert(qo.active_count(n as int) == qo.n_leaves);
        }
        idx2
    }
}

/// The post-merge row sums are exact and bounded.
#[verifier::rlimit(100)]
proof fn lemma_update_sums(qo: QMatrix, q2: QMatrix, i: int, j: int, news: int)
    requires
        qo.wf(),
        qo.active(i),
        qo.active(j),
        i < j,
        qo.n_leaves > 3,
        q2.wf_shape(),
        q2.wf_vals(),
        q2.n_leaves == qo.n_leaves - 1,
        q2.distances@.len() == qo.total() + 1,
        q2.rowv(qo.total()).len() == 0,
        q2.trees@[qo.total()] is Some,
        q2.treev(qo.total()).len() == 0,
        forall|a: int|
            #[trigger] q2.active(a) <==> (a == qo.total() || (qo.active(a) && a != i && a != j)),
        forall|a: int, b: int|
            qo.active(a) && qo.active(b) && a != i && a != j && b != i && b != j
                ==> #[trigger] q2.dval(a, b) == 2 * qo.dval(a, b),
        forall|a: int|
            q2.active(a) && a < qo.total() ==> #[trigger] q2.dval(qo.total(), a) == merged_val(
                qo,
                i,
                j,
                a,
            ),
        forall|a: int|
            0 <= a < qo.total() && a != i && a != j && qo.active(a) ==> #[trigger] processed_row(
                qo,
                q2,
                i,
                j,
                a,
            ),
        q2.sum_cols@[qo.total()] is Some,
        q2.sumv(qo.total()) == news,
        news == newsum_upto(qo, i, j, qo.total()),
    ensures
        q2.wf_sums(),
{
    let n = qo.total();
    let lim2 = q2.limit@;

    assert forall|m: int|
        q2.active(m) implies #[trigger] q2.sumv(m) == q2.sum_at(m, q2.total()) && -(q2.n_leaves
        * lim2) <= q2.sumv(m) <= q2.n_leaves * lim2 by {
        assert forall|a: int| #[trigger] q2.active(a) implies -lim2 <= q2.dval(m, a) <= lim2 by {
            if a != m {
                lemma_dval_mag(q2, m, a, lim2);
            }
        }
        lemma_sum_at_abs(q2, m, q2.total(), lim2);
        assert(q2.active_count(q2.total()) == q2.n_leaves);
        if m < n {
            assert(processed_row(qo, q2, i, j, m));
            lemma_sum_at_rel(qo, q2, i, j, m, n);
            assert(q2.sum_at(m, n + 1) == q2.sum_at(m, n) + q2.dval(m, n));
            assert(qo.sumv(m) == qo.sum_at(m, n));
        } else {
            lemma_sum_at_newrow(qo, q2, i, j, n, n);
            assert(q2.sum_at(n, n + 1) == q2.sum_at(n, n));
        }
    }
    assert(q2.wf_sums());
}

/// The post-merge ordered sets describe exactly the live columns.
#[verifier::rlimit(100)]
proof fn lemma_update_trees(qo: QMatrix, q2: QMatrix, i: int, j: int)
    requires
        qo.wf(),
        qo.active(i),
        qo.active(j),
        i < j,
        qo.n_leaves > 3,
        q2.wf_shape(),
        q2.wf_vals(),
        q2.n_leaves == qo.n_leaves - 1,
        q2.distances@.len() == qo.total() + 1,
        q2.rowv(qo.total()).len() == 0,
        q2.trees@[qo.total()] is Some,
        q2.treev(qo.total()).len() == 0,
        forall|a: int|
            #[trigger] q2.active(a) <==> (a == qo.total() || (qo.active(a) && a != i && a != j)),
        forall|a: int, b: int|
            qo.active(a) && qo.active(b) && a != i && a != j && b != i && b != j
                ==> #[trigger] q2.dval(a, b) == 2 * qo.dval(a, b),
        forall|a: int|
            q2.active(a) && a < qo.total() ==> #[trigger] q2.dval(qo.total(), a) == merged_val(
                qo,
                i,
                j,
                a,
            ),
        forall|a: int|
            0 <= a < qo.total() && a != i && a != j && qo.active(a) ==> #[trigger] processed_row(
                qo,
                q2,
                i,
                j,
                a,
            ),
    ensures
        q2.wf_trees(),
{
    let n = qo.total();

    assert forall|m: int| #[trigger] q2.active(m) implies {
        &&& sorted(q2.treev(m))
        &&& forall|p: int|
            0 <= p < q2.treev(m).len() ==> m < (#[trigger] q2.treev(m)[p]).index < q2.total()
                && q2.active(q2.treev(m)[p].index as int) && q2.treev(m)[p].value == q2.dval(
                m,
                q2.treev(m)[p].index as int,
            )
        &&& forall|jj: int|
            #[trigger] q2.active(jj) && m < jj < q2.total() ==> has_index(q2.treev(m), jj)
    } by {
        if m < n {
            assert(processed_row(qo, q2, i, j, m));
            assert forall|p: int|
                0 <= p < q2.treev(m).len() implies m < (#[trigger] q2.treev(m)[p]).index
                < q2.total() && q2.active(q2.treev(m)[p].index as int) && q2.treev(m)[p].value
                == q2.dval(m, q2.treev(m)[p].index as int) by {
                let idx = q2.treev(m)[p].index as int;
                if idx < n {
                    assert(q2.dval(m, idx) == 2 * qo.dval(m, idx));
                } else {
                    assert(q2.dval(m, n) == merged_val(qo, i, j, m));
                }
            }
            assert forall|jj: int|
                #[trigger] q2.active(jj) && m < jj < q2.total() implies has_index(
                q2.treev(m),
                jj,
            ) by {
                assert(has_index(q2.treev(m), jj));
            }
        } else {
            assert(q2.treev(m).len() == 0);
            assert forall|jj: int|
                #[trigger] q2.active(jj) && m < jj < q2.total() implies has_index(
                q2.treev(m),
                jj,
            ) by {
                assert(false);
            }
        }
    }
    assert(q2.wf_trees());
}

/// Among at least three live rows, one survives any merge of two.
proof fn lemma_survivor_exists(qo: QMatrix, i: int, j: int)
    requires
        qo.wf(),
    ensures
        exists|a: int|
            0 <= a < qo.total() && #[trigger] qo.active(a) && a != i && a != j,
{
    let i0 = qo.indexes@[0] as int;
    let i1 = qo.indexes@[1] as int;
    let i2 = qo.indexes@[2] as int;
    assert(qo.active(i0) && qo.active(i1) && qo.active(i2));
    assert(qo.idx_before(qo.indexes@[0], qo.indexes@[1]));
    assert(qo.idx_before(qo.indexes@[0], qo.indexes@[2]));
    assert(qo.idx_before(qo.indexes@[1], qo.indexes@[2]));
    assert(i0 != i1 && i0 != i2 && i1 != i2);
    if i0 != i && i0 != j {
        assert(qo.active(i0) && i0 != i && i0 != j);
    } else if i1 != i && i1 != j {
        assert(qo.active(i1) && i1 != i && i1 != j);
    } else {
        assert(qo.active(i2) && i2 != i && i2 != j);
    }
}

/// The whole well-formedness of the post-merge state, except for the id
/// list and `u_max`, which the caller justifies itself.
#[verifier::rlimit(100)]
proof fn lemma_update_state(qo: QMatrix, q2: QMatrix, i: int, j: int, mx: int, news: int)
    requires
        qo.wf(),
        qo.active(i),
        qo.active(j),
        i < j,
        qo.n_leaves > 3,
        0 <= mx <= qo.limit@,
        3 * mx <= CAP,
        qo.den <= CAP / 2,
        forall|a: int, k: int|
            qo.active(a) && 0 <= k < qo.rowv(a).len() ==> -mx <= #[trigger] qo.rowv(a)[k] <= mx,
        q2.distances@.len() == qo.total() + 1,
        q2.sum_cols@.len() == qo.total() + 1,
        q2.trees@.len() == qo.total() + 1,
        q2.n == qo.n + 1,
        q2.n_leaves == qo.n_leaves - 1,
        q2.den == 2 * qo.den,
        q2.chunk_size == qo.chunk_size,
        q2.limit@ == (if 3 * qo.limit@ <= CAP {
            3 * qo.limit@
        } else {
            CAP as int
        }),
        q2.distances@[i] is None,
        q2.distances@[j] is None,
        q2.trees@[i] is None,
        q2.trees@[j] is None,
        q2.sum_cols@[i] is None,
        q2.sum_cols@[j] is None,
        q2.distances@[qo.total()] is Some,
        q2.rowv(qo.total()).len() == 0,
        q2.trees@[qo.total()] is Some,
        q2.treev(qo.total()).len() == 0,
        q2.sum_cols@[qo.total()] is Some,
        q2.sumv(qo.total()) == news,
        news == newsum_upto(qo, i, j, qo.total()),
        forall|a: int|
            0 <= a < qo.total() && a != i && a != j ==> ((#[trigger] q2.distances@[a]) is Some
                <==> qo.active(a)) && ((q2.trees@[a]) is Some <==> qo.active(a)) && ((
            q2.sum_cols@[a]) is Some <==> qo.active(a)),
        forall|a: int|
            0 <= a < qo.total() && a != i && a != j && qo.active(a) ==> #[trigger] processed_row(
                qo,
                q2,
                i,
                j,
                a,
            ),
    ensures
        q2.wf_shape(),
        q2.wf_vals(),
        q2.wf_sums(),
        q2.wf_trees(),
        forall|a: int|
            #[trigger] q2.active(a) <==> (a == qo.total() || (qo.active(a) && a != i && a != j)),
        forall|a: int, b: int|
            qo.active(a) && qo.active(b) && a != i && a != j && b != i && b != j
                ==> #[trigger] q2.dval(a, b) == 2 * qo.dval(a, b),
        forall|a: int|
            qo.active(a) && a != i && a != j ==> #[trigger] q2.dval(a, qo.total()) == merged_val(
                qo,
                i,
                j,
                a,
            ),
{
    let n = qo.total();
    let lim2 = q2.limit@;
    assert forall|a: int|
        #[trigger] q2.active(a) <==> (a == n || (qo.active(a) && a != i && a != j)) by {}
    assert forall|a: int, b: int|
        qo.active(a) && qo.active(b) && a != i && a != j && b != i && b != j implies #[trigger] q2.dval(
        a,
        b,
    ) == 2 * qo.dval(a, b) by {
        if a < b {
            assert(processed_row(qo, q2, i, j, a));
            assert(q2.rowv(a)[b - a - 1] == 2 * qo.rowv(a)[b - a - 1]);
        } else if b < a {
            assert(processed_row(qo, q2, i, j, b));
            assert(q2.rowv(b)[a - b - 1] == 2 * qo.rowv(b)[a - b - 1]);
        }
    }
    assert forall|a: int|
        qo.active(a) && a != i && a != j implies #[trigger] q2.dval(a, n) == merged_val(
        qo,
        i,
        j,
        a,
    ) by {
        assert(processed_row(qo, q2, i, j, a));
        assert(q2.rowv(a)[n - a - 1] == merged_val(qo, i, j, a));
    }
    assert forall|a: int|
        q2.active(a) && a < n implies #[trigger] q2.dval(n, a) == merged_val(qo, i, j, a) by {
        assert(processed_row(qo, q2, i, j, a));
        assert(q2.rowv(a)[n - a - 1] == merged_val(qo, i, j, a));
    }
    lemma_count_update(qo, q2, i, j, n);
    assert(q2.active_count(n + 1) == q2.active_count(n) + 1);
    assert forall|a: int|
        q2.active(a) implies #[trigger] q2.rowv(a).len() == q2.total() - a - 1 by {
        if a < n {
            assert(processed_row(qo, q2, i, j, a));
        }
    }
    assert(q2.wf_shape());
    assert forall|a: int, k: int|
        q2.active(a) && 0 <= k < q2.rowv(a).len() implies (if q2.active(a + k + 1) {
        -lim2 <= (#[trigger] q2.rowv(a)[k]) <= lim2
    } else {
        q2.rowv(a)[k] == 0
    }) by {
        if a < n {
            assert(processed_row(qo, q2, i, j, a));
            if k < n - a - 1 {
                if a + k + 1 == i || a + k + 1 == j {
                    assert(q2.rowv(a)[k] == 0);
                } else {
                    assert(q2.rowv(a)[k] == 2 * qo.rowv(a)[k]);
                    if qo.active(a + k + 1) {
                        assert(-mx <= qo.rowv(a)[k] <= mx);
                        assert(-qo.limit@ <= qo.rowv(a)[k] <= qo.limit@);
                    } else {
                        assert(qo.rowv(a)[k] == 0);
                    }
                }
            } else {
                assert(q2.rowv(a)[k] == merged_val(qo, i, j, a));
                lemma_dval_mag(qo, a, i, mx);
                lemma_dval_mag(qo, a, j, mx);
                lemma_dval_mag(qo, i, j, mx);
            }
        }
    }
    assert(q2.wf_vals());
    lemma_update_sums(qo, q2, i, j, news);
    lemma_update_trees(qo, q2, i, j);

}

/// Two states with the same rows count the same live rows.
proof fn lemma_count_congr(qa: QMatrix, qb: QMatrix, cut: int)
    requires
        qa.distances@ == qb.distances@,
        0 <= cut,
    ensures
        qa.active_count(cut) == qb.active_count(cut),
    decreases cut,
{
    if cut > 0 {
        lemma_count_congr(qa, qb, cut - 1);
    }
}

/// Two states with the same rows have the same filtered prefix sums.
proof fn lemma_sum_at_congr(qa: QMatrix, qb: QMatrix, m: int, cut: int)
    requires
        qa.distances@ == qb.distances@,
        0 <= cut,
    ensures
        qa.sum_at(m, cut) == qb.sum_at(m, cut),
    decreases cut,
{
    if cut > 0 {
        lemma_sum_at_congr(qa, qb, m, cut - 1);
    }
}

/// Well-formedness does not depend on the worker batch size.
proof fn lemma_wf_chunk_congr(qa: QMatrix, qb: QMatrix)
    requires
        qa.wf(),
        qb == (QMatrix { chunk_size: qb.chunk_size, ..qa }),
        qb.chunk_size >= 1,
    ensures
        qb.wf(),
{
    assert(qb.distances@ == qa.distances@);
    assert(qb.sum_cols@ == qa.sum_cols@);
    assert(qb.trees@ == qa.trees@);
    assert(qb.indexes@ == qa.indexes@);
    assert forall|i: int| 0 <= i < qb.total() implies (#[trigger] qb.active(i)) == qa.active(
        i,
    ) by {}
    assert forall|i: int|
        qb.active(i) implies #[trigger] qb.rowv(i).len() == qb.total() - i - 1 by {
        assert(qb.rowv(i) == qa.rowv(i));
        assert(qa.active(i));
    }
    lemma_count_congr(qa, qb, qa.total());
    assert(qb.wf_shape());
    assert forall|i: int, k: int|
        qb.active(i) && 0 <= k < qb.rowv(i).len() implies (if qb.active(i + k + 1) {
        -qb.limit@ <= (#[trigger] qb.rowv(i)[k]) <= qb.limit@
    } else {
        qb.rowv(i)[k] == 0
    }) by {
        assert(qb.rowv(i) == qa.rowv(i));
        assert(qa.active(i));
        if 0 <= i + k + 1 < qa.total() {
            assert(qb.active(i + k + 1) == qa.active(i + k + 1));
        }
    }
    assert(qb.wf_vals());
    assert forall|m: int|
        qb.active(m) implies #[trigger] qb.treev(m) == qa.treev(m) && qb.active(m)
            == qa.active(m) by {
        assert(qb.trees@[m] == qa.trees@[m]);
    }
    assert(qb.wf_trees()) by {
        assert forall|m: int| #[trigger] qb.active(m) implies {
            &&& sorted(qb.treev(m))
            &&& forall|p: int|
                0 <= p < qb.treev(m).len() ==> m < (#[trigger] qb.treev(m)[p]).index
                    < qb.total() && qb.active(qb.treev(m)[p].index as int) && qb.treev(m)[p].value
                    == qb.dval(m, qb.treev(m)[p].index as int)
            &&& forall|jj: int|
                #[trigger] qb.active(jj) && m < jj < qb.total() ==> has_index(qb.treev(m), jj)
        } by {
            assert(qa.active(m));
            assert(qb.treev(m) == qa.treev(m));
            assert forall|p: int|
                0 <= p < qb.treev(m).len() implies m < (#[trigger] qb.treev(m)[p]).index
                < qb.total() && qb.active(qb.treev(m)[p].index as int) && qb.treev(m)[p].value
                == qb.dval(m, qb.treev(m)[p].index as int) by {
                let idx = qb.treev(m)[p].index as int;
                assert(qa.treev(m)[p].value == qa.dval(m, idx));
                if m < idx {
                    assert(qb.rowv(m) == qa.rowv(m));
                } else if idx < m {
                    assert(qb.rowv(idx) == qa.rowv(idx));
                }
            }
        }
    }
    assert forall|m: int|
        qb.active(m) implies #[trigger] qb.sumv(m) == qb.sum_at(m, qb.total()) && -(qb.n_leaves
        * qb.limit@) <= qb.sumv(m) <= qb.n_leaves * qb.limit@ by {
        lemma_sum_at_congr(qa, qb, m, qa.total());
        assert(qa.active(m));
        assert(qa.sumv(m) == qa.sum_at(m, qa.total()));
    }
    assert(qb.wf_shape());
    assert(qb.wf_vals());
    assert(qb.wf_sums());
    assert(qb.wf_umax());
    assert(qb.wf_indexes());
    assert(qb.wf_trees());
}

/// A live pair's distance is bounded by `limit`.
pub proof fn lemma_dval_bound(q: QMatrix, i: int, j: int)
    requires
        q.wf_shape(),
        q.wf_vals(),
        q.active(i),
        q.active(j),
    ensures
        -q.limit@ <= q.dval(i, j) <= q.limit@,
{
    if i < j {
        assert(q.rowv(i)[j - i - 1] == q.dval(i, j));
        assert(q.active(i + (j - i - 1) + 1));
    } else if j < i {
        assert(q.rowv(j)[i - j - 1] == q.dval(i, j));
        assert(q.active(j + (i - j - 1) + 1));
    }
}

} // verus!
