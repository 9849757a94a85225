use vstd::prelude::*;

use crate::distances::{DistanceMatrix, INPUT_CAP, MAX_TAXA};
use crate::errors::NjError;
use crate::ratio::Ratio;

verus! {

/// Bound on every stored numerator. Each merge at most triples the largest
/// magnitude (survivors double, merged entries are a three-term sum), and
/// the Q-criterion multiplies an entry by at most `MAX_TAXA`, so this cap
/// keeps all intermediate products inside an `i128`.
pub const CAP: i128 = 0x40000_0000_0000_0000_0000_0000_0000;

/// Sum of the first `k` entries of a row.
pub open spec fn sum_upto(s: Seq<i128>, k: int) -> int
    decreases k,
{
    if k <= 0 {
        0
    } else {
        sum_upto(s, k - 1) + s[k - 1]
    }
}

/// A prefix sum of entries bounded by `b` is bounded by `k * b`.
pub proof fn lemma_sum_bound(s: Seq<i128>, k: int, b: int)
    requires
        0 <= k <= s.len(),
        forall|x: int| 0 <= x < s.len() ==> -b <= #[trigger] s[x] <= b,
        b >= 0,
    ensures
        -(k * b) <= sum_upto(s, k) <= k * b,
    decreases k,
{
    if k > 0 {
        lemma_sum_bound(s, k - 1, b);
        assert((k - 1) * b + b == k * b) by (nonlinear_arith);
    }
}

/// Where a surviving row of the old matrix stands after the compaction that
/// merges rows `i < j` of an `n`-row matrix: position `a` of the new matrix
/// (for `a < n - 2`) holds the old row `surv(n, i, j, a)`. This mirrors the
/// swap-and-pop of the canonical update.
pub open spec fn surv(n: int, i: int, j: int, a: int) -> int {
    if j == n - 2 {
        if a == i {
            n - 1
        } else {
            a
        }
    } else {
        if a == i {
            n - 2
        } else if a == j {
            n - 1
        } else {
            a
        }
    }
}

/// The entry at `(a, b)` of the compacted matrix, over the old entries.
/// Surviving entries double (the shared denominator doubles per merge, so
/// the halving of the merge formula stays integral); the merged row holds
/// `d(s,i) + d(s,j) - d(i,j)`, which is the doubled merged distance.
pub open spec fn upd_val(mold: Seq<Seq<i128>>, n: int, i: int, j: int, a: int, b: int) -> int {
    let last = n - 2;
    if a == last && b == last {
        0
    } else if a == last {
        mold[surv(n, i, j, b)][i] + mold[surv(n, i, j, b)][j] - mold[i][j]
    } else if b == last {
        mold[surv(n, i, j, a)][i] + mold[surv(n, i, j, a)][j] - mold[i][j]
    } else {
        2 * mold[surv(n, i, j, a)][surv(n, i, j, b)]
    }
}

/// Every entry of the square matrix is at most `b`.
pub open spec fn entries_le(m: Seq<Vec<i128>>, n: int, b: int) -> bool {
    forall|x: int, y: int| 0 <= x < n && 0 <= y < n ==> #[trigger] m[x]@[y] <= b
}

/// Three to the `k`: the factor by which one merge can grow the largest
/// stored magnitude.
pub open spec fn pow3(k: int) -> int
    decreases k,
{
    if k <= 0 {
        1
    } else {
        3 * pow3(k - 1)
    }
}

/// Two to the `k`: the factor by which the shared denominator grows.
pub open spec fn pow2(k: int) -> int
    decreases k,
{
    if k <= 0 {
        1
    } else {
        2 * pow2(k - 1)
    }
}

pub proof fn lemma_pow3_mono(a: int, b: int)
    requires
        0 <= a <= b,
    ensures
        1 <= pow3(a) <= pow3(b),
    decreases b,
{
    if b > 0 {
        if a == b {
            lemma_pow3_mono(a - 1, b - 1);
        } else {
            lemma_pow3_mono(a, b - 1);
        }
    }
}

pub proof fn lemma_pow2_mono(a: int, b: int)
    requires
        0 <= a <= b,
    ensures
        1 <= pow2(a) <= pow2(b),
    decreases b,
{
    if b > 0 {
        if a == b {
            lemma_pow2_mono(a - 1, b - 1);
        } else {
            lemma_pow2_mono(a, b - 1);
        }
    }
}

proof fn lemma_pow3_cap()
    ensures
        pow3(47) <= 37778931862957161709568,
{
    reveal_with_fuel(pow3, 48);
}

proof fn lemma_pow2_cap()
    ensures
        pow2(47) == 140737488355328,
{
    reveal_with_fuel(pow2, 48);
}

/// While fewer than forty-seven merges have happened on an input whose
/// entries started below `2^38`, the magnitude limit and the denominator
/// stay far enough under the capacity for the next merge to succeed.
pub proof fn lemma_guarantee_step(limit: int, den: int, den0: int, t: int)
    requires
        0 <= t <= 46,
        0 <= limit <= 0x40_0000_0000 * pow3(t),
        1 <= den0 <= INPUT_CAP,
        1 <= den <= den0 * pow2(t),
    ensures
        3 * limit <= CAP,
        2 * den <= CAP,
        3 * limit <= 0x40_0000_0000 * pow3(t + 1),
        2 * den <= den0 * pow2(t + 1),
{
    lemma_pow3_mono(t + 1, 47);
    lemma_pow2_mono(t + 1, 47);
    lemma_pow3_cap();
    lemma_pow2_cap();
    assert(pow3(t + 1) == 3 * pow3(t));
    assert(pow2(t + 1) == 2 * pow2(t));
    assert(den0 * pow2(t + 1) == 2 * (den0 * pow2(t))) by (nonlinear_arith)
        requires
            pow2(t + 1) == 2 * pow2(t),
    ;
    assert(den0 * pow2(t + 1) <= den0 * pow2(47)) by (nonlinear_arith)
        requires
            den0 >= 0,
            pow2(t + 1) <= pow2(47),
    ;
    assert(den0 * pow2(47) <= INPUT_CAP * 140737488355328);
}

/// The canonical Q-matrix: a dense square matrix of scaled distances plus a
/// row-sum vector. Entry `(i, j)` stands for the rational `matrix[i][j] / den`.
/// `limit` bounds the magnitude of every entry.
pub struct QMatrix {
    pub matrix: Vec<Vec<i128>>,
    pub sum_cols: Vec<i128>,
    pub den: i128,
    pub limit: Ghost<int>,
}

impl QMatrix {
    pub open spec fn n(self) -> int {
        self.matrix@.len() as int
    }

    pub open spec fn at(self, i: int, j: int) -> int {
        self.matrix@[i]@[j] as int
    }

    /// The invariant of the canonical representation: a square symmetric
    /// matrix with zero diagonal, entries bounded by `limit`, and row sums
    /// held exactly in `sum_cols`.
    pub open spec fn wf(self) -> bool {
        let n = self.n();
        &&& 3 <= n <= MAX_TAXA
        &&& self.sum_cols@.len() == n
        &&& 1 <= self.den <= CAP
        &&& 0 <= self.limit@ <= CAP
        &&& forall|i: int| 0 <= i < n ==> (#[trigger] self.matrix@[i])@.len() == n
        &&& forall|i: int, j: int|
            0 <= i < n && 0 <= j < n ==> -self.limit@ <= #[trigger] self.matrix@[i]@[j]
                <= self.limit@
        &&& forall|i: int, j: int|
            0 <= i < n && 0 <= j < n ==> #[trigger] self.matrix@[i]@[j] == self.matrix@[j]@[i]
        &&& forall|i: int| 0 <= i < n ==> #[trigger] self.matrix@[i]@[i] == 0
        &&& forall|i: int|
            0 <= i < n ==> #[trigger] self.sum_cols@[i] == sum_upto(self.matrix@[i]@, n)
    }

    /// The Q-criterion of the pair `(i, j)`, over scaled distances:
    /// `(n-2) * d(i,j) - s_i - s_j`.
    pub open spec fn q_of(self, i: int, j: int) -> int {
        (self.n() - 2) * self.at(i, j) - self.sum_cols@[i] - self.sum_cols@[j]
    }

    pub fn n_leaves(&self) -> (n: usize)
        ensures
            n == self.n(),
    {
        self.matrix.len()
    }

    /// The scaled distance between rows `i` and `j` (the value is this
    /// numerator over `den`).
    pub fn distance(&self, i: usize, j: usize) -> (d: i128)
        requires
            self.wf(),
            i < self.n(),
            j < self.n(),
        ensures
            d == self.at(i as int, j as int),
    {
        self.matrix[i][j]
    }

    /// Build the Q-matrix of a distance matrix: copy the entries and compute
    /// each row's sum. `limit` becomes the smallest bound on the entries, so
    /// callers that know their input is small keep that knowledge.
    pub fn new(d: DistanceMatrix) -> (q: QMatrix)
        requires
            d.valid_input(),
            d.matrix@.len() >= 3,
        ensures
            q.wf(),
            q.n() == d.matrix@.len(),
            q.den == d.den,
            q.matrix == d.matrix,
            forall|b: int|
                b >= 0 && #[trigger] entries_le(d.matrix@, d.matrix@.len() as int, b)
                    ==> q.limit@ <= b,
    {
        let n = d.matrix.len();
        let mut sum_cols: Vec<i128> = Vec::new();
        let mut mx: i128 = 0;
        let mut i: usize = 0;
        while i < n
            invariant
                d.valid_input(),
                n == d.matrix@.len(),
                3 <= n <= MAX_TAXA,
                i <= n,
                sum_cols@.len() == i,
                0 <= mx <= INPUT_CAP,
                forall|a: int|
                    0 <= a < i ==> #[trigger] sum_cols@[a] == sum_upto(d.matrix@[a]@, n as int),
                forall|x: int, y: int|
                    0 <= x < i && 0 <= y < n ==> #[trigger] d.matrix@[x]@[y] <= mx,
                forall|b: int|
                    b >= 0 && #[trigger] entries_le(d.matrix@, n as int, b) ==> mx <= b,
            decreases n - i,
        {
            let row = &d.matrix[i];
            let mut s: i128 = 0;
            let mut j: usize = 0;
            while j < n
                invariant
                    d.valid_input(),
                    n == d.matrix@.len(),
                    3 <= n <= MAX_TAXA,
                    i < n,
                    j <= n,
                    row == d.matrix@[i as int],
                    0 <= mx <= INPUT_CAP,
                    s == sum_upto(d.matrix@[i as int]@, j as int),
                    0 <= s <= j * INPUT_CAP,
                    forall|y: int| 0 <= y < j ==> #[trigger] d.matrix@[i as int]@[y] <= mx,
                    forall|x: int, y: int|
                        0 <= x < i && 0 <= y < n ==> #[trigger] d.matrix@[x]@[y] <= mx,
                    forall|b: int|
                        b >= 0 && #[trigger] entries_le(d.matrix@, n as int, b) ==> mx
                            <= b,
                decreases n - j,
            {
                let v = row[j];
                assert(0 <= v <= INPUT_CAP);
                assert(j * INPUT_CAP + INPUT_CAP == (j + 1) * INPUT_CAP) by (nonlinear_arith);
                assert((j + 1) * INPUT_CAP <= 1024 * INPUT_CAP) by (nonlinear_arith)
                    requires
                        0 <= j + 1 <= 1024,
                ;
                s = s + v;
                if v > mx {
                    mx = v;
                }
                j += 1;
            }
            sum_cols.push(s);
            i += 1;
        }
        let q = QMatrix { matrix: d.matrix, sum_cols, den: d.den, limit: Ghost(mx as int) };
        assert(q.wf());
        q
    }

    /// The lexicographically first pair minimising the Q-criterion over all
    /// ordered pairs `i < j`: no pair beats it, and every pair before it in
    /// the scan is strictly worse.
    pub fn find_neighbors(&self) -> (r: (usize, usize))
        requires
            self.wf(),
        ensures
            r.0 < r.1 < self.n(),
            forall|a: int, b: int|
                0 <= a < b < self.n() ==> self.q_of(r.0 as int, r.1 as int) <= #[trigger] self.q_of(
                    a,
                    b,
                ),
            forall|a: int, b: int|
                0 <= a < b < self.n() && (a < r.0 || (a == r.0 && b < r.1)) ==> #[trigger] self.q_of(
                    a,
                    b,
                ) > self.q_of(r.0 as int, r.1 as int),
    {
        let n = self.matrix.len();
        let mut bi: usize = 0;
        let mut bj: usize = 1;
        let mut bq: i128 = self.criterion(0, 1);
        let mut i: usize = 0;
        while i < n
            invariant
                self.wf(),
                n == self.n(),
                i <= n,
                bi < bj < n,
                bq == self.q_of(bi as int, bj as int),
                forall|a: int, b: int|
                    0 <= a < b < n && a < i ==> bq <= #[trigger] self.q_of(a, b),
                forall|a: int, b: int|
                    0 <= a < b < n && a < i && (a < bi || (a == bi && b < bj))
                        ==> #[trigger] self.q_of(a, b) > bq,
                (bi as int) < i || (bi as int, bj as int) == (0int, 1int),
            decreases n - i,
        {
            let mut j: usize = i + 1;
            while j < n
                invariant
                    self.wf(),
                    n == self.n(),
                    i < n,
                    i + 1 <= j <= n,
                    bi < bj < n,
                    bq == self.q_of(bi as int, bj as int),
                    forall|a: int, b: int|
                        0 <= a < b < n && a < i ==> bq <= #[trigger] self.q_of(a, b),
                    forall|b: int| i < b < j ==> bq <= #[trigger] self.q_of(i as int, b),
                    forall|a: int, b: int|
                        0 <= a < b < n && a < i && (a < bi || (a == bi && b < bj))
                            ==> #[trigger] self.q_of(a, b) > bq,
                    forall|b: int|
                        i < b < j && ((i as int) < bi || (i == bi && b < bj))
                            ==> #[trigger] self.q_of(i as int, b) > bq,
                    (bi as int) < i || ((bi as int) == i && (bj as int) < j) || ((bi as int,
                    bj as int) == (0int, 1int) && i == 0),
                decreases n - j,
            {
                let q = self.criterion(i, j);
                if q < bq {
                    bi = i;
                    bj = j;
                    bq = q;
                }
                j += 1;
            }
            i += 1;
        }
        (bi, bj)
    }

    /// The Q-criterion of one pair, as an executable value.
    fn criterion(&self, i: usize, j: usize) -> (q: i128)
        requires
            self.wf(),
            i < self.n(),
            j < self.n(),
        ensures
            q == self.q_of(i as int, j as int),
    {
        let n = self.matrix.len();
        let s = (n - 2) as i128;
        proof {
            lemma_sum_bound(self.matrix@[i as int]@, self.n(), self.limit@);
            lemma_sum_bound(self.matrix@[j as int]@, self.n(), self.limit@);
            assert(0 <= s * self.at(i as int, j as int) <= 1024 * CAP || 0 >= s * self.at(
                i as int,
                j as int,
            ) >= -(1024 * CAP)) by (nonlinear_arith)
                requires
                    0 <= s <= 1024,
                    -CAP <= self.at(i as int, j as int) <= CAP,
            ;
            assert(self.n() * self.limit@ <= 1024 * CAP) by (nonlinear_arith)
                requires
                    0 <= self.n() <= 1024,
                    0 <= self.limit@ <= CAP,
            ;
        }
        s * self.matrix[i][j] - self.sum_cols[i] - self.sum_cols[j]
    }

    /// The two branch lengths from the merged pair `(i, j)` to the new node:
    /// `((d + (s_i - s_j)/(n-2)) / 2, d - that)`, as exact rationals over
    /// the scaled entries.
    pub fn new_node_distances(&self, i: usize, j: usize) -> (r: (Ratio, Ratio))
        requires
            self.wf(),
            i < self.n(),
            j < self.n(),
        ensures
            r.0.num == (self.n() - 2) * self.at(i as int, j as int) + self.sum_cols@[i as int]
                - self.sum_cols@[j as int],
            r.1.num == (self.n() - 2) * self.at(i as int, j as int) - self.sum_cols@[i as int]
                + self.sum_cols@[j as int],
            r.0.den == 2 * (self.n() - 2) * self.den,
            r.1.den == r.0.den,
            r.0.wf(),
            r.1.wf(),
    {
        let n = self.matrix.len();
        let s = (n - 2) as i128;
        proof {
            lemma_sum_bound(self.matrix@[i as int]@, self.n(), self.limit@);
            lemma_sum_bound(self.matrix@[j as int]@, self.n(), self.limit@);
            assert(-(1024 * CAP) <= s * self.at(i as int, j as int) <= 1024 * CAP)
                by (nonlinear_arith)
                requires
                    0 <= s <= 1024,
                    -CAP <= self.at(i as int, j as int) <= CAP,
            ;
            assert(self.n() * self.limit@ <= 1024 * CAP) by (nonlinear_arith)
                requires
                    0 <= self.n() <= 1024,
                    0 <= self.limit@ <= CAP,
            ;
            assert(1 <= 2 * s * self.den <= 4096 * CAP) by (nonlinear_arith)
                requires
                    1 <= s <= 1024,
                    1 <= self.den <= CAP,
            ;
        }
        let base = s * self.matrix[i][j];
        let num_i = base + self.sum_cols[i] - self.sum_cols[j];
        let num_j = base - self.sum_cols[i] + self.sum_cols[j];
        let den = 2 * s * self.den;
        (Ratio::new(num_i, den), Ratio::new(num_j, den))
    }

    /// Merge rows `i < j`: compact to an `(n-1)`-square matrix whose entries
    /// follow `upd_val` (survivors doubled, the merged row at `n-2`), with
    /// the shared denominator doubled and all row sums recomputed exactly.
    /// Fails only when a value would outgrow the 128-bit capacity; the state
    /// is then left unchanged.
    pub fn update_distance_matrix(&mut self, i: usize, j: usize) -> (r: Result<(), NjError>)
        requires
            old(self).wf(),
            i < j < old(self).n(),
            old(self).n() > 3,
        ensures
            r is Ok ==> {
                &&& final(self).wf()
                &&& final(self).n() == old(self).n() - 1
                &&& final(self).den == 2 * old(self).den
                &&& forall|a: int, b: int|
                    0 <= a < old(self).n() - 1 && 0 <= b < old(self).n() - 1
                        ==> #[trigger] final(self).at(a, b) == upd_val(
                        old(self).matrix@.map_values(|row: Vec<i128>| row@),
                        old(self).n(),
                        i as int,
                        j as int,
                        a,
                        b,
                    )
                &&& final(self).limit@ == (if 3 * old(self).limit@ <= CAP {
                    3 * old(self).limit@
                } else {
                    CAP as int
                })
            },
            3 * old(self).limit@ <= CAP && 2 * old(self).den <= CAP ==> r is Ok,
            r is Err ==> *final(self) == *old(self) && (r matches Err(NjError::InputInvalid(_))),
    {
        let n = self.matrix.len();
        let m = n - 1;
        if self.den > CAP / 2 {
            return Err(NjError::InputInvalid(
                "input exceeds the exact arithmetic capacity".to_owned(),
            ));
        }
        let dij = self.matrix[i][j];
        let ghost mold = self.matrix@.map_values(|row: Vec<i128>| row@);
        let ghost nn = self.n();
        let mut new_mat: Vec<Vec<i128>> = Vec::new();
        let mut a: usize = 0;
        while a < m
            invariant
                self.wf(),
                n == self.n(),
                nn == n,
                mold == self.matrix@.map_values(|row: Vec<i128>| row@),
                m == n - 1,
                3 < n,
                i < j < n,
                dij == self.at(i as int, j as int),
                a <= m,
                new_mat@.len() == a,
                forall|x: int| 0 <= x < a ==> (#[trigger] new_mat@[x])@.len() == m,
                forall|x: int, y: int|
                    0 <= x < a && 0 <= y < m ==> #[trigger] new_mat@[x]@[y] == upd_val(
                        mold,
                        nn,
                        i as int,
                        j as int,
                        x,
                        y,
                    ),
                forall|x: int, y: int|
                    0 <= x < a && 0 <= y < m ==> -CAP <= #[trigger] new_mat@[x]@[y] <= CAP,
            decreases m - a,
        {
            let mut row: Vec<i128> = Vec::new();
            let mut b: usize = 0;
            while b < m
                invariant
                    self.wf(),
                    n == self.n(),
                    nn == n,
                    mold == self.matrix@.map_values(|row: Vec<i128>| row@),
                    m == n - 1,
                    3 < n,
                    i < j < n,
                    dij == self.at(i as int, j as int),
                    a < m,
                    b <= m,
                    row@.len() == b,
                    forall|y: int|
                        0 <= y < b ==> #[trigger] row@[y] == upd_val(
                            mold,
                            nn,
                            i as int,
                            j as int,
                            a as int,
                            y,
                        ),
                    forall|y: int| 0 <= y < b ==> -CAP <= #[trigger] row@[y] <= CAP,
                decreases m - b,
            {
                let val: i128 = if a < m - 1 && b < m - 1 {
                    let sa = surv_idx(n, i, j, a);
                    let sb = surv_idx(n, i, j, b);
                    2 * self.matrix[sa][sb]
                } else if a == m - 1 && b == m - 1 {
                    0
                } else {
                    let c = if a == m - 1 {
                        surv_idx(n, i, j, b)
                    } else {
                        surv_idx(n, i, j, a)
                    };
                    self.matrix[c][i] + self.matrix[c][j] - dij
                };
                if val > CAP || val < -CAP {
                    return Err(NjError::InputInvalid(
                        "input exceeds the exact arithmetic capacity".to_owned(),
                    ));
                }
                row.push(val);
                b += 1;
            }
            new_mat.push(row);
            a += 1;
        }
        let mut new_sums: Vec<i128> = Vec::new();
        let mut a2: usize = 0;
        while a2 < m
            invariant
                a2 <= m,
                new_mat@.len() == m,
                forall|x: int| 0 <= x < m ==> (#[trigger] new_mat@[x])@.len() == m,
                forall|x: int, y: int|
                    0 <= x < m && 0 <= y < m ==> -CAP <= #[trigger] new_mat@[x]@[y] <= CAP,
                m <= MAX_TAXA,
                new_sums@.len() == a2,
                forall|x: int|
                    0 <= x < a2 ==> #[trigger] new_sums@[x] == sum_upto(new_mat@[x]@, m as int),
            decreases m - a2,
        {
            let row = &new_mat[a2];
            let mut s: i128 = 0;
            let mut b: usize = 0;
            while b < m
                invariant
                    b <= m,
                    m <= MAX_TAXA,
                    row@.len() == m,
                    forall|y: int| 0 <= y < m ==> -CAP <= #[trigger] row@[y] <= CAP,
                    s == sum_upto(row@, b as int),
                    -(b * CAP) <= s <= b * CAP,
                decreases m - b,
            {
                let v = row[b];
                assert(b * CAP + CAP == (b + 1) * CAP) by (nonlinear_arith);
                assert((b + 1) * CAP <= 1024 * CAP) by (nonlinear_arith)
                    requires
                        0 <= b + 1 <= 1024,
                ;
                s = s + v;
                b += 1;
            }
            new_sums.push(s);
            a2 += 1;
        }
        let ghost old_limit = self.limit@;
        self.den = 2 * self.den;
        self.matrix = new_mat;
        self.sum_cols = new_sums;
        self.limit = Ghost(
            if 3 * old_limit <= CAP {
                3 * old_limit
            } else {
                CAP as int
            },
        );
        proof {
            let q = *self;
            assert forall|x: int, y: int|
                0 <= x < q.n() && 0 <= y < q.n() implies -q.limit@ <= #[trigger] q.matrix@[x]@[y]
                <= q.limit@ by {
            lemma_upd_val_props(mold, nn, i as int, j as int, old_limit, x, y);
            }
            assert forall|x: int, y: int|
                0 <= x < q.n() && 0 <= y < q.n() implies #[trigger] q.matrix@[x]@[y]
                == q.matrix@[y]@[x] by {
                lemma_upd_val_props(mold, nn, i as int, j as int, old_limit, x, y);
            }
            assert forall|x: int| 0 <= x < q.n() implies #[trigger] q.matrix@[x]@[x] == 0 by {
                lemma_upd_val_props(mold, nn, i as int, j as int, old_limit, x, x);
            }
            assert(q.wf());
        }
        Ok(())
    }
}

/// The surviving-row map as executable code.
fn surv_idx(n: usize, i: usize, j: usize, a: usize) -> (r: usize)
    requires
        i < j < n,
        a < n - 2,
        n >= 3,
    ensures
        r == surv(n as int, i as int, j as int, a as int),
        r < n,
        r != i,
        r != j,
{
    if j == n - 2 {
        if a == i {
            n - 1
        } else {
            a
        }
    } else {
        if a == i {
            n - 2
        } else if a == j {
            n - 1
        } else {
            a
        }
    }
}

/// Bounds, symmetry and zero diagonal of the compacted entries, derived
/// from the same facts on the old matrix.
proof fn lemma_upd_val_props(mold: Seq<Seq<i128>>, n: int, i: int, j: int, limit: int, a: int, b: int)
    requires
        mold.len() == n,
        3 < n,
        0 <= i < j < n,
        forall|x: int| 0 <= x < n ==> (#[trigger] mold[x]).len() == n,
        forall|x: int, y: int| 0 <= x < n && 0 <= y < n ==> -limit <= #[trigger] mold[x][y] <= limit,
        forall|x: int, y: int| 0 <= x < n && 0 <= y < n ==> #[trigger] mold[x][y] == mold[y][x],
        forall|x: int| 0 <= x < n ==> #[trigger] mold[x][x] == 0,
        0 <= limit,
        0 <= a < n - 1,
        0 <= b < n - 1,
    ensures
        -(3 * limit) <= upd_val(mold, n, i, j, a, b) <= 3 * limit,
        upd_val(mold, n, i, j, a, b) == upd_val(mold, n, i, j, b, a),
        a == b ==> upd_val(mold, n, i, j, a, b) == 0,
{
}

} // verus!
