use vstd::prelude::*;

verus! {

/// One entry of a row's ordered set: a column index and the scaled
/// distance to it. Entries order by distance first, then by column index,
/// so equal distances at distinct columns stay distinct — deletions must
/// find the exact pair.
#[derive(Debug, Clone, Copy, PartialEq, Eq, Structural)]
pub struct Node {
    pub index: usize,
    pub value: i128,
}

impl Node {
    pub fn new(index: usize, value: i128) -> (r: Node)
        ensures
            r.index == index,
            r.value == value,
    {
        Node { index, value }
    }
}

/// Strict order on entries: by value, ties by index.
pub open spec fn node_lt(x: Node, y: Node) -> bool {
    x.value < y.value || (x.value == y.value && x.index < y.index)
}

/// The row is strictly sorted by `(value, index)`.
pub open spec fn sorted(row: Seq<Node>) -> bool {
    forall|p1: int, p2: int|
        0 <= p1 < p2 < row.len() ==> node_lt(#[trigger] row[p1], #[trigger] row[p2])
}

/// Some entry of the row carries the column `idx`.
pub open spec fn has_index(row: Seq<Node>, idx: int) -> bool {
    exists|p: int| 0 <= p < row.len() && (#[trigger] row[p]).index == idx
}

/// Insert an entry into its ordered position. The row must not already
/// carry the entry's column.
pub fn insert_sorted(row: &mut Vec<Node>, nd: Node)
    requires
        sorted(old(row)@),
        !has_index(old(row)@, nd.index as int),
    ensures
        sorted(final(row)@),
        final(row)@.len() == old(row)@.len() + 1,
        forall|p: int|
            0 <= p < final(row)@.len() ==> #[trigger] final(row)@[p] == nd || old(row)@.contains(
                final(row)@[p],
            ),
        forall|p: int| 0 <= p < old(row)@.len() ==> final(row)@.contains(#[trigger] old(row)@[p]),
        forall|v: int|
            #[trigger] has_index(final(row)@, v) <==> (v == nd.index || has_index(old(row)@, v)),
{
    let n = row.len();
    let mut p: usize = 0;
    while p < n && (row[p].value < nd.value || (row[p].value == nd.value && row[p].index
        < nd.index))
        invariant
            n == row@.len(),
            p <= n,
            forall|k: int| 0 <= k < p ==> node_lt(#[trigger] row@[k], nd),
            sorted(row@),
            !has_index(row@, nd.index as int),
            row@ == old(row)@,
        decreases n - p,
    {
        p += 1;
    }
    proof {
        assert(forall|k: int| 0 <= k < p ==> node_lt(#[trigger] row@[k], nd));
        if p < n {
            assert(row@[p as int].index != nd.index);
            assert(node_lt(nd, row@[p as int]));
        }
        assert forall|k: int| p <= k < n implies node_lt(nd, #[trigger] row@[k]) by {
            if k > p {
                assert(node_lt(row@[p as int], row@[k]));
            }
        }
    }
    row.insert(p, nd);
    proof {
        let newr = row@;
        let oldr = old(row)@;
        assert forall|p1: int, p2: int|
            0 <= p1 < p2 < newr.len() implies node_lt(#[trigger] newr[p1], #[trigger] newr[p2]) by {
            if p1 < p && p2 > p {
                assert(newr[p1] == oldr[p1]);
            }
        }
        assert forall|v: int|
            has_index(newr, v) implies (v == nd.index || has_index(oldr, v)) by {
            let q = choose|q: int| 0 <= q < newr.len() && (#[trigger] newr[q]).index == v;
            if q < p {
                assert(oldr[q].index == v);
            } else if q > p {
                assert(oldr[q - 1].index == v);
            }
        }
        assert forall|v: int|
            (v == nd.index || has_index(oldr, v)) implies has_index(newr, v) by {
            if v == nd.index {
                assert(newr[p as int].index == v);
            } else {
                let q = choose|q: int| 0 <= q < oldr.len() && (#[trigger] oldr[q]).index == v;
                if q < p {
                    assert(newr[q].index == v);
                } else {
                    assert(newr[q + 1].index == v);
                }
            }
        }
        assert forall|q: int| 0 <= q < oldr.len() implies newr.contains(#[trigger] oldr[q]) by {
            if q < p {
                assert(newr[q] == oldr[q]);
            } else {
                assert(newr[q + 1] == oldr[q]);
            }
        }
        assert forall|q: int|
            0 <= q < newr.len() implies #[trigger] newr[q] == nd || oldr.contains(newr[q]) by {
            if q < p {
                assert(oldr[q] == newr[q]);
            } else if q > p {
                assert(oldr[q - 1] == newr[q]);
            }
        }
    }
}

/// Remove the entry carrying the column `idx`, which must be present and
/// unique (rows never hold a column twice).
pub fn remove_index(row: &mut Vec<Node>, idx: usize)
    requires
        sorted(old(row)@),
        has_index(old(row)@, idx as int),
        forall|p1: int, p2: int|
            0 <= p1 < p2 < old(row)@.len() ==> (#[trigger] old(row)@[p1]).index
                != (#[trigger] old(row)@[p2]).index,
    ensures
        sorted(final(row)@),
        final(row)@.len() == old(row)@.len() - 1,
        forall|p: int|
            0 <= p < final(row)@.len() ==> old(row)@.contains(#[trigger] final(row)@[p])
                && final(row)@[p].index != idx,
        forall|p: int|
            0 <= p < old(row)@.len() && (#[trigger] old(row)@[p]).index != idx
                ==> final(row)@.contains(old(row)@[p]),
        forall|v: int|
            #[trigger] has_index(final(row)@, v) <==> (v != idx && has_index(old(row)@, v)),
{
    let n = row.len();
    let mut p: usize = 0;
    while p < n && row[p].index != idx
        invariant
            n == row@.len(),
            p <= n,
            forall|k: int| 0 <= k < p ==> (#[trigger] row@[k]).index != idx,
            has_index(row@, idx as int),
            row@ == old(row)@,
        decreases n - p,
    {
        p += 1;
    }
    proof {
        if p == n {
            let q = choose|q: int| 0 <= q < row@.len() && (#[trigger] row@[q]).index == idx;
            assert(false);
        }
        assert(row@[p as int].index == idx);
    }
    row.remove(p);
    proof {
        let newr = row@;
        let oldr = old(row)@;
        assert forall|p1: int, p2: int|
            0 <= p1 < p2 < newr.len() implies node_lt(#[trigger] newr[p1], #[trigger] newr[p2]) by {
            if p1 < p && p2 >= p {
                assert(newr[p2] == oldr[p2 + 1]);
            }
        }
        assert forall|q: int|
            0 <= q < newr.len() implies oldr.contains(#[trigger] newr[q]) && newr[q].index
            != idx by {
            if q < p {
                assert(newr[q] == oldr[q]);
            } else {
                assert(newr[q] == oldr[q + 1]);
            }
        }
        assert forall|q: int|
            0 <= q < oldr.len() && (#[trigger] oldr[q]).index != idx implies newr.contains(
            oldr[q],
        ) by {
            if q < p {
                assert(newr[q] == oldr[q]);
            } else {
                assert(q != p);
                assert(newr[q - 1] == oldr[q]);
            }
        }
        assert forall|v: int|
            has_index(newr, v) implies (v != idx && has_index(oldr, v)) by {
            let q = choose|q: int| 0 <= q < newr.len() && (#[trigger] newr[q]).index == v;
            assert(oldr.contains(newr[q]));
            let q2 = choose|q2: int| 0 <= q2 < oldr.len() && oldr[q2] == newr[q];
            assert(oldr[q2].index == v);
        }
        assert forall|v: int|
            (v != idx && has_index(oldr, v)) implies has_index(newr, v) by {
            let q = choose|q: int| 0 <= q < oldr.len() && (#[trigger] oldr[q]).index == v;
            assert(newr.contains(oldr[q]));
            let q2 = choose|q2: int| 0 <= q2 < newr.len() && newr[q2] == oldr[q];
            assert(newr[q2].index == v);
        }
    }
}

} // verus!
