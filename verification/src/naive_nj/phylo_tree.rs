use vstd::prelude::*;

use crate::naive_nj::matrix::surv;
use crate::ratio::Ratio;
use crate::tree::{Edge, Tree};

verus! {

/// `v` occurs among the node handles.
pub open spec fn appears(nodes: Seq<usize>, v: int) -> bool {
    exists|k: int| 0 <= k < nodes.len() && nodes[k] == v
}

/// No two logical rows share a graph vertex.
pub open spec fn injective(nodes: Seq<usize>) -> bool {
    forall|k1: int, k2: int|
        0 <= k1 < nodes.len() && 0 <= k2 < nodes.len() && k1 != k2 ==> #[trigger] nodes[k1]
            != #[trigger] nodes[k2]
}

/// The vertex standing at logical row `k` after rows `a < b` merge into the
/// fresh vertex `u`: the merged row sits at the second-to-last position and
/// the surviving rows move by the same swap-and-pop map as the canonical
/// Q-matrix (`surv`).
pub open spec fn node_after(nodes: Seq<usize>, a: int, b: int, u: usize, k: int) -> usize {
    let n = nodes.len() as int;
    if k == n - 2 {
        u
    } else {
        nodes[surv(n, a, b, k)]
    }
}

/// The tree builder of the canonical strategy: the growing graph plus the
/// map from current logical row indices to graph vertices.
#[derive(Debug)]
pub struct PhyloTree {
    pub tree: Tree,
    pub nodes: Vec<usize>,
}

impl PhyloTree {
    /// Handles point at real vertices, no two rows share one, and the graph
    /// is well formed.
    pub open spec fn linked(self) -> bool {
        &&& self.tree.wf()
        &&& forall|k: int|
            0 <= k < self.nodes@.len() ==> (#[trigger] self.nodes@[k]) < self.tree.labels@.len()
        &&& injective(self.nodes@)
    }

    /// Rewrap an existing graph and row map, as the hybrid handoff does.
    pub fn new(tree: Tree, nodes: Vec<usize>) -> (t: PhyloTree)
        ensures
            t.tree == tree,
            t.nodes == nodes,
    {
        PhyloTree { tree, nodes }
    }

    /// One labelled vertex per taxon, no edges, row `k` mapped to vertex `k`.
    pub fn build(leafs: &Vec<String>) -> (t: PhyloTree)
        ensures
            t.linked(),
            t.tree.labels@ == leafs@,
            t.tree.edges@.len() == 0,
            t.nodes@.len() == leafs@.len(),
            forall|k: int| 0 <= k < leafs@.len() ==> #[trigger] t.nodes@[k] == k,
    {
        let n = leafs.len();
        let mut tree = Tree::new();
        let mut nodes: Vec<usize> = Vec::new();
        let mut i: usize = 0;
        while i < n
            invariant
                n == leafs@.len(),
                i <= n,
                tree.wf(),
                tree.labels@ == leafs@.take(i as int),
                tree.edges@.len() == 0,
                nodes@.len() == i,
                forall|k: int| 0 <= k < i ==> #[trigger] nodes@[k] == k,
            decreases n - i,
        {
            let name = leafs[i].clone();
            let v = tree.add_node(name);
            nodes.push(v);
            i += 1;
        }
        assert(leafs@.take(n as int) == leafs@);
        PhyloTree { tree, nodes }
    }

    /// Join rows `a < b`: add the anonymous vertex `u` with an edge to each
    /// of the two merged vertices, and renumber the rows by the canonical
    /// swap-and-pop policy.
    pub fn merge_neighbors(&mut self, a: usize, b: usize, dau: Ratio, dbu: Ratio) -> (u: usize)
        requires
            old(self).linked(),
            a < b < old(self).nodes@.len(),
            3 <= old(self).nodes@.len(),
            dau.wf(),
            dbu.wf(),
        ensures
            final(self).linked(),
            u == old(self).tree.labels@.len(),
            final(self).tree.labels@.len() == old(self).tree.labels@.len() + 1,
            forall|k: int|
                0 <= k < old(self).tree.labels@.len() ==> final(self).tree.labels@[k] == #[trigger] old(
                    self,
                ).tree.labels@[k],
            final(self).tree.labels@[u as int]@ == Seq::<char>::empty(),
            final(self).tree.edges@ == old(self).tree.edges@.push(
                Edge { a: u, b: old(self).nodes@[a as int], weight: dau },
            ).push(Edge { a: u, b: old(self).nodes@[b as int], weight: dbu }),
            final(self).nodes@.len() == old(self).nodes@.len() - 1,
            forall|k: int|
                0 <= k < old(self).nodes@.len() - 1 ==> #[trigger] final(self).nodes@[k]
                    == node_after(old(self).nodes@, a as int, b as int, u, k),
    {
        let n = self.nodes.len();
        let a_node = self.nodes[a];
        let b_node = self.nodes[b];
        if b == n - 2 {
            let moved = self.nodes[n - 1];
            self.nodes[a] = moved;
        } else {
            let moved_a = self.nodes[n - 2];
            self.nodes[a] = moved_a;
            let moved_b = self.nodes[n - 1];
            self.nodes[b] = moved_b;
        }
        let u = self.tree.add_node(String::new());
        self.nodes[n - 2] = u;
        self.nodes.truncate(n - 1);
        self.tree.add_edge(u, a_node, dau);
        self.tree.add_edge(u, b_node, dbu);
        proof {
            let oldn = old(self).nodes@;
            let newn = self.nodes@;
            assert forall|k1: int, k2: int|
                0 <= k1 < newn.len() && 0 <= k2 < newn.len() && k1 != k2 implies #[trigger] newn[k1]
                != #[trigger] newn[k2] by {}
        }
        u
    }
}

/// After a merge the live vertices are the old ones minus the two merged,
/// plus the fresh vertex.
pub proof fn lemma_merge_membership(oldn: Seq<usize>, newn: Seq<usize>, a: int, b: int, u: usize)
    requires
        3 <= oldn.len(),
        0 <= a < b < oldn.len(),
        injective(oldn),
        newn.len() == oldn.len() - 1,
        forall|k: int| 0 <= k < newn.len() ==> #[trigger] newn[k] == node_after(oldn, a, b, u, k),
        !appears(oldn, u as int),
    ensures
        forall|v: int|
            #[trigger] appears(newn, v) <==> (v == u || (appears(oldn, v) && v != oldn[a] && v
                != oldn[b])),
    {
    let n = oldn.len() as int;
    assert forall|v: int| #[trigger] appears(newn, v) implies (v == u || (appears(oldn, v) && v
        != oldn[a] && v != oldn[b])) by {
        let k = choose|k: int| 0 <= k < newn.len() && newn[k] == v;
        if k != n - 2 {
            let s = surv(n, a, b, k);
            assert(oldn[s] == v);
        }
    }
    assert forall|v: int| (v == u || (appears(oldn, v) && v != oldn[a] && v
        != oldn[b])) implies #[trigger] appears(newn, v) by {
        if v == u {
            assert(newn[n - 2] == node_after(oldn, a, b, u, n - 2));
            assert(newn[n - 2] == v);
        } else {
            let k = choose|k: int| 0 <= k < oldn.len() && oldn[k] == v;
            assert(k != a && k != b);
            let p: int = if b == n - 2 {
                if k == n - 1 {
                    a
                } else {
                    k
                }
            } else {
                if k == n - 2 {
                    a
                } else if k == n - 1 {
                    b
                } else {
                    k
                }
            };
            assert(0 <= p < n - 2);
            assert(surv(n, a, b, p) == k);
            assert(newn[p] == v);
        }
    }
}

} // verus!
