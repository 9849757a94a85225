use vstd::prelude::*;

use crate::ratio::Ratio;
use crate::tree::{Edge, Tree};

verus! {

/// The tree builder of the pruned strategy: ids grow monotonically and are
/// never renumbered, so the map from row ids to graph vertices is the
/// identity — it is kept as a vector all the same, mirroring the shape of
/// the canonical builder.
#[derive(Debug)]
pub struct PhyloTree {
    pub tree: Tree,
    pub nodes: Vec<usize>,
}

impl PhyloTree {
    pub open spec fn linked(self) -> bool {
        &&& self.tree.wf()
        &&& self.nodes@.len() == self.tree.labels@.len()
        &&& forall|k: int| 0 <= k < self.nodes@.len() ==> #[trigger] self.nodes@[k] == k
    }

    /// One labelled vertex per taxon, no edges.
    pub fn build(leafs: &Vec<String>) -> (t: PhyloTree)
        ensures
            t.linked(),
            t.tree.labels@ == leafs@,
            t.tree.edges@.len() == 0,
            t.nodes@.len() == leafs@.len(),
    {
        let n = leafs.len();
        let mut tree = Tree::new();
        let mut nodes: Vec<usize> = Vec::new();
        let mut i: usize = 0;
        while i < n
            invariant
                n == leafs@.len(),
                i <= n,
                tree.wf(),
                tree.labels@ == leafs@.take(i as int),
                tree.edges@.len() == 0,
                nodes@.len() == i,
                forall|k: int| 0 <= k < i ==> #[trigger] nodes@[k] == k,
            decreases n - i,
        {
            let name = leafs[i].clone();
            let v = tree.add_node(name);
            nodes.push(v);
            i += 1;
        }
        proof {
            assert(leafs@.take(n as int) == leafs@);
        }
        PhyloTree { tree, nodes }
    }

    /// Join the rows `a` and `b`: a fresh anonymous vertex with one edge to
    /// each, appended under the next id.
    pub fn merge_neighbors(&mut self, a: usize, b: usize, dau: Ratio, dbu: Ratio) -> (u: usize)
        requires
            old(self).linked(),
            a < old(self).nodes@.len(),
            b < old(self).nodes@.len(),
            a != b,
            dau.wf(),
            dbu.wf(),
        ensures
            final(self).linked(),
            u == old(self).tree.labels@.len(),
            final(self).tree.labels@.len() == old(self).tree.labels@.len() + 1,
            forall|k: int|
                0 <= k < old(self).tree.labels@.len() ==> final(self).tree.labels@[k]
                    == #[trigger] old(self).tree.labels@[k],
            final(self).tree.labels@[u as int]@ == Seq::<char>::empty(),
            final(self).tree.edges@ == old(self).tree.edges@.push(
                Edge { a: u, b: a, weight: dau },
            ).push(Edge { a: u, b, weight: dbu }),
            final(self).nodes@ == old(self).nodes@.push(u),
    {
        let a_node = self.nodes[a];
        let b_node = self.nodes[b];
        let u = self.tree.add_node(String::new());
        self.nodes.push(u);
        self.tree.add_edge(u, a_node, dau);
        self.tree.add_edge(u, b_node, dbu);
        u
    }
}

} // verus!
