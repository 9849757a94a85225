use vstd::prelude::*;

use crate::ratio::Ratio;

verus! {

/// One undirected weighted edge between the vertices `a` and `b`.
#[derive(Debug, Clone, Copy, PartialEq, Eq, Structural)]
pub struct Edge {
    pub a: usize,
    pub b: usize,
    pub weight: Ratio,
}

/// The edge joins `x` and `y`, in either orientation.
pub open spec fn connects(e: Edge, x: int, y: int) -> bool {
    (e.a == x && e.b == y) || (e.a == y && e.b == x)
}

/// How many endpoints of the first `k` edges lie at `v`.
pub open spec fn degree_upto(edges: Seq<Edge>, v: int, k: int) -> int
    decreases k,
{
    if k <= 0 {
        0
    } else {
        degree_upto(edges, v, k - 1) + (if edges[k - 1].a == v {
            1int
        } else {
            0int
        }) + (if edges[k - 1].b == v {
            1int
        } else {
            0int
        })
    }
}

/// The degree of vertex `v` in the edge list.
pub open spec fn degree(edges: Seq<Edge>, v: int) -> int {
    degree_upto(edges, v, edges.len() as int)
}

pub proof fn lemma_degree_upto_push(edges: Seq<Edge>, e: Edge, v: int, k: int)
    requires
        0 <= k <= edges.len(),
    ensures
        degree_upto(edges.push(e), v, k) == degree_upto(edges, v, k),
    decreases k,
{
    if k > 0 {
        lemma_degree_upto_push(edges, e, v, k - 1);
    }
}

/// Appending an edge raises the degrees of exactly its two endpoints.
pub proof fn lemma_degree_push(edges: Seq<Edge>, e: Edge, v: int)
    ensures
        degree(edges.push(e), v) == degree(edges, v) + (if e.a == v {
            1int
        } else {
            0int
        }) + (if e.b == v {
            1int
        } else {
            0int
        }),
{
    lemma_degree_upto_push(edges, e, v, edges.len() as int);
}

/// A vertex touched by no edge has degree zero.
pub proof fn lemma_degree_zero(edges: Seq<Edge>, v: int, k: int)
    requires
        0 <= k <= edges.len(),
        forall|m: int| 0 <= m < edges.len() ==> (#[trigger] edges[m]).a != v && edges[m].b != v,
    ensures
        degree_upto(edges, v, k) == 0,
    decreases k,
{
    if k > 0 {
        lemma_degree_zero(edges, v, k - 1);
    }
}

/// The neighbours of `v` among the first `k` edges, in edge order.
pub open spec fn adj_upto(edges: Seq<Edge>, v: int, k: int) -> Seq<usize>
    decreases k,
{
    if k <= 0 {
        Seq::empty()
    } else {
        let rest = adj_upto(edges, v, k - 1);
        if edges[k - 1].a == v {
            rest.push(edges[k - 1].b)
        } else if edges[k - 1].b == v {
            rest.push(edges[k - 1].a)
        } else {
            rest
        }
    }
}

/// An undirected weighted graph: taxa are labelled vertices, internal nodes
/// carry the empty label, and each edge holds an exact rational length.
#[derive(Debug, Clone)]
pub struct Tree {
    pub labels: Vec<String>,
    pub edges: Vec<Edge>,
}

impl Tree {
    /// Every edge stays inside the vertex range and has a positive
    /// denominator on its weight.
    pub open spec fn wf(self) -> bool {
        forall|k: int|
            0 <= k < self.edges@.len() ==> (#[trigger] self.edges@[k]).a < self.labels@.len()
                && self.edges@[k].b < self.labels@.len() && self.edges@[k].weight.wf()
    }

    pub fn new() -> (t: Tree)
        ensures
            t.labels@.len() == 0,
            t.edges@.len() == 0,
            t.wf(),
    {
        Tree { labels: Vec::new(), edges: Vec::new() }
    }

    pub fn node_count(&self) -> (n: usize)
        ensures
            n == self.labels@.len(),
    {
        self.labels.len()
    }

    pub fn edge_count(&self) -> (n: usize)
        ensures
            n == self.edges@.len(),
    {
        self.edges.len()
    }

    /// Append a vertex and return its index.
    pub fn add_node(&mut self, label: String) -> (v: usize)
        ensures
            v == old(self).labels@.len(),
            final(self).labels@ == old(self).labels@.push(label),
            final(self).edges == old(self).edges,
            old(self).wf() ==> final(self).wf(),
    {
        let v = self.labels.len();
        self.labels.push(label);
        v
    }

    /// Append an undirected edge of the given exact length.
    pub fn add_edge(&mut self, a: usize, b: usize, weight: Ratio)
        requires
            a < old(self).labels@.len(),
            b < old(self).labels@.len(),
            weight.wf(),
        ensures
            final(self).labels == old(self).labels,
            final(self).edges@ == old(self).edges@.push(Edge { a, b, weight }),
            old(self).wf() ==> final(self).wf(),
    {
        self.edges.push(Edge { a, b, weight });
    }

    pub fn node_label(&self, v: usize) -> (s: &String)
        requires
            v < self.labels@.len(),
        ensures
            s == self.labels@[v as int],
    {
        &self.labels[v]
    }

    pub fn edge_endpoints(&self, e: usize) -> (r: (usize, usize))
        requires
            e < self.edges@.len(),
        ensures
            r.0 == self.edges@[e as int].a,
            r.1 == self.edges@[e as int].b,
    {
        (self.edges[e].a, self.edges[e].b)
    }

    pub fn edge_weight(&self, e: usize) -> (w: Ratio)
        requires
            e < self.edges@.len(),
        ensures
            w == self.edges@[e as int].weight,
    {
        self.edges[e].weight
    }

    /// The first edge joining `a` and `b`, if one exists.
    pub fn find_edge(&self, a: usize, b: usize) -> (r: Option<usize>)
        ensures
            r matches Some(k) ==> k < self.edges@.len() && connects(
                self.edges@[k as int],
                a as int,
                b as int,
            ),
            r is None ==> forall|k: int|
                0 <= k < self.edges@.len() ==> !connects(#[trigger] self.edges@[k], a as int, b as int),
    {
        let n = self.edges.len();
        let mut k: usize = 0;
        while k < n
            invariant
                n == self.edges@.len(),
                k <= n,
                forall|m: int| 0 <= m < k ==> !connects(#[trigger] self.edges@[m], a as int, b as int),
            decreases n - k,
        {
            let e = &self.edges[k];
            if (e.a == a && e.b == b) || (e.a == b && e.b == a) {
                return Some(k);
            }
            k += 1;
        }
        None
    }

    /// All vertices adjacent to `v`, in edge order.
    pub fn neighbors(&self, v: usize) -> (r: Vec<usize>)
        ensures
            r@ == adj_upto(self.edges@, v as int, self.edges@.len() as int),
    {
        let n = self.edges.len();
        let mut r: Vec<usize> = Vec::new();
        let mut k: usize = 0;
        while k < n
            invariant
                n == self.edges@.len(),
                k <= n,
                r@ == adj_upto(self.edges@, v as int, k as int),
            decreases n - k,
        {
            let e = &self.edges[k];
            if e.a == v {
                r.push(e.b);
            } else if e.b == v {
                r.push(e.a);
            }
            k += 1;
        }
        r
    }
}

} // verus!
