use vstd::prelude::*;
use crate::graph::{Graph, touches, enters, leaves, lemma_push_contains, lemma_push_no_duplicates};

verus! {

/// One stored edge: its endpoints and its weight.
pub struct EdgeEntry<EdgeWeight> {
    pub source: usize,
    pub target: usize,
    pub weight: EdgeWeight,
}

/// An in-memory graph that stores node weights and edges in vectors.
///
/// A node's reference is its position among the nodes, an edge's reference its
/// position among the edges; nodes and edges are never removed, so references
/// stay valid.
pub struct VecGraph<NodeWeight, EdgeWeight> {
    directed: bool,
    node_list: Vec<NodeWeight>,
    edge_list: Vec<EdgeEntry<EdgeWeight>>,
}

/// The references `0 .. n` in increasing order.
pub open spec fn index_seq(n: nat) -> Seq<usize> {
    Seq::new(n, |i: int| i as usize)
}

/// `index_seq(n)` holds exactly the references below `n`, each once.
pub proof fn lemma_index_seq(n: nat)
    requires
        n <= usize::MAX + 1,
    ensures
        index_seq(n).no_duplicates(),
        forall|x: usize| #[trigger] index_seq(n).contains(x) <==> (x as nat) < n,
{
    assert forall|x: usize| (x as nat) < n implies #[trigger] index_seq(n).contains(x) by {
        assert(index_seq(n)[x as int] == x);
    }
}

impl<NodeWeight, EdgeWeight> VecGraph<NodeWeight, EdgeWeight> {
    /// The stored edges, as a sequence of (source, target, weight).
    pub closed spec fn spec_edges(&self) -> Seq<EdgeEntry<EdgeWeight>> {
        self.edge_list@
    }

    /// The stored node weights.
    pub closed spec fn spec_nodes(&self) -> Seq<NodeWeight> {
        self.node_list@
    }

    /// Creates an empty directed graph.
    pub fn new_directed() -> (r: Self)
        ensures
            r.valid(),
            r.directed(),
            r.node_seq().len() == 0,
            r.edge_seq().len() == 0,
    {
        VecGraph { directed: true, node_list: Vec::new(), edge_list: Vec::new() }
    }

    /// Creates an empty undirected graph.
    pub fn new_undirected() -> (r: Self)
        ensures
            r.valid(),
            !r.directed(),
            r.node_seq().len() == 0,
            r.edge_seq().len() == 0,
    {
        VecGraph { directed: false, node_list: Vec::new(), edge_list: Vec::new() }
    }

    /// Adds a node with the given weight and returns its reference.
    pub fn push_node(&mut self, weight: NodeWeight) -> (r: usize)
        requires
            old(self).valid(),
            old(self).node_seq().len() < usize::MAX,
        ensures
            final(self).valid(),
            r == old(self).node_seq().len(),
            final(self).node_seq() == old(self).node_seq().push(r),
            forall|n: usize| #[trigger]
                final(self).node_seq().contains(n) <==> old(self).node_seq().contains(n) || n == r,
            final(self).edge_seq() == old(self).edge_seq(),
            final(self).directed() == old(self).directed(),
            final(self).node_weight_of(r) == weight,
            forall|n: usize|
                old(self).node_seq().contains(n) ==> #[trigger] final(self).node_weight_of(n)
                    == old(self).node_weight_of(n),
            forall|e: usize|
                #![trigger final(self).endpoints(e)]
                #![trigger final(self).edge_weight_of(e)]
                old(self).edge_seq().contains(e) ==> final(self).endpoints(e) == old(
                    self,
                ).endpoints(e) && final(self).edge_weight_of(e) == old(self).edge_weight_of(e),
    {
        let r = self.node_list.len();
        self.node_list.push(weight);
        proof {
            lemma_index_seq(old(self).node_list@.len());
            assert(self.node_seq() =~= old(self).node_seq().push(r));
            crate::graph::lemma_push_contains(old(self).node_seq(), r);
        }
        r
    }

    /// Adds an edge from `source` to `target` with the given weight and
    /// returns its reference.
    pub fn push_edge(&mut self, source: usize, target: usize, weight: EdgeWeight) -> (r: usize)
        requires
            old(self).valid(),
            old(self).node_seq().contains(source),
            old(self).node_seq().contains(target),
            old(self).edge_seq().len() < usize::MAX,
        ensures
            final(self).valid(),
            r == old(self).edge_seq().len(),
            final(self).edge_seq() == old(self).edge_seq().push(r),
            forall|e: usize| #[trigger]
                final(self).edge_seq().contains(e) <==> old(self).edge_seq().contains(e) || e == r,
            final(self).node_seq() == old(self).node_seq(),
            final(self).directed() == old(self).directed(),
            final(self).endpoints(r) == (source, target),
            final(self).edge_weight_of(r) == weight,
            forall|n: usize|
                old(self).node_seq().contains(n) ==> #[trigger] final(self).node_weight_of(n)
                    == old(self).node_weight_of(n),
            forall|e: usize|
                #![trigger final(self).endpoints(e)]
                #![trigger final(self).edge_weight_of(e)]
                old(self).edge_seq().contains(e) ==> final(self).endpoints(e) == old(
                    self,
                ).endpoints(e) && final(self).edge_weight_of(e) == old(self).edge_weight_of(e),
    {
        proof {
            lemma_index_seq(old(self).node_list@.len());
            lemma_index_seq(old(self).edge_list@.len());
        }
        let r = self.edge_list.len();
        self.edge_list.push(EdgeEntry { source, target, weight });
        proof {
            assert(self.edge_seq() =~= old(self).edge_seq().push(r));
            crate::graph::lemma_push_contains(old(self).edge_seq(), r);
            assert(self.edge_list@[r as int].source == source);
        }
        r
    }
}

impl<NodeWeight, EdgeWeight> Graph<NodeWeight, EdgeWeight> for VecGraph<NodeWeight, EdgeWeight> {
    closed spec fn directed(&self) -> bool {
        self.directed
    }

    closed spec fn node_seq(&self) -> Seq<usize> {
        index_seq(self.node_list@.len())
    }

    closed spec fn edge_seq(&self) -> Seq<usize> {
        index_seq(self.edge_list@.len())
    }

    closed spec fn endpoints(&self, edge: usize) -> (usize, usize) {
        (self.edge_list@[edge as int].source, self.edge_list@[edge as int].target)
    }

    closed spec fn node_weight_of(&self, node: usize) -> NodeWeight {
        self.node_list@[node as int]
    }

    closed spec fn edge_weight_of(&self, edge: usize) -> EdgeWeight {
        self.edge_list@[edge as int].weight
    }

    closed spec fn valid(&self) -> bool {
        &&& self.node_list@.len() <= usize::MAX
        &&& self.edge_list@.len() <= usize::MAX
        &&& forall|i: int|
            0 <= i < self.edge_list@.len() ==> #[trigger] self.edge_list@[i].source
                < self.node_list@.len() && self.edge_list@[i].target < self.node_list@.len()
    }

    proof fn lemma_valid_structure(&self) {
        lemma_index_seq(self.node_list@.len());
        lemma_index_seq(self.edge_list@.len());
    }

    fn is_directed(&self) -> (r: bool) {
        self.directed
    }

    fn is_directed_edge(&self, edge: usize) -> (r: bool) {
        self.directed
    }

    fn adjacent_edges(&self, node: usize) -> (r: Vec<usize>) {
        proof {
            lemma_index_seq(self.edge_list@.len());
        }
        let mut r: Vec<usize> = Vec::new();
        let mut i: usize = 0;
        while i < self.edge_list.len()
            invariant
                i <= self.edge_list@.len(),
                forall|e: usize| #[trigger]
                    r@.contains(e) <==> e < i && touches(self.endpoints(e), node),
                r@.no_duplicates(),
            decreases self.edge_list@.len() - i,
        {
            let entry = &self.edge_list[i];
            if entry.source == node || entry.target == node {
                proof {
                    lemma_push_contains(r@, i);
                    lemma_push_no_duplicates(r@, i);
                }
                r.push(i);
            }
            i = i + 1;
        }
        r
    }

    fn incoming_edges(&self, node: usize) -> (r: Vec<usize>) {
        proof {
            lemma_index_seq(self.edge_list@.len());
        }
        let mut r: Vec<usize> = Vec::new();
        let mut i: usize = 0;
        while i < self.edge_list.len()
            invariant
                i <= self.edge_list@.len(),
                forall|e: usize| #[trigger]
                    r@.contains(e) <==> e < i && enters(self.directed, self.endpoints(e), node),
                r@.no_duplicates(),
            decreases self.edge_list@.len() - i,
        {
            let entry = &self.edge_list[i];
            if entry.target == node || (!self.directed && entry.source == node) {
                proof {
                    lemma_push_contains(r@, i);
                    lemma_push_no_duplicates(r@, i);
                }
                r.push(i);
            }
            i = i + 1;
        }
        r
    }

    fn outgoing_edges(&self, node: usize) -> (r: Vec<usize>) {
        proof {
            lemma_index_seq(self.edge_list@.len());
        }
        let mut r: Vec<usize> = Vec::new();
        let mut i: usize = 0;
        while i < self.edge_list.len()
            invariant
                i <= self.edge_list@.len(),
                forall|e: usize| #[trigger]
                    r@.contains(e) <==> e < i && leaves(self.directed, self.endpoints(e), node),
                r@.no_duplicates(),
            decreases self.edge_list@.len() - i,
        {
            let entry = &self.edge_list[i];
            if entry.source == node || (!self.directed && entry.target == node) {
                proof {
                    lemma_push_contains(r@, i);
                    lemma_push_no_duplicates(r@, i);
                }
                r.push(i);
            }
            i = i + 1;
        }
        r
    }

    fn adjacent_nodes(&self, edge: usize) -> (r: (usize, usize)) {
        proof {
            lemma_index_seq(self.edge_list@.len());
        }
        let entry = &self.edge_list[edge];
        (entry.source, entry.target)
    }

    fn node_weight(&self, node: usize) -> (r: &NodeWeight) {
        proof {
            lemma_index_seq(self.node_list@.len());
        }
        &self.node_list[node]
    }

    fn edge_weight(&self, edge: usize) -> (r: &EdgeWeight) {
        proof {
            lemma_index_seq(self.edge_list@.len());
        }
        &self.edge_list[edge].weight
    }

    fn node_weights(&self) -> (r: Vec<&NodeWeight>) {
        let mut r: Vec<&NodeWeight> = Vec::new();
        let mut i: usize = 0;
        while i < self.node_list.len()
            invariant
                i <= self.node_list@.len(),
                r@.len() == i,
                forall|j: int| 0 <= j < i ==> *#[trigger] r@[j] == self.node_list@[j],
            decreases self.node_list@.len() - i,
        {
            r.push(&self.node_list[i]);
            i = i + 1;
        }
        r
    }

    fn edge_weights(&self) -> (r: Vec<&EdgeWeight>) {
        let mut r: Vec<&EdgeWeight> = Vec::new();
        let mut i: usize = 0;
        while i < self.edge_list.len()
            invariant
                i <= self.edge_list@.len(),
                r@.len() == i,
                forall|j: int| 0 <= j < i ==> *#[trigger] r@[j] == self.edge_list@[j].weight,
            decreases self.edge_list@.len() - i,
        {
            r.push(&self.edge_list[i].weight);
            i = i + 1;
        }
        r
    }

    fn nodes(&self) -> (r: Vec<usize>) {
        let mut r: Vec<usize> = Vec::new();
        let mut i: usize = 0;
        while i < self.node_list.len()
            invariant
                i <= self.node_list@.len(),
                r@ == index_seq(i as nat),
            decreases self.node_list@.len() - i,
        {
            r.push(i);
            i = i + 1;
            assert(r@ =~= index_seq(i as nat));
        }
        assert(r@ =~= index_seq(self.node_list@.len()));
        r
    }

    fn edges(&self) -> (r: Vec<usize>) {
        let mut r: Vec<usize> = Vec::new();
        let mut i: usize = 0;
        while i < self.edge_list.len()
            invariant
                i <= self.edge_list@.len(),
                r@ == index_seq(i as nat),
            decreases self.edge_list@.len() - i,
        {
            r.push(i);
            i = i + 1;
            assert(r@ =~= index_seq(i as nat));
        }
        assert(r@ =~= index_seq(self.edge_list@.len()));
        r
    }

    fn count_nodes(&self) -> (r: usize) {
        self.node_list.len()
    }

    fn count_edges(&self) -> (r: usize) {
        self.edge_list.len()
    }
}

} // verus!
