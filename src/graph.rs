use vstd::prelude::*;

verus! {

/// The capability set that every graph of this library offers: base graphs,
/// pattern graphs and filter-map views alike.
///
/// Nodes and edges are named by `usize` references that are valid only within
/// the graph that issued them. A graph is modelled by the sequence of its node
/// references, the sequence of its edge references, the endpoints of each edge
/// and the weight under each reference.
pub trait Graph<NodeWeight, EdgeWeight> {
    /// Whether the edges of the graph are directed.
    spec fn directed(&self) -> bool;

    /// The node references, in enumeration order.
    spec fn node_seq(&self) -> Seq<usize>;

    /// The edge references, in enumeration order.
    spec fn edge_seq(&self) -> Seq<usize>;

    /// Source and target of an edge.
    spec fn endpoints(&self, edge: usize) -> (usize, usize);

    /// The weight under a node reference.
    spec fn node_weight_of(&self, node: usize) -> NodeWeight;

    /// The weight under an edge reference.
    spec fn edge_weight_of(&self, edge: usize) -> EdgeWeight;

    /// The internal invariant of the representation.
    spec fn valid(&self) -> bool;

    /// A valid graph enumerates each reference once, and every edge joins two
    /// of its nodes.
    proof fn lemma_valid_structure(&self)
        requires
            self.valid(),
        ensures
            self.node_seq().no_duplicates(),
            self.edge_seq().no_duplicates(),
            forall|e: usize| #[trigger]
                self.edge_seq().contains(e) ==> self.node_seq().contains(self.endpoints(e).0)
                    && self.node_seq().contains(self.endpoints(e).1),
    ;

    /// Checks if the edges of this graph are directed.
    fn is_directed(&self) -> (r: bool)
        ensures
            r == self.directed(),
    ;

    /// Checks if the given edge is directed: every edge of a directed graph
    /// is, none of an undirected one.
    fn is_directed_edge(&self, edge: usize) -> (r: bool)
        requires
            self.valid(),
            self.edge_seq().contains(edge),
        ensures
            r == self.directed(),
    ;

    /// All edges that touch `node`, incoming and outgoing.
    fn adjacent_edges(&self, node: usize) -> (r: Vec<usize>)
        requires
            self.valid(),
            self.node_seq().contains(node),
        ensures
            forall|e: usize| #[trigger]
                r@.contains(e) <==> self.edge_seq().contains(e) && touches(
                    self.endpoints(e),
                    node,
                ),
            r@.no_duplicates(),
    ;

    /// The edges that enter `node`; for an undirected graph all adjacent edges.
    fn incoming_edges(&self, node: usize) -> (r: Vec<usize>)
        requires
            self.valid(),
            self.node_seq().contains(node),
        ensures
            forall|e: usize| #[trigger]
                r@.contains(e) <==> self.edge_seq().contains(e) && enters(
                    self.directed(),
                    self.endpoints(e),
                    node,
                ),
            r@.no_duplicates(),
    ;

    /// The edges that leave `node`; for an undirected graph all adjacent edges.
    fn outgoing_edges(&self, node: usize) -> (r: Vec<usize>)
        requires
            self.valid(),
            self.node_seq().contains(node),
        ensures
            forall|e: usize| #[trigger]
                r@.contains(e) <==> self.edge_seq().contains(e) && leaves(
                    self.directed(),
                    self.endpoints(e),
                    node,
                ),
            r@.no_duplicates(),
    ;

    /// The nodes an edge connects: its source, then its target.
    fn adjacent_nodes(&self, edge: usize) -> (r: (usize, usize))
        requires
            self.valid(),
            self.edge_seq().contains(edge),
        ensures
            r == self.endpoints(edge),
    ;

    /// The weight of a node.
    fn node_weight(&self, node: usize) -> (r: &NodeWeight)
        requires
            self.valid(),
            self.node_seq().contains(node),
        ensures
            *r == self.node_weight_of(node),
    ;

    /// The weight of an edge.
    fn edge_weight(&self, edge: usize) -> (r: &EdgeWeight)
        requires
            self.valid(),
            self.edge_seq().contains(edge),
        ensures
            *r == self.edge_weight_of(edge),
    ;

    /// All node weights, in the order of `nodes`.
    fn node_weights(&self) -> (r: Vec<&NodeWeight>)
        requires
            self.valid(),
        ensures
            r@.len() == self.node_seq().len(),
            forall|i: int|
                0 <= i < r@.len() ==> *#[trigger] r@[i] == self.node_weight_of(self.node_seq()[i]),
    ;

    /// All edge weights, in the order of `edges`.
    fn edge_weights(&self) -> (r: Vec<&EdgeWeight>)
        requires
            self.valid(),
        ensures
            r@.len() == self.edge_seq().len(),
            forall|i: int|
                0 <= i < r@.len() ==> *#[trigger] r@[i] == self.edge_weight_of(self.edge_seq()[i]),
    ;

    /// All node references.
    fn nodes(&self) -> (r: Vec<usize>)
        requires
            self.valid(),
        ensures
            r@ == self.node_seq(),
    ;

    /// All edge references.
    fn edges(&self) -> (r: Vec<usize>)
        requires
            self.valid(),
        ensures
            r@ == self.edge_seq(),
    ;

    /// The number of nodes.
    fn count_nodes(&self) -> (r: usize)
        requires
            self.valid(),
        ensures
            r == self.node_seq().len(),
    ;

    /// The number of edges.
    fn count_edges(&self) -> (r: usize)
        requires
            self.valid(),
        ensures
            r == self.edge_seq().len(),
    ;
}

/// An edge with endpoints `ends` touches `node` when either endpoint is it.
pub open spec fn touches(ends: (usize, usize), node: usize) -> bool {
    ends.0 == node || ends.1 == node
}

/// An edge enters `node` when `node` is its target; in an undirected graph
/// when it touches `node`.
pub open spec fn enters(directed: bool, ends: (usize, usize), node: usize) -> bool {
    if directed {
        ends.1 == node
    } else {
        touches(ends, node)
    }
}

/// An edge leaves `node` when `node` is its source; in an undirected graph
/// when it touches `node`.
pub open spec fn leaves(directed: bool, ends: (usize, usize), node: usize) -> bool {
    if directed {
        ends.0 == node
    } else {
        touches(ends, node)
    }
}

/// `m` is a successor of `node`: some edge leaves `node` towards `m`.
pub open spec fn successor_of<NodeWeight, EdgeWeight, G: Graph<NodeWeight, EdgeWeight>>(
    g: &G,
    node: usize,
    m: usize,
) -> bool {
    exists|e: usize|
        g.edge_seq().contains(e) && leaves(g.directed(), #[trigger] g.endpoints(e), node)
            && g.endpoints(e).1 == m
}

/// `m` is a predecessor of `node`: some edge enters `node` from `m`.
pub open spec fn predecessor_of<NodeWeight, EdgeWeight, G: Graph<NodeWeight, EdgeWeight>>(
    g: &G,
    node: usize,
    m: usize,
) -> bool {
    exists|e: usize|
        g.edge_seq().contains(e) && enters(g.directed(), #[trigger] g.endpoints(e), node)
            && g.endpoints(e).0 == m
}

/// The successors of `node`: for each edge that leaves it, the edge's target.
pub fn outgoing_nodes<NodeWeight, EdgeWeight, G: Graph<NodeWeight, EdgeWeight>>(
    g: &G,
    node: usize,
) -> (r: Vec<usize>)
    requires
        g.valid(),
        g.node_seq().contains(node),
    ensures
        forall|e: usize|
            g.edge_seq().contains(e) && leaves(g.directed(), g.endpoints(e), node) ==> r@.contains(
                #[trigger] g.endpoints(e).1,
            ),
        forall|j: int| 0 <= j < r@.len() ==> successor_of(g, node, #[trigger] r@[j]),
        exists|es: Seq<usize>|
            {
                &&& es.no_duplicates()
                &&& forall|e: usize| #[trigger]
                    es.contains(e) <==> g.edge_seq().contains(e) && leaves(
                        g.directed(),
                        g.endpoints(e),
                        node,
                    )
                &&& r@ == es.map_values(|e: usize| g.endpoints(e).1)
            },
{
    let edges = g.outgoing_edges(node);
    let mut r: Vec<usize> = Vec::new();
    let mut i: usize = 0;
    while i < edges.len()
        invariant
            g.valid(),
            i <= edges@.len(),
            r@.len() == i,
            forall|e: usize| #[trigger]
                edges@.contains(e) <==> g.edge_seq().contains(e) && leaves(
                    g.directed(),
                    g.endpoints(e),
                    node,
                ),
            forall|j: int| 0 <= j < i ==> #[trigger] r@[j] == g.endpoints(edges@[j]).1,
        decreases edges@.len() - i,
    {
        assert(edges@.contains(edges@[i as int]));
        let (_, target) = g.adjacent_nodes(edges[i]);
        r.push(target);
        i = i + 1;
    }
    proof {
        assert forall|e: usize|
            g.edge_seq().contains(e) && leaves(g.directed(), g.endpoints(e), node) implies r@.contains(
            #[trigger] g.endpoints(e).1,
        ) by {
            assert(edges@.contains(e));
            let k = choose|k: int| 0 <= k < edges@.len() && edges@[k] == e;
            assert(r@[k] == g.endpoints(e).1);
        }
        assert forall|j: int| 0 <= j < r@.len() implies successor_of(g, node, #[trigger] r@[j]) by {
            assert(edges@.contains(edges@[j]));
            assert(g.endpoints(edges@[j]).1 == r@[j]);
        }
        assert(r@ =~= edges@.map_values(|e: usize| g.endpoints(e).1));
    }
    r
}

/// The predecessors of `node`: for each edge that enters it, the edge's
/// source.
pub fn incoming_nodes<NodeWeight, EdgeWeight, G: Graph<NodeWeight, EdgeWeight>>(
    g: &G,
    node: usize,
) -> (r: Vec<usize>)
    requires
        g.valid(),
        g.node_seq().contains(node),
    ensures
        forall|e: usize|
            g.edge_seq().contains(e) && enters(g.directed(), g.endpoints(e), node) ==> r@.contains(
                #[trigger] g.endpoints(e).0,
            ),
        forall|j: int| 0 <= j < r@.len() ==> predecessor_of(g, node, #[trigger] r@[j]),
        exists|es: Seq<usize>|
            {
                &&& es.no_duplicates()
                &&& forall|e: usize| #[trigger]
                    es.contains(e) <==> g.edge_seq().contains(e) && enters(
                        g.directed(),
                        g.endpoints(e),
                        node,
                    )
                &&& r@ == es.map_values(|e: usize| g.endpoints(e).0)
            },
{
    let edges = g.incoming_edges(node);
    let mut r: Vec<usize> = Vec::new();
    let mut i: usize = 0;
    while i < edges.len()
        invariant
            g.valid(),
            i <= edges@.len(),
            r@.len() == i,
            forall|e: usize| #[trigger]
                edges@.contains(e) <==> g.edge_seq().contains(e) && enters(
                    g.directed(),
                    g.endpoints(e),
                    node,
                ),
            forall|j: int| 0 <= j < i ==> #[trigger] r@[j] == g.endpoints(edges@[j]).0,
        decreases edges@.len() - i,
    {
        assert(edges@.contains(edges@[i as int]));
        let (source, _) = g.adjacent_nodes(edges[i]);
        r.push(source);
        i = i + 1;
    }
    proof {
        assert forall|e: usize|
            g.edge_seq().contains(e) && enters(g.directed(), g.endpoints(e), node) implies r@.contains(
            #[trigger] g.endpoints(e).0,
        ) by {
            assert(edges@.contains(e));
            let k = choose|k: int| 0 <= k < edges@.len() && edges@[k] == e;
            assert(r@[k] == g.endpoints(e).0);
        }
        assert forall|j: int| 0 <= j < r@.len() implies predecessor_of(g, node, #[trigger] r@[j]) by {
            assert(edges@.contains(edges@[j]));
            assert(g.endpoints(edges@[j]).0 == r@[j]);
        }
        assert(r@ =~= edges@.map_values(|e: usize| g.endpoints(e).0));
    }
    r
}

/// Pushing a new element keeps a sequence free of duplicates.
pub proof fn lemma_push_no_duplicates<A>(s: Seq<A>, x: A)
    requires
        s.no_duplicates(),
        !s.contains(x),
    ensures
        s.push(x).no_duplicates(),
{
    let t = s.push(x);
    assert forall|a: int, b: int| 0 <= a < t.len() && 0 <= b < t.len() && a != b implies t[a]
        != t[b] by {
        if a < s.len() && b < s.len() {
            assert(t[a] == s[a] && t[b] == s[b]);
        } else if a < s.len() {
            assert(s.contains(t[a]));
        } else if b < s.len() {
            assert(s.contains(t[b]));
        }
    }
}

/// Pushing `x` adds exactly `x` to what a sequence contains.
pub proof fn lemma_push_contains<A>(s: Seq<A>, x: A)
    ensures
        forall|e: A| #[trigger] s.push(x).contains(e) <==> s.contains(e) || e == x,
{
    assert forall|e: A| #[trigger] s.push(x).contains(e) <==> s.contains(e) || e == x by {
        if s.contains(e) {
            let k = choose|k: int| 0 <= k < s.len() && s[k] == e;
            assert(s.push(x)[k] == e);
        }
        if e == x {
            assert(s.push(x)[s.len() as int] == x);
        }
        if s.push(x).contains(e) {
            let k = choose|k: int| 0 <= k < s.len() + 1 && s.push(x)[k] == e;
            if k < s.len() {
                assert(s[k] == e);
            }
        }
    }
}

} // verus!
