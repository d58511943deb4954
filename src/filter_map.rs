use vstd::prelude::*;
use std::marker::PhantomData;
use crate::graph::{Graph, touches, enters, leaves, lemma_push_contains, lemma_push_no_duplicates};

verus! {

/// The keys of an association list.
pub open spec fn keys_of<W>(entries: Seq<(usize, W)>) -> Seq<usize> {
    entries.map_values(|p: (usize, W)| p.0)
}

/// The value stored under `key` in an association list with unique keys.
pub open spec fn value_at<W>(entries: Seq<(usize, W)>, key: usize) -> W {
    entries[key_position(entries, key)].1
}

/// A position at which `key` is stored in an association list.
pub open spec fn key_position<W>(entries: Seq<(usize, W)>, key: usize) -> int {
    choose|i: int| 0 <= i < entries.len() && entries[i].0 == key
}

/// Finds the position of `key` among the keys of an association list.
fn find_key<W>(entries: &Vec<(usize, W)>, key: usize) -> (r: Option<usize>)
    ensures
        match r {
            Some(i) => i < entries@.len() && entries@[i as int].0 == key,
            None => !keys_of(entries@).contains(key),
        },
{
    let mut i: usize = 0;
    while i < entries.len()
        invariant
            i <= entries@.len(),
            forall|j: int| 0 <= j < i ==> entries@[j].0 != key,
        decreases entries@.len() - i,
    {
        if entries[i].0 == key {
            return Some(i);
        }
        i = i + 1;
    }
    proof {
        if keys_of(entries@).contains(key) {
            let j = choose|j: int| 0 <= j < entries@.len() && keys_of(entries@)[j] == key;
            assert(entries@[j].0 == key);
        }
    }
    None
}

/// In an association list with unique keys, the entry found at a position
/// is the one that `value_at` names.
pub proof fn lemma_value_at<W>(entries: Seq<(usize, W)>, pos: int)
    requires
        keys_of(entries).no_duplicates(),
        0 <= pos < entries.len(),
    ensures
        value_at(entries, entries[pos].0) == entries[pos].1,
        keys_of(entries).contains(entries[pos].0),
{
    let key = entries[pos].0;
    assert(0 <= pos < entries.len() && entries[pos].0 == key);
    let i = key_position(entries, key);
    assert(keys_of(entries)[pos] == key);
    assert(keys_of(entries)[i] == key);
    assert(i == pos);
}

/// Appending an entry under a fresh key keeps the keys unique.
pub proof fn lemma_push_fresh_key<W>(entries: Seq<(usize, W)>, key: usize, value: W)
    requires
        keys_of(entries).no_duplicates(),
        !keys_of(entries).contains(key),
    ensures
        keys_of(entries.push((key, value))) == keys_of(entries).push(key),
        keys_of(entries.push((key, value))).no_duplicates(),
{
    let after = entries.push((key, value));
    assert(keys_of(after) =~= keys_of(entries).push(key));
    assert forall|a: int, b: int|
        0 <= a < keys_of(after).len() && 0 <= b < keys_of(after).len() && a != b implies keys_of(
        after,
    )[a] != keys_of(after)[b] by {
        if a < entries.len() && b < entries.len() {
            assert(keys_of(entries)[a] == keys_of(after)[a]);
            assert(keys_of(entries)[b] == keys_of(after)[b]);
        } else if a < entries.len() {
            assert(keys_of(entries).contains(keys_of(after)[a]));
        } else if b < entries.len() {
            assert(keys_of(entries).contains(keys_of(after)[b]));
        }
    }
}

/// A graph derived from a base graph: a subset of its nodes and edges, each
/// with a new weight.
///
/// The view borrows the base graph and uses its references. Membership of a
/// node or edge is presence of its reference among the keys of `node_map`
/// or `edge_map`; the weight is the value stored there.
pub struct FilterMap<'g, BaseNodeWeight, BaseEdgeWeight, NodeWeight, EdgeWeight, G> where
    G: Graph<BaseNodeWeight, BaseEdgeWeight>,
 {
    base_graph: &'g G,
    node_map: Vec<(usize, NodeWeight)>,
    edge_map: Vec<(usize, EdgeWeight)>,
    weights: PhantomData<(BaseNodeWeight, BaseEdgeWeight)>,
}

impl<'g, BaseNodeWeight: 'g, BaseEdgeWeight: 'g, NodeWeight, EdgeWeight, G> FilterMap<
    'g,
    BaseNodeWeight,
    BaseEdgeWeight,
    NodeWeight,
    EdgeWeight,
    G,
> where G: Graph<BaseNodeWeight, BaseEdgeWeight> {
    /// The base graph that the view derives from.
    pub closed spec fn base(&self) -> &'g G {
        self.base_graph
    }

    /// The node map: (reference, weight) pairs.
    pub closed spec fn node_entries(&self) -> Seq<(usize, NodeWeight)> {
        self.node_map@
    }

    /// The edge map: (reference, weight) pairs.
    pub closed spec fn edge_entries(&self) -> Seq<(usize, EdgeWeight)> {
        self.edge_map@
    }

    /// The conditions under which a node map and an edge map form a view of
    /// `base`: each key is a reference of `base` and occurs once, and both
    /// endpoints of each kept edge are kept nodes.
    pub open spec fn maps_fit(
        base: &G,
        nodes: Seq<(usize, NodeWeight)>,
        edges: Seq<(usize, EdgeWeight)>,
    ) -> bool {
        &&& base.valid()
        &&& keys_of(nodes).no_duplicates()
        &&& keys_of(edges).no_duplicates()
        &&& forall|n: usize| #[trigger]
            keys_of(nodes).contains(n) ==> base.node_seq().contains(n)
        &&& forall|e: usize| #[trigger]
            keys_of(edges).contains(e) ==> base.edge_seq().contains(e) && keys_of(nodes).contains(
                base.endpoints(e).0,
            ) && keys_of(nodes).contains(base.endpoints(e).1)
    }

    /// Creates a view from an explicit node map and edge map.
    ///
    /// Every edge of `edge_map` must have both endpoints in `node_map`.
    pub fn new(
        base_graph: &'g G,
        node_map: Vec<(usize, NodeWeight)>,
        edge_map: Vec<(usize, EdgeWeight)>,
    ) -> (r: Self)
        requires
            Self::maps_fit(base_graph, node_map@, edge_map@),
        ensures
            r.valid(),
            r.base() == base_graph,
            r.node_entries() == node_map@,
            r.edge_entries() == edge_map@,
    {
        FilterMap { base_graph, node_map, edge_map, weights: PhantomData }
    }

    /// `node_fn` produced the node map of `self`: each kept node carries the
    /// weight that `node_fn` returned for it, and `node_fn` returned `None`
    /// for each node of the base graph that was dropped.
    pub open spec fn nodes_chosen_by<NodeFn>(&self, node_fn: NodeFn) -> bool where
        NodeFn: Fn(&'g G, usize) -> Option<NodeWeight>,
     {
        &&& forall|p: int|
            0 <= p < self.node_entries().len() ==> node_fn.ensures(
                (self.base(), #[trigger] self.node_entries()[p].0),
                Some(self.node_entries()[p].1),
            )
        &&& forall|n: usize|
            #![trigger self.base().node_seq().contains(n)]
            self.base().node_seq().contains(n) && !self.node_seq().contains(n) ==> node_fn.ensures(
                (self.base(), n),
                None,
            )
    }

    /// `edge_fn` produced the edge map of `self`: each kept edge carries the
    /// weight that `edge_fn` returned for it, and `edge_fn` returned `None` for
    /// each dropped edge of the base graph whose endpoints were both kept.
    pub open spec fn edges_chosen_by<EdgeFn>(&self, edge_fn: EdgeFn) -> bool where
        EdgeFn: Fn(&'g G, usize) -> Option<EdgeWeight>,
     {
        &&& forall|p: int|
            0 <= p < self.edge_entries().len() ==> edge_fn.ensures(
                (self.base(), #[trigger] self.edge_entries()[p].0),
                Some(self.edge_entries()[p].1),
            )
        &&& forall|e: usize|
            #![trigger self.base().edge_seq().contains(e)]
            self.base().edge_seq().contains(e) && !self.edge_seq().contains(e)
                && self.node_seq().contains(self.base().endpoints(e).0) && self.node_seq().contains(
                self.base().endpoints(e).1,
            ) ==> edge_fn.ensures((self.base(), e), None)
    }

    /// Creates a view of `base_graph` that keeps each node for which
    /// `node_fn` returns a weight, with that weight; then each edge between
    /// two kept nodes for which `edge_fn` returns a weight, with that weight.
    pub fn general_filter_map<NodeFn, EdgeFn>(
        base_graph: &'g G,
        node_fn: NodeFn,
        edge_fn: EdgeFn,
    ) -> (r: Self) where
        NodeFn: Fn(&'g G, usize) -> Option<NodeWeight>,
        EdgeFn: Fn(&'g G, usize) -> Option<EdgeWeight>,

        requires
            base_graph.valid(),
            forall|n: usize| #[trigger]
                base_graph.node_seq().contains(n) ==> node_fn.requires((base_graph, n)),
            forall|e: usize| #[trigger]
                base_graph.edge_seq().contains(e) ==> edge_fn.requires((base_graph, e)),
        ensures
            r.valid(),
            r.base() == base_graph,
            r.nodes_chosen_by(node_fn),
            r.edges_chosen_by(edge_fn),
    {
        proof {
            base_graph.lemma_valid_structure();
        }
        let nodes = base_graph.nodes();
        let mut node_map: Vec<(usize, NodeWeight)> = Vec::new();
        let mut i: usize = 0;
        while i < nodes.len()
            invariant
                base_graph.valid(),
                nodes@ == base_graph.node_seq(),
                nodes@.no_duplicates(),
                forall|n: usize| #[trigger]
                    base_graph.node_seq().contains(n) ==> node_fn.requires((base_graph, n)),
                i <= nodes@.len(),
                keys_of(node_map@).no_duplicates(),
                forall|n: usize| #[trigger]
                    keys_of(node_map@).contains(n) ==> nodes@.take(i as int).contains(n),
                forall|p: int|
                    0 <= p < node_map@.len() ==> node_fn.ensures(
                        (base_graph, #[trigger] node_map@[p].0),
                        Some(node_map@[p].1),
                    ),
                forall|n: usize|
                    #![trigger nodes@.take(i as int).contains(n)]
                    nodes@.take(i as int).contains(n) && !keys_of(node_map@).contains(n)
                        ==> node_fn.ensures((base_graph, n), None),
            decreases nodes@.len() - i,
        {
            let n = nodes[i];
            proof {
                assert(nodes@.take(i + 1) =~= nodes@.take(i as int).push(n));
                lemma_push_contains(nodes@.take(i as int), n);
                assert(base_graph.node_seq().contains(n)) by {
                    assert(nodes@[i as int] == n);
                }
                if nodes@.take(i as int).contains(n) {
                    let j = choose|j: int| 0 <= j < i && nodes@.take(i as int)[j] == n;
                    assert(nodes@[j] == nodes@[i as int]);
                }
            }
            let ghost before = node_map@;
            match node_fn(base_graph, n) {
                Some(w) => {
                    node_map.push((n, w));
                    proof {
                        assert(keys_of(node_map@) =~= keys_of(before).push(n));
                        lemma_push_contains(keys_of(before), n);
                        assert forall|a: int, b: int|
                            0 <= a < keys_of(node_map@).len() && 0 <= b < keys_of(
                                node_map@,
                            ).len() && a != b implies keys_of(node_map@)[a] != keys_of(
                            node_map@,
                        )[b] by {
                            if a < before.len() && b < before.len() {
                                assert(keys_of(before)[a] == keys_of(node_map@)[a]);
                                assert(keys_of(before)[b] == keys_of(node_map@)[b]);
                            } else if a < before.len() {
                                assert(keys_of(before).contains(keys_of(node_map@)[a]));
                            } else if b < before.len() {
                                assert(keys_of(before).contains(keys_of(node_map@)[b]));
                            }
                        }
                        assert forall|p: int|
                            0 <= p < node_map@.len() implies node_fn.ensures(
                            (base_graph, #[trigger] node_map@[p].0),
                            Some(node_map@[p].1),
                        ) by {
                            if p < before.len() {
                                assert(node_map@[p] == before[p]);
                            }
                        }
                    }
                },
                None => {},
            }
            i = i + 1;
        }
        assert(nodes@.take(i as int) =~= nodes@);
        let edges = base_graph.edges();
        let mut edge_map: Vec<(usize, EdgeWeight)> = Vec::new();
        let mut i: usize = 0;
        while i < edges.len()
            invariant
                base_graph.valid(),
                edges@ == base_graph.edge_seq(),
                edges@.no_duplicates(),
                forall|e: usize| #[trigger]
                    base_graph.edge_seq().contains(e) ==> edge_fn.requires((base_graph, e)),
                forall|e: usize| #[trigger]
                    base_graph.edge_seq().contains(e) ==> base_graph.node_seq().contains(
                        base_graph.endpoints(e).0,
                    ) && base_graph.node_seq().contains(base_graph.endpoints(e).1),
                i <= edges@.len(),
                keys_of(edge_map@).no_duplicates(),
                forall|e: usize| #[trigger]
                    keys_of(edge_map@).contains(e) ==> edges@.take(i as int).contains(e)
                        && keys_of(node_map@).contains(base_graph.endpoints(e).0) && keys_of(
                        node_map@,
                    ).contains(base_graph.endpoints(e).1),
                forall|p: int|
                    0 <= p < edge_map@.len() ==> edge_fn.ensures(
                        (base_graph, #[trigger] edge_map@[p].0),
                        Some(edge_map@[p].1),
                    ),
                forall|e: usize|
                    #![trigger edges@.take(i as int).contains(e)]
                    edges@.take(i as int).contains(e) && !keys_of(edge_map@).contains(e)
                        && keys_of(node_map@).contains(base_graph.endpoints(e).0) && keys_of(
                        node_map@,
                    ).contains(base_graph.endpoints(e).1) ==> edge_fn.ensures(
                        (base_graph, e),
                        None,
                    ),
            decreases edges@.len() - i,
        {
            let e = edges[i];
            proof {
                assert(edges@.take(i + 1) =~= edges@.take(i as int).push(e));
                lemma_push_contains(edges@.take(i as int), e);
                assert(base_graph.edge_seq().contains(e)) by {
                    assert(edges@[i as int] == e);
                }
                if edges@.take(i as int).contains(e) {
                    let j = choose|j: int| 0 <= j < i && edges@.take(i as int)[j] == e;
                    assert(edges@[j] == edges@[i as int]);
                }
            }
            let (a, b) = base_graph.adjacent_nodes(e);
            let keep_a = find_key(&node_map, a);
            let keep_b = find_key(&node_map, b);
            if keep_a.is_some() && keep_b.is_some() {
                proof {
                    assert(keys_of(node_map@)[keep_a.unwrap() as int] == a);
                    assert(keys_of(node_map@)[keep_b.unwrap() as int] == b);
                }
                let ghost before = edge_map@;
                match edge_fn(base_graph, e) {
                    Some(w) => {
                        edge_map.push((e, w));
                        proof {
                            assert(keys_of(edge_map@) =~= keys_of(before).push(e));
                            lemma_push_contains(keys_of(before), e);
                            assert forall|x: int, y: int|
                                0 <= x < keys_of(edge_map@).len() && 0 <= y < keys_of(
                                    edge_map@,
                                ).len() && x != y implies keys_of(edge_map@)[x] != keys_of(
                                edge_map@,
                            )[y] by {
                                if x < before.len() && y < before.len() {
                                    assert(keys_of(before)[x] == keys_of(edge_map@)[x]);
                                    assert(keys_of(before)[y] == keys_of(edge_map@)[y]);
                                } else if x < before.len() {
                                    assert(keys_of(before).contains(keys_of(edge_map@)[x]));
                                } else if y < before.len() {
                                    assert(keys_of(before).contains(keys_of(edge_map@)[y]));
                                }
                            }
                            assert forall|p: int|
                                0 <= p < edge_map@.len() implies edge_fn.ensures(
                                (base_graph, #[trigger] edge_map@[p].0),
                                Some(edge_map@[p].1),
                            ) by {
                                if p < before.len() {
                                    assert(edge_map@[p] == before[p]);
                                }
                            }
                        }
                    },
                    None => {},
                }
            }
            i = i + 1;
        }
        assert(edges@.take(i as int) =~= edges@);
        FilterMap { base_graph, node_map, edge_map, weights: PhantomData }
    }

    /// `node_fn`, applied to the weights of the base graph, produced the node
    /// map of `self` (as in `nodes_chosen_by`).
    pub open spec fn nodes_weighted_by<NodeFn>(&self, node_fn: NodeFn) -> bool where
        NodeFn: Fn(&'g BaseNodeWeight) -> Option<NodeWeight>,
     {
        &&& forall|p: int|
            0 <= p < self.node_entries().len() ==> node_fn.ensures(
                (&self.base().node_weight_of(#[trigger] self.node_entries()[p].0),),
                Some(self.node_entries()[p].1),
            )
        &&& forall|n: usize|
            #![trigger self.base().node_seq().contains(n)]
            self.base().node_seq().contains(n) && !self.node_seq().contains(n) ==> node_fn.ensures(
                (&self.base().node_weight_of(n),),
                None,
            )
    }

    /// `edge_fn`, applied to the weights of the base graph, produced the edge
    /// map of `self` (as in `edges_chosen_by`).
    pub open spec fn edges_weighted_by<EdgeFn>(&self, edge_fn: EdgeFn) -> bool where
        EdgeFn: Fn(&'g BaseEdgeWeight) -> Option<EdgeWeight>,
     {
        &&& forall|p: int|
            0 <= p < self.edge_entries().len() ==> edge_fn.ensures(
                (&self.base().edge_weight_of(#[trigger] self.edge_entries()[p].0),),
                Some(self.edge_entries()[p].1),
            )
        &&& forall|e: usize|
            #![trigger self.base().edge_seq().contains(e)]
            self.base().edge_seq().contains(e) && !self.edge_seq().contains(e)
                && self.node_seq().contains(self.base().endpoints(e).0) && self.node_seq().contains(
                self.base().endpoints(e).1,
            ) ==> edge_fn.ensures((&self.base().edge_weight_of(e),), None)
    }

    /// Creates a view like `general_filter_map`, where the callbacks see only
    /// the weight of each node and edge.
    pub fn weight_filter_map<NodeFn, EdgeFn>(
        base_graph: &'g G,
        node_fn: NodeFn,
        edge_fn: EdgeFn,
    ) -> (r: Self) where
        NodeFn: Fn(&'g BaseNodeWeight) -> Option<NodeWeight>,
        EdgeFn: Fn(&'g BaseEdgeWeight) -> Option<EdgeWeight>,
        BaseNodeWeight: 'g,
        BaseEdgeWeight: 'g,

        requires
            base_graph.valid(),
            forall|w: &'g BaseNodeWeight| #[trigger] node_fn.requires((w,)),
            forall|w: &'g BaseEdgeWeight| #[trigger] edge_fn.requires((w,)),
        ensures
            r.valid(),
            r.base() == base_graph,
            r.nodes_weighted_by(node_fn),
            r.edges_weighted_by(edge_fn),
    {
        let node_ref = &node_fn;
        let edge_ref = &edge_fn;
        let by_node = |_g: &'g G, n: usize| -> (w: Option<NodeWeight>)
            requires
                base_graph.valid(),
                base_graph.node_seq().contains(n),
            ensures
                node_ref.ensures((&base_graph.node_weight_of(n),), w),
            { node_ref(base_graph.node_weight(n)) };
        let by_edge = |_g: &'g G, e: usize| -> (w: Option<EdgeWeight>)
            requires
                base_graph.valid(),
                base_graph.edge_seq().contains(e),
            ensures
                edge_ref.ensures((&base_graph.edge_weight_of(e),), w),
            { edge_ref(base_graph.edge_weight(e)) };
        Self::general_filter_map(base_graph, by_node, by_edge)
    }

    /// `node_fn` mapped every node of the base graph: all are kept, each
    /// with the weight that `node_fn` returned for its base weight.
    pub open spec fn nodes_mapped_by<NodeFn>(&self, node_fn: NodeFn) -> bool where
        NodeFn: Fn(&'g BaseNodeWeight) -> NodeWeight,
     {
        &&& forall|p: int|
            0 <= p < self.node_entries().len() ==> node_fn.ensures(
                (&self.base().node_weight_of(#[trigger] self.node_entries()[p].0),),
                self.node_entries()[p].1,
            )
        &&& forall|n: usize| #[trigger]
            self.base().node_seq().contains(n) ==> self.node_seq().contains(n)
    }

    /// `edge_fn` mapped every edge of the base graph: all are kept, each
    /// with the weight that `edge_fn` returned for its base weight.
    pub open spec fn edges_mapped_by<EdgeFn>(&self, edge_fn: EdgeFn) -> bool where
        EdgeFn: Fn(&'g BaseEdgeWeight) -> EdgeWeight,
     {
        &&& forall|p: int|
            0 <= p < self.edge_entries().len() ==> edge_fn.ensures(
                (&self.base().edge_weight_of(#[trigger] self.edge_entries()[p].0),),
                self.edge_entries()[p].1,
            )
        &&& forall|e: usize| #[trigger]
            self.base().edge_seq().contains(e) ==> self.edge_seq().contains(e)
    }

    /// Creates a view that keeps every node and edge of the base graph and
    /// maps each weight through the respective callback.
    pub fn weight_map<NodeFn, EdgeFn>(base_graph: &'g G, node_fn: NodeFn, edge_fn: EdgeFn) -> (r:
        Self) where
        NodeFn: Fn(&'g BaseNodeWeight) -> NodeWeight,
        EdgeFn: Fn(&'g BaseEdgeWeight) -> EdgeWeight,

        requires
            base_graph.valid(),
            forall|w: &'g BaseNodeWeight| #[trigger] node_fn.requires((w,)),
            forall|w: &'g BaseEdgeWeight| #[trigger] edge_fn.requires((w,)),
        ensures
            r.valid(),
            r.base() == base_graph,
            r.nodes_mapped_by(node_fn),
            r.edges_mapped_by(edge_fn),
    {
        let node_ref = &node_fn;
        let edge_ref = &edge_fn;
        let by_node = |_g: &'g G, n: usize| -> (w: Option<NodeWeight>)
            requires
                base_graph.valid(),
                base_graph.node_seq().contains(n),
            ensures
                match w {
                    Some(x) => node_ref.ensures((&base_graph.node_weight_of(n),), x),
                    None => false,
                },
            { Some(node_ref(base_graph.node_weight(n))) };
        let by_edge = |_g: &'g G, e: usize| -> (w: Option<EdgeWeight>)
            requires
                base_graph.valid(),
                base_graph.edge_seq().contains(e),
            ensures
                match w {
                    Some(x) => edge_ref.ensures((&base_graph.edge_weight_of(e),), x),
                    None => false,
                },
            { Some(edge_ref(base_graph.edge_weight(e))) };
        let r = Self::general_filter_map(base_graph, by_node, by_edge);
        proof {
            base_graph.lemma_valid_structure();
        }
        r
    }
}

impl<'g, NodeWeight: 'g, EdgeWeight: 'g, G> FilterMap<
    'g,
    NodeWeight,
    EdgeWeight,
    &'g NodeWeight,
    &'g EdgeWeight,
    G,
> where G: Graph<NodeWeight, EdgeWeight> {
    /// `node_fn` decided which nodes of the base graph are kept; each kept
    /// node refers to its base weight.
    pub open spec fn nodes_kept_by<NodeFn>(&self, node_fn: NodeFn) -> bool where
        NodeFn: Fn(&'g NodeWeight) -> bool,
     {
        &&& forall|p: int|
            0 <= p < self.node_entries().len() ==> node_fn.ensures(
                (&self.base().node_weight_of(#[trigger] self.node_entries()[p].0),),
                true,
            ) && *self.node_entries()[p].1 == self.base().node_weight_of(self.node_entries()[p].0)
        &&& forall|n: usize|
            #![trigger self.base().node_seq().contains(n)]
            self.base().node_seq().contains(n) && !self.node_seq().contains(n) ==> node_fn.ensures(
                (&self.base().node_weight_of(n),),
                false,
            )
    }

    /// `edge_fn` decided which edges between kept nodes are kept; each kept
    /// edge refers to its base weight.
    pub open spec fn edges_kept_by<EdgeFn>(&self, edge_fn: EdgeFn) -> bool where
        EdgeFn: Fn(&'g EdgeWeight) -> bool,
     {
        &&& forall|p: int|
            0 <= p < self.edge_entries().len() ==> edge_fn.ensures(
                (&self.base().edge_weight_of(#[trigger] self.edge_entries()[p].0),),
                true,
            ) && *self.edge_entries()[p].1 == self.base().edge_weight_of(self.edge_entries()[p].0)
        &&& forall|e: usize|
            #![trigger self.base().edge_seq().contains(e)]
            self.base().edge_seq().contains(e) && !self.edge_seq().contains(e)
                && self.node_seq().contains(self.base().endpoints(e).0) && self.node_seq().contains(
                self.base().endpoints(e).1,
            ) ==> edge_fn.ensures((&self.base().edge_weight_of(e),), false)
    }

    /// Creates a view that keeps the nodes and edges whose weights satisfy
    /// the respective predicate; its weights refer to those of the base graph.
    pub fn weight_filter<NodeFn, EdgeFn>(base_graph: &'g G, node_fn: NodeFn, edge_fn: EdgeFn) -> (r:
        Self) where
        NodeFn: Fn(&'g NodeWeight) -> bool,
        EdgeFn: Fn(&'g EdgeWeight) -> bool,

        requires
            base_graph.valid(),
            forall|w: &'g NodeWeight| #[trigger] node_fn.requires((w,)),
            forall|w: &'g EdgeWeight| #[trigger] edge_fn.requires((w,)),
        ensures
            r.valid(),
            r.base() == base_graph,
            r.nodes_kept_by(node_fn),
            r.edges_kept_by(edge_fn),
    {
        let node_ref = &node_fn;
        let edge_ref = &edge_fn;
        let by_node = |_g: &'g G, n: usize| -> (w: Option<&'g NodeWeight>)
            requires
                base_graph.valid(),
                base_graph.node_seq().contains(n),
            ensures
                match w {
                    Some(x) => node_ref.ensures((&base_graph.node_weight_of(n),), true) && *x
                        == base_graph.node_weight_of(n),
                    None => node_ref.ensures((&base_graph.node_weight_of(n),), false),
                },
            {
                let weight = base_graph.node_weight(n);
                if node_ref(weight) {
                    Some(weight)
                } else {
                    None
                }
            };
        let by_edge = |_g: &'g G, e: usize| -> (w: Option<&'g EdgeWeight>)
            requires
                base_graph.valid(),
                base_graph.edge_seq().contains(e),
            ensures
                match w {
                    Some(x) => edge_ref.ensures((&base_graph.edge_weight_of(e),), true) && *x
                        == base_graph.edge_weight_of(e),
                    None => edge_ref.ensures((&base_graph.edge_weight_of(e),), false),
                },
            {
                let weight = base_graph.edge_weight(e);
                if edge_ref(weight) {
                    Some(weight)
                } else {
                    None
                }
            };
        let r = Self::general_filter_map(base_graph, by_node, by_edge);
        proof {
            base_graph.lemma_valid_structure();
        }
        r
    }
}

/// Collects the references of `candidates` that are keys of `entries`, in order.
fn retain_keys<W>(candidates: Vec<usize>, entries: &Vec<(usize, W)>) -> (r: Vec<usize>)
    requires
        candidates@.no_duplicates(),
    ensures
        r@.no_duplicates(),
        forall|e: usize| #[trigger]
            r@.contains(e) <==> candidates@.contains(e) && keys_of(entries@).contains(e),
{
    let mut r: Vec<usize> = Vec::new();
    let mut i: usize = 0;
    while i < candidates.len()
        invariant
            i <= candidates@.len(),
            forall|e: usize| #[trigger]
                r@.contains(e) <==> candidates@.take(i as int).contains(e) && keys_of(
                    entries@,
                ).contains(e),
            candidates@.no_duplicates(),
            r@.no_duplicates(),
        decreases candidates@.len() - i,
    {
        let e = candidates[i];
        proof {
            assert(candidates@.take(i + 1) =~= candidates@.take(i as int).push(e));
            lemma_push_contains(candidates@.take(i as int), e);
            lemma_push_contains(r@, e);
            if candidates@.take(i as int).contains(e) {
                let j = choose|j: int| 0 <= j < i && candidates@.take(i as int)[j] == e;
                assert(candidates@[j] == candidates@[i as int]);
            }
            if !r@.contains(e) {
                lemma_push_no_duplicates(r@, e);
            }
        }
        match find_key(entries, e) {
            Some(k) => {
                assert(keys_of(entries@)[k as int] == e);
                r.push(e);
            },
            None => {},
        }
        i = i + 1;
    }
    assert(candidates@.take(i as int) =~= candidates@);
    r
}

impl<'g, BaseNodeWeight, BaseEdgeWeight, NodeWeight, EdgeWeight, G> Graph<
    NodeWeight,
    EdgeWeight,
> for FilterMap<'g, BaseNodeWeight, BaseEdgeWeight, NodeWeight, EdgeWeight, G> where
    G: Graph<BaseNodeWeight, BaseEdgeWeight>,
 {
    open spec fn directed(&self) -> bool {
        self.base().directed()
    }

    open spec fn node_seq(&self) -> Seq<usize> {
        keys_of(self.node_entries())
    }

    open spec fn edge_seq(&self) -> Seq<usize> {
        keys_of(self.edge_entries())
    }

    open spec fn endpoints(&self, edge: usize) -> (usize, usize) {
        self.base().endpoints(edge)
    }

    open spec fn node_weight_of(&self, node: usize) -> NodeWeight {
        value_at(self.node_entries(), node)
    }

    open spec fn edge_weight_of(&self, edge: usize) -> EdgeWeight {
        value_at(self.edge_entries(), edge)
    }

    open spec fn valid(&self) -> bool {
        Self::maps_fit(self.base(), self.node_entries(), self.edge_entries())
    }

    proof fn lemma_valid_structure(&self) {
    }

    fn is_directed(&self) -> (r: bool) {
        self.base_graph.is_directed()
    }

    fn is_directed_edge(&self, edge: usize) -> (r: bool) {
        self.base_graph.is_directed_edge(edge)
    }

    fn adjacent_edges(&self, node: usize) -> (r: Vec<usize>) {
        let candidates = self.base_graph.adjacent_edges(node);
        retain_keys(candidates, &self.edge_map)
    }

    fn incoming_edges(&self, node: usize) -> (r: Vec<usize>) {
        let candidates = self.base_graph.incoming_edges(node);
        retain_keys(candidates, &self.edge_map)
    }

    fn outgoing_edges(&self, node: usize) -> (r: Vec<usize>) {
        let candidates = self.base_graph.outgoing_edges(node);
        retain_keys(candidates, &self.edge_map)
    }

    fn adjacent_nodes(&self, edge: usize) -> (r: (usize, usize)) {
        self.base_graph.adjacent_nodes(edge)
    }

    fn node_weight(&self, node: usize) -> (r: &NodeWeight) {
        match find_key(&self.node_map, node) {
            Some(i) => {
                proof {
                    lemma_value_at(self.node_map@, i as int);
                }
                &self.node_map[i].1
            },
            None => {
                proof {
                    assert(false);
                }
                &self.node_map[0].1
            },
        }
    }

    fn edge_weight(&self, edge: usize) -> (r: &EdgeWeight) {
        match find_key(&self.edge_map, edge) {
            Some(i) => {
                proof {
                    lemma_value_at(self.edge_map@, i as int);
                }
                &self.edge_map[i].1
            },
            None => {
                proof {
                    assert(false);
                }
                &self.edge_map[0].1
            },
        }
    }

    fn node_weights(&self) -> (r: Vec<&NodeWeight>) {
        let mut r: Vec<&NodeWeight> = Vec::new();
        let mut i: usize = 0;
        while i < self.node_map.len()
            invariant
                self.valid(),
                i <= self.node_map@.len(),
                r@.len() == i,
                forall|j: int|
                    0 <= j < i ==> *#[trigger] r@[j] == value_at(
                        self.node_map@,
                        self.node_map@[j].0,
                    ),
            decreases self.node_map@.len() - i,
        {
            proof {
                lemma_value_at(self.node_map@, i as int);
            }
            r.push(&self.node_map[i].1);
            i = i + 1;
        }
        r
    }

    fn edge_weights(&self) -> (r: Vec<&EdgeWeight>) {
        let mut r: Vec<&EdgeWeight> = Vec::new();
        let mut i: usize = 0;
        while i < self.edge_map.len()
            invariant
                self.valid(),
                i <= self.edge_map@.len(),
                r@.len() == i,
                forall|j: int|
                    0 <= j < i ==> *#[trigger] r@[j] == value_at(
                        self.edge_map@,
                        self.edge_map@[j].0,
                    ),
            decreases self.edge_map@.len() - i,
        {
            proof {
                lemma_value_at(self.edge_map@, i as int);
            }
            r.push(&self.edge_map[i].1);
            i = i + 1;
        }
        r
    }

    fn nodes(&self) -> (r: Vec<usize>) {
        let mut r: Vec<usize> = Vec::new();
        let mut i: usize = 0;
        while i < self.node_map.len()
            invariant
                i <= self.node_map@.len(),
                r@ == keys_of(self.node_map@.take(i as int)),
            decreases self.node_map@.len() - i,
        {
            proof {
                assert(keys_of(self.node_map@.take(i + 1)) =~= keys_of(
                    self.node_map@.take(i as int),
                ).push(self.node_map@[i as int].0));
            }
            r.push(self.node_map[i].0);
            i = i + 1;
        }
        assert(self.node_map@.take(i as int) =~= self.node_map@);
        r
    }

    fn edges(&self) -> (r: Vec<usize>) {
        let mut r: Vec<usize> = Vec::new();
        let mut i: usize = 0;
        while i < self.edge_map.len()
            invariant
                i <= self.edge_map@.len(),
                r@ == keys_of(self.edge_map@.take(i as int)),
            decreases self.edge_map@.len() - i,
        {
            proof {
                assert(keys_of(self.edge_map@.take(i + 1)) =~= keys_of(
                    self.edge_map@.take(i as int),
                ).push(self.edge_map@[i as int].0));
            }
            r.push(self.edge_map[i].0);
            i = i + 1;
        }
        assert(self.edge_map@.take(i as int) =~= self.edge_map@);
        r
    }

    fn count_nodes(&self) -> (r: usize) {
        self.node_map.len()
    }

    fn count_edges(&self) -> (r: usize) {
        self.edge_map.len()
    }
}

/// Two sequences without duplicates that hold the same elements have the
/// same length.
proof fn lemma_same_elements_same_len(a: Seq<usize>, b: Seq<usize>)
    requires
        a.no_duplicates(),
        b.no_duplicates(),
        forall|x: usize| a.contains(x) <==> b.contains(x),
    ensures
        a.len() == b.len(),
{
    a.unique_seq_to_set();
    b.unique_seq_to_set();
    assert(a.to_set() =~= b.to_set());
}

/// Every view is consistent with its maps and its base graph: it counts
/// exactly the entries of its node map and edge map, both endpoints of each
/// of its edges are among its nodes, and its edges join the nodes they join
/// in the base graph.
pub proof fn lemma_view_consistency<'g, BaseNodeWeight, BaseEdgeWeight, NodeWeight, EdgeWeight, G>(
    f: &FilterMap<'g, BaseNodeWeight, BaseEdgeWeight, NodeWeight, EdgeWeight, G>,
) where G: Graph<BaseNodeWeight, BaseEdgeWeight>
    requires
        f.valid(),
    ensures
        f.node_seq().len() == f.node_entries().len(),
        f.edge_seq().len() == f.edge_entries().len(),
        forall|e: usize| #[trigger]
            f.edge_seq().contains(e) ==> f.node_seq().contains(f.endpoints(e).0)
                && f.node_seq().contains(f.endpoints(e).1),
        forall|e: usize| #[trigger]
            f.edge_seq().contains(e) ==> f.base().edge_seq().contains(e) && f.endpoints(e)
                == f.base().endpoints(e),
{
}

/// `f` shows the same graph as `g`: the same direction, the same node and
/// edge references, hence the same counts and adjacency, the same endpoints,
/// and weights that refer to the same values.
pub open spec fn mirrors<'g, NodeWeight, EdgeWeight, G>(
    f: &FilterMap<'g, NodeWeight, EdgeWeight, &'g NodeWeight, &'g EdgeWeight, G>,
    g: &G,
) -> bool where G: Graph<NodeWeight, EdgeWeight> {
    &&& f.directed() == g.directed()
    &&& f.node_seq().len() == g.node_seq().len()
    &&& f.edge_seq().len() == g.edge_seq().len()
    &&& forall|n: usize| #[trigger] f.node_seq().contains(n) <==> g.node_seq().contains(n)
    &&& forall|e: usize| #[trigger] f.edge_seq().contains(e) <==> g.edge_seq().contains(e)
    &&& forall|e: usize| #[trigger] f.edge_seq().contains(e) ==> f.endpoints(e) == g.endpoints(e)
    &&& forall|n: usize| #[trigger]
        f.node_seq().contains(n) ==> *f.node_weight_of(n) == g.node_weight_of(n)
    &&& forall|e: usize| #[trigger]
        f.edge_seq().contains(e) ==> *f.edge_weight_of(e) == g.edge_weight_of(e)
}

/// Mapping every weight of `g` through the identity gives a view that
/// mirrors `g`.
pub proof fn lemma_identity_map_mirrors<'g, NodeWeight, EdgeWeight, G, NodeFn, EdgeFn>(
    g: &'g G,
    f: &FilterMap<'g, NodeWeight, EdgeWeight, &'g NodeWeight, &'g EdgeWeight, G>,
    node_fn: NodeFn,
    edge_fn: EdgeFn,
) where
    G: Graph<NodeWeight, EdgeWeight>,
    NodeFn: Fn(&'g NodeWeight) -> &'g NodeWeight,
    EdgeFn: Fn(&'g EdgeWeight) -> &'g EdgeWeight,

    requires
        f.valid(),
        f.base() == g,
        f.nodes_mapped_by(node_fn),
        f.edges_mapped_by(edge_fn),
        forall|w: &'g NodeWeight, r: &'g NodeWeight| node_fn.ensures((w,), r) ==> r == w,
        forall|w: &'g EdgeWeight, r: &'g EdgeWeight| edge_fn.ensures((w,), r) ==> r == w,
    ensures
        mirrors(f, g),
{
    g.lemma_valid_structure();
    lemma_same_elements_same_len(f.node_seq(), g.node_seq());
    lemma_same_elements_same_len(f.edge_seq(), g.edge_seq());
    assert forall|n: usize| #[trigger]
        f.node_seq().contains(n) implies *f.node_weight_of(n) == g.node_weight_of(n) by {
        let q = choose|q: int| 0 <= q < f.node_seq().len() && f.node_seq()[q] == n;
        lemma_value_at(f.node_entries(), q);
        assert(f.node_entries()[q].0 == n);
    }
    assert forall|e: usize| #[trigger]
        f.edge_seq().contains(e) implies *f.edge_weight_of(e) == g.edge_weight_of(e) by {
        let q = choose|q: int| 0 <= q < f.edge_seq().len() && f.edge_seq()[q] == e;
        lemma_value_at(f.edge_entries(), q);
        assert(f.edge_entries()[q].0 == e);
    }
}

/// Filtering `g` with predicates that accept every weight gives a view that
/// mirrors `g`.
pub proof fn lemma_accept_all_filter_mirrors<'g, NodeWeight, EdgeWeight, G, NodeFn, EdgeFn>(
    g: &'g G,
    f: &FilterMap<'g, NodeWeight, EdgeWeight, &'g NodeWeight, &'g EdgeWeight, G>,
    node_fn: NodeFn,
    edge_fn: EdgeFn,
) where
    G: Graph<NodeWeight, EdgeWeight>,
    NodeFn: Fn(&'g NodeWeight) -> bool,
    EdgeFn: Fn(&'g EdgeWeight) -> bool,

    requires
        f.valid(),
        f.base() == g,
        f.nodes_kept_by(node_fn),
        f.edges_kept_by(edge_fn),
        forall|w: &'g NodeWeight, r: bool| node_fn.ensures((w,), r) ==> r,
        forall|w: &'g EdgeWeight, r: bool| edge_fn.ensures((w,), r) ==> r,
    ensures
        mirrors(f, g),
{
    g.lemma_valid_structure();
    assert forall|n: usize| #[trigger] g.node_seq().contains(n) implies f.node_seq().contains(n) by {
        if !f.node_seq().contains(n) {
            assert(node_fn.ensures((&g.node_weight_of(n),), false));
        }
    }
    assert forall|e: usize| #[trigger] g.edge_seq().contains(e) implies f.edge_seq().contains(e) by {
        assert(f.node_seq().contains(g.endpoints(e).0));
        assert(f.node_seq().contains(g.endpoints(e).1));
        if !f.edge_seq().contains(e) {
            assert(edge_fn.ensures((&g.edge_weight_of(e),), false));
        }
    }
    lemma_same_elements_same_len(f.node_seq(), g.node_seq());
    lemma_same_elements_same_len(f.edge_seq(), g.edge_seq());
    assert forall|n: usize| #[trigger]
        f.node_seq().contains(n) implies *f.node_weight_of(n) == g.node_weight_of(n) by {
        let q = choose|q: int| 0 <= q < f.node_seq().len() && f.node_seq()[q] == n;
        lemma_value_at(f.node_entries(), q);
        assert(f.node_entries()[q].0 == n);
    }
    assert forall|e: usize| #[trigger]
        f.edge_seq().contains(e) implies *f.edge_weight_of(e) == g.edge_weight_of(e) by {
        let q = choose|q: int| 0 <= q < f.edge_seq().len() && f.edge_seq()[q] == e;
        lemma_value_at(f.edge_entries(), q);
        assert(f.edge_entries()[q].0 == e);
    }
}

/// Filter-mapping a filter-map of `g` equals filter-mapping `g` once with
/// the composed callbacks: a node of `g` is in the outer view exactly when
/// the inner callback keeps it with some weight and the outer callback keeps
/// that weight, and then it carries the outer callback's result; the same
/// holds for each edge whose endpoints the outer view keeps.
pub proof fn lemma_composed_filter_map<
    'g,
    'h,
    NodeWeight: 'g,
    EdgeWeight: 'g,
    MidNodeWeight: 'h,
    MidEdgeWeight: 'h,
    OutNodeWeight,
    OutEdgeWeight,
    G,
    NodeFn1,
    EdgeFn1,
    NodeFn2,
    EdgeFn2,
>(
    g: &'g G,
    inner: &'h FilterMap<'g, NodeWeight, EdgeWeight, MidNodeWeight, MidEdgeWeight, G>,
    outer: &FilterMap<
        'h,
        MidNodeWeight,
        MidEdgeWeight,
        OutNodeWeight,
        OutEdgeWeight,
        FilterMap<'g, NodeWeight, EdgeWeight, MidNodeWeight, MidEdgeWeight, G>,
    >,
    node_fn1: NodeFn1,
    edge_fn1: EdgeFn1,
    node_fn2: NodeFn2,
    edge_fn2: EdgeFn2,
) where
    G: Graph<NodeWeight, EdgeWeight>,
    NodeFn1: Fn(&'g NodeWeight) -> Option<MidNodeWeight>,
    EdgeFn1: Fn(&'g EdgeWeight) -> Option<MidEdgeWeight>,
    NodeFn2: Fn(&'h MidNodeWeight) -> Option<OutNodeWeight>,
    EdgeFn2: Fn(&'h MidEdgeWeight) -> Option<OutEdgeWeight>,

    requires
        inner.valid(),
        inner.base() == g,
        inner.nodes_weighted_by(node_fn1),
        inner.edges_weighted_by(edge_fn1),
        outer.valid(),
        outer.base() == inner,
        outer.nodes_weighted_by(node_fn2),
        outer.edges_weighted_by(edge_fn2),
    ensures
        forall|n: usize| #[trigger]
            outer.node_seq().contains(n) ==> g.node_seq().contains(n) && node_fn1.ensures(
                (&g.node_weight_of(n),),
                Some(inner.node_weight_of(n)),
            ) && node_fn2.ensures((&inner.node_weight_of(n),), Some(outer.node_weight_of(n))),
        forall|n: usize| #[trigger]
            g.node_seq().contains(n) && !outer.node_seq().contains(n) ==> node_fn1.ensures(
                (&g.node_weight_of(n),),
                None,
            ) || node_fn2.ensures((&inner.node_weight_of(n),), None),
        forall|e: usize| #[trigger]
            outer.edge_seq().contains(e) ==> g.edge_seq().contains(e) && edge_fn1.ensures(
                (&g.edge_weight_of(e),),
                Some(inner.edge_weight_of(e)),
            ) && edge_fn2.ensures((&inner.edge_weight_of(e),), Some(outer.edge_weight_of(e))),
        forall|e: usize| #[trigger]
            g.edge_seq().contains(e) && !outer.edge_seq().contains(e) && outer.node_seq().contains(
                g.endpoints(e).0,
            ) && outer.node_seq().contains(g.endpoints(e).1) ==> edge_fn1.ensures(
                (&g.edge_weight_of(e),),
                None,
            ) || edge_fn2.ensures((&inner.edge_weight_of(e),), None),
{
    assert forall|n: usize| #[trigger] outer.node_seq().contains(n) implies g.node_seq().contains(n)
        && node_fn1.ensures((&g.node_weight_of(n),), Some(inner.node_weight_of(n)))
        && node_fn2.ensures((&inner.node_weight_of(n),), Some(outer.node_weight_of(n))) by {
        let q = choose|q: int| 0 <= q < outer.node_seq().len() && outer.node_seq()[q] == n;
        lemma_value_at(outer.node_entries(), q);
        assert(outer.node_entries()[q].0 == n);
        assert(inner.node_seq().contains(n));
        let k = choose|k: int| 0 <= k < inner.node_seq().len() && inner.node_seq()[k] == n;
        lemma_value_at(inner.node_entries(), k);
        assert(inner.node_entries()[k].0 == n);
    }
    assert forall|n: usize| #[trigger]
        g.node_seq().contains(n) && !outer.node_seq().contains(n) implies node_fn1.ensures(
        (&g.node_weight_of(n),),
        None,
    ) || node_fn2.ensures((&inner.node_weight_of(n),), None) by {
        if inner.node_seq().contains(n) {
            assert(inner.base().node_seq().contains(n));
        }
    }
    assert forall|e: usize| #[trigger] outer.edge_seq().contains(e) implies g.edge_seq().contains(e)
        && edge_fn1.ensures((&g.edge_weight_of(e),), Some(inner.edge_weight_of(e)))
        && edge_fn2.ensures((&inner.edge_weight_of(e),), Some(outer.edge_weight_of(e))) by {
        let q = choose|q: int| 0 <= q < outer.edge_seq().len() && outer.edge_seq()[q] == e;
        lemma_value_at(outer.edge_entries(), q);
        assert(outer.edge_entries()[q].0 == e);
        assert(inner.edge_seq().contains(e));
        let k = choose|k: int| 0 <= k < inner.edge_seq().len() && inner.edge_seq()[k] == e;
        lemma_value_at(inner.edge_entries(), k);
        assert(inner.edge_entries()[k].0 == e);
    }
    assert forall|e: usize| #[trigger]
        g.edge_seq().contains(e) && !outer.edge_seq().contains(e) && outer.node_seq().contains(
            g.endpoints(e).0,
        ) && outer.node_seq().contains(g.endpoints(e).1) implies edge_fn1.ensures(
        (&g.edge_weight_of(e),),
        None,
    ) || edge_fn2.ensures((&inner.edge_weight_of(e),), None) by {
        assert(inner.node_seq().contains(g.endpoints(e).0));
        assert(inner.node_seq().contains(g.endpoints(e).1));
        if inner.edge_seq().contains(e) {
            assert(inner.base().edge_seq().contains(e));
        }
    }
}

} // verus!
