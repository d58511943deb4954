use vstd::prelude::*;
use std::cmp::Ordering;
use std::collections::HashMap;
use bimap::BiHashMap;
use crate::bimap_spec::{
    bimap_pairs,
    has_right,
    bimap_new,
    bimap_insert,
    bimap_remove_by_left,
    bimap_contains_left,
    bimap_contains_right,
    bimap_get_by_left,
};
use crate::filter_map::{FilterMap, keys_of, lemma_push_fresh_key, lemma_value_at};
use crate::graph::{
    Graph,
    incoming_nodes,
    outgoing_nodes,
    successor_of,
    predecessor_of,
    lemma_push_contains,
    lemma_push_no_duplicates,
    enters,
    leaves,
};
use crate::pattern::{PatternElement, PatternGraph, pattern_wf};
use crate::matching::{
    MatchedGraph,
    node_fits,
    edge_fits,
    consistent,
    binds,
    is_match,
    single_accept_all,
    decides,
    conditions_decide,
    full_fit,
    extends,
    agrees_on_visible,
    covers,
    finds_all,
    differ_on_visible,
    distinct_matches,
    lemma_covers_prefix,
    lemma_covers_earlier,
    lemma_extend_consistent,
    prefix_of,
};

verus! {

broadcast use vstd::std_specs::hash::group_hash_axioms;

/// `after` is `before` with each key satisfying `fresh` recorded at `depth`,
/// unless it was recorded already.
pub open spec fn recorded(
    before: Map<usize, usize>,
    after: Map<usize, usize>,
    fresh: spec_fn(usize) -> bool,
    depth: usize,
) -> bool {
    &&& forall|k: usize| #[trigger]
        after.dom().contains(k) <==> before.dom().contains(k) || fresh(k)
    &&& forall|k: usize| before.dom().contains(k) ==> #[trigger] after[k] == before[k]
    &&& forall|k: usize|
        after.dom().contains(k) && !before.dom().contains(k) ==> #[trigger] after[k] == depth
}

/// `after` is `before` without the keys satisfying `fresh` that were
/// recorded at `depth`.
pub open spec fn unrecorded(
    before: Map<usize, usize>,
    after: Map<usize, usize>,
    fresh: spec_fn(usize) -> bool,
    depth: usize,
) -> bool {
    &&& forall|k: usize| #[trigger]
        after.dom().contains(k) <==> before.dom().contains(k) && !(fresh(k) && before[k] == depth)
    &&& forall|k: usize| after.dom().contains(k) ==> #[trigger] after[k] == before[k]
}

/// Recording at `depth` and then removing what was recorded at `depth`
/// restores a map whose entries were all recorded before `depth`.
proof fn lemma_unrecord_restores(
    m0: Map<usize, usize>,
    m1: Map<usize, usize>,
    m2: Map<usize, usize>,
    fresh: spec_fn(usize) -> bool,
    depth: usize,
)
    requires
        forall|k: usize| #[trigger] m0.dom().contains(k) ==> m0[k] < depth,
        recorded(m0, m1, fresh, depth),
        unrecorded(m1, m2, fresh, depth),
    ensures
        m2 == m0,
{
    assert forall|k: usize| #[trigger] m2.dom().contains(k) <==> m0.dom().contains(k) by {
        if m0.dom().contains(k) {
            assert(m1[k] == m0[k]);
        }
    }
    assert forall|k: usize| m2.dom().contains(k) implies #[trigger] m2[k] == m0[k] by {
        assert(m1[k] == m0[k]);
    }
    assert(m2 =~= m0);
}

/// The keys of `map` are the members of `set` and their `near` neighbours,
/// each recorded below `depth`.
pub open spec fn records_near(
    map: Map<usize, usize>,
    set: Set<usize>,
    near: spec_fn(usize, usize) -> bool,
    depth: nat,
) -> bool {
    &&& forall|k: usize| #[trigger]
        map.dom().contains(k) <==> set.contains(k) || exists|u: usize|
            set.contains(u) && #[trigger] near(u, k)
    &&& forall|k: usize| map.dom().contains(k) ==> #[trigger] map[k] < depth
}

/// The base nodes that a correspondence binds.
pub open spec fn bound_images(mu: Map<usize, usize>) -> Set<usize> {
    Set::new(|u: usize| has_right(mu, u))
}

/// Recording a new member `x` of the set and its neighbours at `depth`
/// keeps the keys in step with the grown set.
proof fn lemma_records_near_insert(
    before: Map<usize, usize>,
    after: Map<usize, usize>,
    set: Set<usize>,
    x: usize,
    near: spec_fn(usize, usize) -> bool,
    fresh: spec_fn(usize) -> bool,
    depth: usize,
)
    requires
        records_near(before, set, near, depth as nat),
        recorded(before, after, fresh, depth),
        forall|k: usize| #[trigger] fresh(k) == (k == x || near(x, k)),
    ensures
        records_near(after, set.insert(x), near, depth as nat + 1),
{
    let s2 = set.insert(x);
    assert forall|k: usize| #[trigger] after.dom().contains(k) <==> s2.contains(k) || exists|u: usize|
        s2.contains(u) && #[trigger] near(u, k) by {
        if after.dom().contains(k) {
            if before.dom().contains(k) {
                if !set.contains(k) {
                    let u = choose|u: usize| set.contains(u) && #[trigger] near(u, k);
                    assert(s2.contains(u) && near(u, k));
                }
            } else {
                assert(fresh(k));
                if k != x {
                    assert(s2.contains(x) && near(x, k));
                }
            }
        }
        if s2.contains(k) && k == x {
            assert(fresh(k));
        }
        if exists|u: usize| s2.contains(u) && #[trigger] near(u, k) {
            let u = choose|u: usize| s2.contains(u) && #[trigger] near(u, k);
            if u == x {
                assert(fresh(k));
            } else {
                assert(set.contains(u));
                assert(before.dom().contains(k));
            }
        }
    }
    assert forall|k: usize| after.dom().contains(k) implies #[trigger] after[k] < depth as nat + 1 by {
        if before.dom().contains(k) {
            assert(after[k] == before[k]);
        }
    }
}

/// The visible nodes of the pattern among those of `nodes`.
pub open spec fn visible_among<NodeCondition, EdgeCondition>(
    p: &PatternGraph<NodeCondition, EdgeCondition>,
    nodes: Seq<usize>,
) -> Set<usize> {
    Set::new(|n: usize| nodes.contains(n) && !p.node_weight_of(n).hidden())
}

/// A finite subset as large as its finite superset is all of it.
proof fn lemma_subset_full(small: Set<usize>, big: Set<usize>)
    requires
        big.finite(),
        small.subset_of(big),
        small.len() >= big.len(),
    ensures
        big.subset_of(small),
{
    assert forall|x: usize| big.contains(x) implies small.contains(x) by {
        if !small.contains(x) {
            assert(small.subset_of(big.remove(x)));
            vstd::set_lib::lemma_len_subset(small, big.remove(x));
        }
    }
}

/// The order in which pattern nodes are bound: visible nodes before hidden
/// ones, then by reference.
pub open spec fn node_before(hidden1: bool, n1: usize, hidden2: bool, n2: usize) -> bool {
    if hidden1 != hidden2 {
        !hidden1
    } else {
        n1 < n2
    }
}

/// A finite set of pattern nodes as large as the pattern holds all of them.
proof fn lemma_full_domain(dom: Set<usize>, nodes: Seq<usize>)
    requires
        dom.finite(),
        nodes.no_duplicates(),
        forall|x: usize| #[trigger] dom.contains(x) ==> nodes.contains(x),
        dom.len() == nodes.len(),
    ensures
        forall|x: usize| #[trigger] nodes.contains(x) ==> dom.contains(x),
{
    nodes.unique_seq_to_set();
    let all = nodes.to_set();
    assert forall|x: usize| #[trigger] nodes.contains(x) implies dom.contains(x) by {
        if !dom.contains(x) {
            assert(dom.subset_of(all.remove(x)));
            vstd::set_lib::lemma_len_subset(dom, all.remove(x));
        }
    }
}

/// The state of a search for the matches of a pattern graph in a base graph.
pub struct VfState<'a, NodeWeight, EdgeWeight, NodeCondition, EdgeCondition, B> where
    NodeCondition: Fn(&NodeWeight) -> bool,
    EdgeCondition: Fn(&EdgeWeight) -> bool,
    B: Graph<NodeWeight, EdgeWeight>,
 {
    /// The pattern graph.
    pattern_graph: &'a PatternGraph<NodeCondition, EdgeCondition>,
    /// The base graph.
    base_graph: &'a B,
    /// The matches found so far.
    results: Vec<MatchedGraph<'a, NodeWeight, EdgeWeight, NodeCondition, EdgeCondition>>,
    /// The current correspondence from pattern nodes to base nodes.
    core: BiHashMap<usize, usize>,
    /// Pattern nodes that are bound or successors of bound nodes, with the
    /// depth at which each was first recorded.
    out_1: HashMap<usize, usize>,
    /// The same for the base graph.
    out_2: HashMap<usize, usize>,
    /// Pattern nodes that are bound or predecessors of bound nodes, with the
    /// depth at which each was first recorded.
    in_1: HashMap<usize, usize>,
    /// The same for the base graph.
    in_2: HashMap<usize, usize>,
    /// The number of visible pattern nodes.
    nodes_to_take: usize,
    /// The correspondence that each result came from.
    bindings: Ghost<Seq<Map<usize, usize>>>,
}

impl<'a, NodeWeight, EdgeWeight, NodeCondition, EdgeCondition, B> VfState<
    'a,
    NodeWeight,
    EdgeWeight,
    NodeCondition,
    EdgeCondition,
    B,
> where
    NodeCondition: Fn(&NodeWeight) -> bool,
    EdgeCondition: Fn(&EdgeWeight) -> bool,
    B: Graph<NodeWeight, EdgeWeight>,
 {
    /// The current correspondence.
    pub closed spec fn mu(&self) -> Map<usize, usize> {
        bimap_pairs(self.core)
    }

    /// The invariant of the search state: both graphs are well formed and
    /// directed, the correspondence is finite and binds pattern nodes to base
    /// nodes, and every result is the match of its recorded correspondence.
    pub closed spec fn inv(&self) -> bool {
        &&& pattern_wf::<NodeWeight, EdgeWeight, NodeCondition, EdgeCondition>(self.pattern_graph)
        &&& self.base_graph.valid()
        &&& self.base_graph.directed()
        &&& self.mu().dom().finite()
        &&& forall|n: usize| #[trigger]
            self.mu().dom().contains(n) ==> self.pattern_graph.node_seq().contains(n)
                && self.base_graph.node_seq().contains(self.mu()[n])
        &&& forall|i: int|
            0 <= i < self.results@.len() ==> is_match(
                self.pattern_graph,
                self.base_graph,
                #[trigger] &self.results@[i],
            )
        &&& self.bindings@.len() == self.results@.len()
        &&& forall|i: int|
            0 <= i < self.results@.len() ==> binds(
                self.pattern_graph,
                self.base_graph,
                self.bindings@[i],
                #[trigger] &self.results@[i],
            )
    }

    /// The pattern graph searched for.
    pub closed spec fn pattern(&self) -> &'a PatternGraph<NodeCondition, EdgeCondition> {
        self.pattern_graph
    }

    /// The base graph searched in.
    pub closed spec fn base(&self) -> &'a B {
        self.base_graph
    }

    /// The matches found so far.
    pub closed spec fn found(&self) -> Seq<
        MatchedGraph<'a, NodeWeight, EdgeWeight, NodeCondition, EdgeCondition>,
    > {
        self.results@
    }

    /// The correspondence that each result came from.
    pub closed spec fn result_bindings(&self) -> Seq<Map<usize, usize>> {
        self.bindings@
    }

    /// The number of visible pattern nodes.
    pub closed spec fn visible_count(&self) -> usize {
        self.nodes_to_take
    }

    /// Every bound predecessor of `n` in the pattern is bound to a
    /// predecessor of `m` in the base graph.
    pub open spec fn preds_kept(&self, n: usize, m: usize) -> bool {
        forall|s: usize|
            predecessor_of(self.pattern(), n, s) && #[trigger] self.mu().dom().contains(s)
                ==> predecessor_of(self.base(), m, self.mu()[s])
    }

    /// Every bound successor of `n` in the pattern is bound to a successor of
    /// `m` in the base graph.
    pub open spec fn succs_kept(&self, n: usize, m: usize) -> bool {
        forall|s: usize|
            successor_of(self.pattern(), n, s) && #[trigger] self.mu().dom().contains(s)
                ==> successor_of(self.base(), m, self.mu()[s])
    }

    /// Every pattern edge at `n` between bound nodes has a base edge that
    /// fits it.
    pub open spec fn edges_fit(&self, n: usize) -> bool {
        forall|e: usize|
            #![trigger self.pattern().endpoints(e)]
            self.pattern().edge_seq().contains(e) && (self.pattern().endpoints(e).0 == n
                || self.pattern().endpoints(e).1 == n) && self.mu().dom().contains(
                self.pattern().endpoints(e).0,
            ) && self.mu().dom().contains(self.pattern().endpoints(e).1) ==> exists|e2: usize|
                edge_fits(self.pattern(), self.base(), self.mu(), e, e2)
    }

    /// The pattern nodes recorded as bound or successors of bound nodes.
    pub closed spec fn out_p(&self) -> Map<usize, usize> {
        self.out_1@
    }

    /// The base nodes recorded as bound or successors of bound nodes.
    pub closed spec fn out_b(&self) -> Map<usize, usize> {
        self.out_2@
    }

    /// The pattern nodes recorded as bound or predecessors of bound nodes.
    pub closed spec fn in_p(&self) -> Map<usize, usize> {
        self.in_1@
    }

    /// The base nodes recorded as bound or predecessors of bound nodes.
    pub closed spec fn in_b(&self) -> Map<usize, usize> {
        self.in_2@
    }

    /// The auxiliary maps hold exactly the bound nodes and their successors
    /// (`out`) or predecessors (`in`), each recorded below the current depth.
    pub open spec fn tracks(&self) -> bool {
        let depth = self.mu().dom().len();
        let images = bound_images(self.mu());
        &&& records_near(
            self.out_p(),
            self.mu().dom(),
            |u: usize, k: usize| successor_of(self.pattern(), u, k),
            depth,
        )
        &&& records_near(
            self.out_b(),
            images,
            |u: usize, k: usize| successor_of(self.base(), u, k),
            depth,
        )
        &&& records_near(
            self.in_p(),
            self.mu().dom(),
            |u: usize, k: usize| predecessor_of(self.pattern(), u, k),
            depth,
        )
        &&& records_near(
            self.in_b(),
            images,
            |u: usize, k: usize| predecessor_of(self.base(), u, k),
            depth,
        )
    }

    /// `other` has the same auxiliary maps.
    pub open spec fn same_maps(&self, other: &Self) -> bool {
        &&& self.out_p() == other.out_p()
        &&& self.out_b() == other.out_b()
        &&& self.in_p() == other.in_p()
        &&& self.in_b() == other.in_b()
    }

    /// No pattern node is recorded as a neighbour yet.
    pub closed spec fn untouched(&self) -> bool {
        &&& self.out_1@.dom() == Set::<usize>::empty()
        &&& self.in_1@.dom() == Set::<usize>::empty()
    }

    /// `other` searches the same pattern in the same base graph.
    pub open spec fn same_graphs(&self, other: &Self) -> bool {
        &&& self.pattern() == other.pattern()
        &&& self.base() == other.base()
        &&& self.visible_count() == other.visible_count()
    }

    /// `other` differs from `self` at most in the correspondence and the
    /// auxiliary maps.
    pub open spec fn same_search(&self, other: &Self) -> bool {
        &&& self.pattern() == other.pattern()
        &&& self.base() == other.base()
        &&& self.found() == other.found()
        &&& self.result_bindings() == other.result_bindings()
        &&& self.visible_count() == other.visible_count()
    }

    /// Orders two pattern nodes: visible before hidden, then by reference.
    fn give_node_order(&self, n1: usize, n2: usize) -> (r: Ordering)
        requires
            self.inv(),
            self.pattern_graph.node_seq().contains(n1),
            self.pattern_graph.node_seq().contains(n2),
        ensures
            (r == Ordering::Less) == node_before(
                self.pattern_graph.node_weight_of(n1).hidden(),
                n1,
                self.pattern_graph.node_weight_of(n2).hidden(),
                n2,
            ),
            (r == Ordering::Equal) == (n1 == n2),
    {
        let n1_appears = self.pattern_graph.node_weight(n1).should_appear();
        let n2_appears = self.pattern_graph.node_weight(n2).should_appear();
        if n1_appears && !n2_appears {
            Ordering::Less
        } else if !n1_appears && n2_appears {
            Ordering::Greater
        } else if n1 < n2 {
            Ordering::Less
        } else if n1 > n2 {
            Ordering::Greater
        } else {
            Ordering::Equal
        }
    }
    /// The least unbound pattern node in the order of `give_node_order`,
    /// among those recorded in `pattern_map` when one is given.
    fn min_unmatched_pattern_node(&self, pattern_map: Option<&HashMap<usize, usize>>) -> (r:
        Option<usize>)
        requires
            self.inv(),
        ensures
            match r {
                Some(n) => {
                    &&& self.pattern().node_seq().contains(n)
                    &&& !self.mu().dom().contains(n)
                    &&& (pattern_map matches Some(pm) ==> pm@.dom().contains(n))
                    &&& forall|c: usize|
                        #![trigger self.pattern().node_weight_of(c)]
                        self.pattern().node_seq().contains(c) && !self.mu().dom().contains(c) && (
                        pattern_map matches Some(pm) ==> pm@.dom().contains(c)) && c != n
                            ==> node_before(
                            self.pattern().node_weight_of(n).hidden(),
                            n,
                            self.pattern().node_weight_of(c).hidden(),
                            c,
                        )
                },
                None => forall|n: usize| #[trigger]
                    self.pattern().node_seq().contains(n) ==> self.mu().dom().contains(n) || (
                    pattern_map matches Some(pm) && !pm@.dom().contains(n)),
            },
    {
        let nodes = self.pattern_graph.nodes();
        proof {
            self.pattern().lemma_valid_structure();
        }
        let mut best: Option<usize> = None;
        let mut i: usize = 0;
        while i < nodes.len()
            invariant
                self.inv(),
                nodes@ == self.pattern().node_seq(),
                nodes@.no_duplicates(),
                i <= nodes@.len(),
                match best {
                    Some(n) => {
                        &&& self.pattern().node_seq().contains(n)
                        &&& !self.mu().dom().contains(n)
                        &&& (pattern_map matches Some(pm) ==> pm@.dom().contains(n))
                        &&& nodes@.take(i as int).contains(n)
                        &&& forall|j: int|
                            0 <= j < i && !self.mu().dom().contains(#[trigger] nodes@[j]) && (
                            pattern_map matches Some(pm) ==> pm@.dom().contains(nodes@[j]))
                                && nodes@[j] != n ==> node_before(
                                self.pattern().node_weight_of(n).hidden(),
                                n,
                                self.pattern().node_weight_of(nodes@[j]).hidden(),
                                nodes@[j],
                            )
                    },
                    None => forall|j: int|
                        0 <= j < i ==> self.mu().dom().contains(#[trigger] nodes@[j]) || (
                        pattern_map matches Some(pm) && !pm@.dom().contains(nodes@[j])),
                },
            decreases nodes@.len() - i,
        {
            let n = nodes[i];
            assert(nodes@.contains(n) && nodes@[i as int] == n);
            proof {
                assert(nodes@.take(i + 1) =~= nodes@.take(i as int).push(n));
                lemma_push_contains(nodes@.take(i as int), n);
                if let Some(b) = best {
                    let k = choose|k: int| 0 <= k < i && nodes@.take(i as int)[k] == b;
                    assert(nodes@[k] == b);
                }
            }
            let recorded = match pattern_map {
                Some(pm) => pm.contains_key(&n),
                None => true,
            };
            if recorded && !bimap_contains_left(&self.core, n) {
                match best {
                    None => {
                        best = Some(n);
                    },
                    Some(b) => {
                        match self.give_node_order(n, b) {
                            Ordering::Less => {
                                best = Some(n);
                            },
                            _ => {},
                        }
                    },
                }
            }
            i = i + 1;
        }
        proof {
            assert(nodes@.take(i as int) =~= nodes@);
            if best is None {
                assert forall|n: usize| #[trigger]
                    self.pattern().node_seq().contains(n) implies self.mu().dom().contains(n) || (
                    pattern_map matches Some(pm) && !pm@.dom().contains(n)) by {
                    let j = choose|j: int| 0 <= j < nodes@.len() && nodes@[j] == n;
                    assert(nodes@[j] == n);
                }
            }
            if let Some(b) = best {
                assert forall|c: usize|
                    #![trigger self.pattern().node_weight_of(c)]
                    self.pattern().node_seq().contains(c) && !self.mu().dom().contains(c) && (
                    pattern_map matches Some(pm) ==> pm@.dom().contains(c)) && c != b
                        implies node_before(
                    self.pattern().node_weight_of(b).hidden(),
                    b,
                    self.pattern().node_weight_of(c).hidden(),
                    c,
                ) by {
                    let j = choose|j: int| 0 <= j < nodes@.len() && nodes@[j] == c;
                    assert(nodes@[j] == c);
                }
            }
        }
        best
    }

    /// The unbound base nodes, in enumeration order, among those recorded in
    /// `base_map` when one is given.
    fn unmatched_base_nodes(&self, base_map: Option<&HashMap<usize, usize>>) -> (r: Vec<usize>)
        requires
            self.inv(),
        ensures
            forall|j: int|
                0 <= j < r@.len() ==> self.base().node_seq().contains(#[trigger] r@[j])
                    && !has_right(self.mu(), r@[j]),
            base_map is None && self.mu().dom() == Set::<usize>::empty() ==> r@
                == self.base().node_seq(),
            forall|m: usize|
                base_map is None && self.base().node_seq().contains(m) && !has_right(self.mu(), m)
                    ==> #[trigger] r@.contains(m),
            r@.no_duplicates(),
    {
        let nodes = self.base_graph.nodes();
        proof {
            self.base().lemma_valid_structure();
        }
        let mut r: Vec<usize> = Vec::new();
        let mut i: usize = 0;
        while i < nodes.len()
            invariant
                self.inv(),
                nodes@ == self.base().node_seq(),
                i <= nodes@.len(),
                forall|j: int|
                    0 <= j < r@.len() ==> self.base().node_seq().contains(#[trigger] r@[j])
                        && !has_right(self.mu(), r@[j]),
                base_map is None && self.mu().dom() == Set::<usize>::empty() ==> r@
                    == nodes@.take(i as int),
                forall|j: int|
                    0 <= j < i && base_map is None && !has_right(self.mu(), #[trigger] nodes@[j])
                        ==> r@.contains(nodes@[j]),
                nodes@.no_duplicates(),
                r@.no_duplicates(),
                forall|x: usize| #[trigger] r@.contains(x) ==> nodes@.take(i as int).contains(x),
            decreases nodes@.len() - i,
        {
            let m = nodes[i];
            proof {
                lemma_push_contains(r@, m);
                assert(nodes@.take(i + 1) =~= nodes@.take(i as int).push(m));
                lemma_push_contains(nodes@.take(i as int), m);
                if r@.contains(m) {
                    let j = choose|j: int| 0 <= j < i && nodes@.take(i as int)[j] == m;
                    assert(nodes@[j] == nodes@[i as int]);
                }
                if !r@.contains(m) {
                    lemma_push_no_duplicates(r@, m);
                }
            }
            assert(nodes@.contains(m) && nodes@[i as int] == m);
            assert(nodes@.take(i + 1) =~= nodes@.take(i as int).push(m));
            let recorded = match base_map {
                Some(bm) => bm.contains_key(&m),
                None => true,
            };
            if recorded && !bimap_contains_right(&self.core, m) {
                r.push(m);
            }
            i = i + 1;
        }
        assert(nodes@.take(i as int) =~= nodes@);
        proof {
            assert forall|m: usize|
                base_map is None && self.base().node_seq().contains(m) && !has_right(self.mu(), m)
                    implies #[trigger] r@.contains(m) by {
                let j = choose|j: int| 0 <= j < nodes@.len() && nodes@[j] == m;
                assert(nodes@[j] == m);
            }
        }
        r
    }

    /// The least unbound pattern node, and the unbound base nodes: the
    /// candidates when no bound node has an unbound neighbour.
    fn find_unmatched_unconnected_nodes(&self) -> (r: (Option<usize>, Vec<usize>))
        requires
            self.inv(),
        ensures
            match r.0 {
                Some(n) => self.pattern().node_seq().contains(n) && !self.mu().dom().contains(n),
                None => forall|n: usize| #[trigger]
                    self.pattern().node_seq().contains(n) ==> self.mu().dom().contains(n),
            },
            forall|j: int|
                0 <= j < r.1@.len() ==> self.base().node_seq().contains(#[trigger] r.1@[j])
                    && !has_right(self.mu(), r.1@[j]),
            self.mu().dom() == Set::<usize>::empty() ==> r.1@ == self.base().node_seq(),
            forall|m: usize|
                self.base().node_seq().contains(m) && !has_right(self.mu(), m)
                    ==> #[trigger] r.1@.contains(m),
            r.1@.no_duplicates(),
            r.0 matches Some(n) ==> forall|c: usize|
                #![trigger self.pattern().node_weight_of(c)]
                self.pattern().node_seq().contains(c) && !self.mu().dom().contains(c) && c != n
                    ==> node_before(
                    self.pattern().node_weight_of(n).hidden(),
                    n,
                    self.pattern().node_weight_of(c).hidden(),
                    c,
                ),
    {
        let n = self.min_unmatched_pattern_node(None);
        let base_nodes = self.unmatched_base_nodes(None);
        (n, base_nodes)
    }

    /// The least unbound pattern node recorded in `pattern_map`, and the
    /// unbound base nodes recorded in `base_map`. While visible nodes remain
    /// to be bound (`find_ignored` unset), a hidden least node is not offered.
    fn find_unmatched_neighbors(
        &self,
        pattern_map: &HashMap<usize, usize>,
        base_map: &HashMap<usize, usize>,
        find_ignored: bool,
    ) -> (r: (Option<usize>, Vec<usize>))
        requires
            self.inv(),
        ensures
            match r.0 {
                Some(n) => {
                    &&& self.pattern().node_seq().contains(n)
                    &&& !self.mu().dom().contains(n)
                    &&& pattern_map@.dom().contains(n)
                    &&& forall|c: usize|
                        #![trigger self.pattern().node_weight_of(c)]
                        self.pattern().node_seq().contains(c) && !self.mu().dom().contains(c)
                            && pattern_map@.dom().contains(c) && c != n ==> node_before(
                            self.pattern().node_weight_of(n).hidden(),
                            n,
                            self.pattern().node_weight_of(c).hidden(),
                            c,
                        )
                },
                None => forall|c: usize|
                    #![trigger self.pattern().node_weight_of(c)]
                    self.pattern().node_seq().contains(c) && !self.mu().dom().contains(c)
                        && pattern_map@.dom().contains(c) ==> !find_ignored
                        && self.pattern().node_weight_of(c).hidden(),
            },
            pattern_map@.dom() == Set::<usize>::empty() ==> r.0 is None,
            !find_ignored ==> (r.0 matches Some(n) ==> !self.pattern().node_weight_of(n).hidden()),
            forall|j: int|
                0 <= j < r.1@.len() ==> self.base().node_seq().contains(#[trigger] r.1@[j])
                    && !has_right(self.mu(), r.1@[j]) && base_map@.dom().contains(r.1@[j]),
            forall|m: usize|
                self.base().node_seq().contains(m) && base_map@.dom().contains(m) && !has_right(
                    self.mu(),
                    m,
                ) ==> #[trigger] r.1@.contains(m),
            r.1@.no_duplicates(),
    {
        let least = self.min_unmatched_pattern_node(Some(pattern_map));
        let n = match least {
            Some(n) => {
                if find_ignored || self.pattern_graph.node_weight(n).should_appear() {
                    Some(n)
                } else {
                    None
                }
            },
            None => None,
        };
        proof {
            if least is None {
                assert forall|c: usize|
                    #![trigger self.pattern().node_weight_of(c)]
                    self.pattern().node_seq().contains(c) && !self.mu().dom().contains(c)
                        && pattern_map@.dom().contains(c) implies !find_ignored
                        && self.pattern().node_weight_of(c).hidden() by {
                    assert(self.pattern().node_seq().contains(c));
                }
            }
        }
        let nodes = self.base_graph.nodes();
        proof {
            self.base().lemma_valid_structure();
        }
        let mut base_nodes: Vec<usize> = Vec::new();
        let mut i: usize = 0;
        while i < nodes.len()
            invariant
                self.inv(),
                nodes@ == self.base().node_seq(),
                i <= nodes@.len(),
                forall|j: int|
                    0 <= j < base_nodes@.len() ==> self.base().node_seq().contains(
                        #[trigger] base_nodes@[j],
                    ) && !has_right(self.mu(), base_nodes@[j]) && base_map@.dom().contains(
                        base_nodes@[j],
                    ),
                forall|j: int|
                    0 <= j < i && base_map@.dom().contains(#[trigger] nodes@[j]) && !has_right(
                        self.mu(),
                        nodes@[j],
                    ) ==> base_nodes@.contains(nodes@[j]),
                nodes@.no_duplicates(),
                base_nodes@.no_duplicates(),
                forall|x: usize| #[trigger]
                    base_nodes@.contains(x) ==> nodes@.take(i as int).contains(x),
            decreases nodes@.len() - i,
        {
            let m = nodes[i];
            assert(nodes@.contains(m) && nodes@[i as int] == m);
            proof {
                lemma_push_contains(base_nodes@, m);
                assert(nodes@.take(i + 1) =~= nodes@.take(i as int).push(m));
                lemma_push_contains(nodes@.take(i as int), m);
                if base_nodes@.contains(m) {
                    let j = choose|j: int| 0 <= j < i && nodes@.take(i as int)[j] == m;
                    assert(nodes@[j] == nodes@[i as int]);
                }
                if !base_nodes@.contains(m) {
                    lemma_push_no_duplicates(base_nodes@, m);
                }
            }
            if base_map.contains_key(&m) && !bimap_contains_right(&self.core, m) {
                base_nodes.push(m);
            }
            i = i + 1;
        }
        proof {
            assert forall|m: usize|
                self.base().node_seq().contains(m) && base_map@.dom().contains(m) && !has_right(
                    self.mu(),
                    m,
                ) implies #[trigger] base_nodes@.contains(m) by {
                let j = choose|j: int| 0 <= j < nodes@.len() && nodes@[j] == m;
                assert(nodes@[j] == m);
            }
        }
        (n, base_nodes)
    }

    /// Records `node` in `map` at `depth`, unless it is recorded already.
    fn record(map: &mut HashMap<usize, usize>, node: usize, depth: usize)
        ensures
            final(map)@ == (if old(map)@.dom().contains(node) {
                old(map)@
            } else {
                old(map)@.insert(node, depth)
            }),
    {
        if !map.contains_key(&node) {
            map.insert(node, depth);
        }
    }

    /// Removes `index` from `map` if it was recorded at exactly `depth`.
    fn remove(index: usize, depth: usize, map: &mut HashMap<usize, usize>)
        ensures
            final(map)@ == (if old(map)@.dom().contains(index) && old(map)@[index] == depth {
                old(map)@.remove(index)
            } else {
                old(map)@
            }),
    {
        match map.get(&index) {
            Some(insert_depth) => {
                if *insert_depth == depth {
                    map.remove(&index);
                }
            },
            None => {},
        }
    }

    /// Records each of `nodes` in `map` at `depth`, unless recorded already.
    fn record_all(map: &mut HashMap<usize, usize>, nodes: &Vec<usize>, depth: usize)
        ensures
            recorded(old(map)@, final(map)@, |k: usize| nodes@.contains(k), depth),
    {
        let mut i: usize = 0;
        while i < nodes.len()
            invariant
                i <= nodes@.len(),
                recorded(old(map)@, map@, |k: usize| nodes@.take(i as int).contains(k), depth),
            decreases nodes@.len() - i,
        {
            proof {
                assert(nodes@.take(i + 1) =~= nodes@.take(i as int).push(nodes@[i as int]));
                lemma_push_contains(nodes@.take(i as int), nodes@[i as int]);
            }
            Self::record(map, nodes[i], depth);
            i = i + 1;
        }
        assert(nodes@.take(i as int) =~= nodes@);
    }

    /// Removes each of `nodes` from `map` where it was recorded at `depth`.
    fn remove_all(map: &mut HashMap<usize, usize>, nodes: &Vec<usize>, depth: usize)
        ensures
            unrecorded(old(map)@, final(map)@, |k: usize| nodes@.contains(k), depth),
    {
        let mut i: usize = 0;
        while i < nodes.len()
            invariant
                i <= nodes@.len(),
                unrecorded(old(map)@, map@, |k: usize| nodes@.take(i as int).contains(k), depth),
            decreases nodes@.len() - i,
        {
            proof {
                assert(nodes@.take(i + 1) =~= nodes@.take(i as int).push(nodes@[i as int]));
                lemma_push_contains(nodes@.take(i as int), nodes@[i as int]);
            }
            Self::remove(nodes[i], depth, map);
            i = i + 1;
        }
        assert(nodes@.take(i as int) =~= nodes@);
    }

    /// Binds pattern node `n` to base node `m` at `depth`, and records both
    /// nodes and their neighbours in the auxiliary maps.
    fn assign(&mut self, n: usize, m: usize, depth: usize)
        requires
            old(self).inv(),
            old(self).pattern().node_seq().contains(n),
            !old(self).mu().dom().contains(n),
            old(self).base().node_seq().contains(m),
            !has_right(old(self).mu(), m),
        ensures
            final(self).inv(),
            final(self).same_search(old(self)),
            final(self).mu() == old(self).mu().insert(n, m),
            recorded(
                old(self).out_p(),
                final(self).out_p(),
                |k: usize| k == n || successor_of(old(self).pattern(), n, k),
                depth,
            ),
            recorded(
                old(self).out_b(),
                final(self).out_b(),
                |k: usize| k == m || successor_of(old(self).base(), m, k),
                depth,
            ),
            recorded(
                old(self).in_p(),
                final(self).in_p(),
                |k: usize| k == n || predecessor_of(old(self).pattern(), n, k),
                depth,
            ),
            recorded(
                old(self).in_b(),
                final(self).in_b(),
                |k: usize| k == m || predecessor_of(old(self).base(), m, k),
                depth,
            ),
    {
        let n_outs = outgoing_nodes(self.pattern_graph, n);
        let m_outs = outgoing_nodes(self.base_graph, m);
        let n_ins = incoming_nodes(self.pattern_graph, n);
        let m_ins = incoming_nodes(self.base_graph, m);
        bimap_insert(&mut self.core, n, m);
        Self::record(&mut self.out_1, n, depth);
        Self::record(&mut self.out_2, m, depth);
        Self::record(&mut self.in_1, n, depth);
        Self::record(&mut self.in_2, m, depth);
        Self::record_all(&mut self.out_1, &n_outs, depth);
        Self::record_all(&mut self.out_2, &m_outs, depth);
        Self::record_all(&mut self.in_1, &n_ins, depth);
        Self::record_all(&mut self.in_2, &m_ins, depth);
    }

    /// Undoes the binding of `n` to `m` made at `depth`: the binding goes,
    /// and so does every entry of the auxiliary maps recorded at `depth`
    /// for these nodes and their neighbours.
    fn unassign(&mut self, n: usize, m: usize, depth: usize)
        requires
            old(self).inv(),
            old(self).pattern().node_seq().contains(n),
            old(self).base().node_seq().contains(m),
        ensures
            final(self).inv(),
            final(self).same_search(old(self)),
            final(self).mu() == old(self).mu().remove(n),
            unrecorded(
                old(self).out_p(),
                final(self).out_p(),
                |k: usize| k == n || successor_of(old(self).pattern(), n, k),
                depth,
            ),
            unrecorded(
                old(self).out_b(),
                final(self).out_b(),
                |k: usize| k == m || successor_of(old(self).base(), m, k),
                depth,
            ),
            unrecorded(
                old(self).in_p(),
                final(self).in_p(),
                |k: usize| k == n || predecessor_of(old(self).pattern(), n, k),
                depth,
            ),
            unrecorded(
                old(self).in_b(),
                final(self).in_b(),
                |k: usize| k == m || predecessor_of(old(self).base(), m, k),
                depth,
            ),
    {
        let n_outs = outgoing_nodes(self.pattern_graph, n);
        let m_outs = outgoing_nodes(self.base_graph, m);
        let n_ins = incoming_nodes(self.pattern_graph, n);
        let m_ins = incoming_nodes(self.base_graph, m);
        bimap_remove_by_left(&mut self.core, n);
        Self::remove(n, depth, &mut self.out_1);
        Self::remove(m, depth, &mut self.out_2);
        Self::remove(n, depth, &mut self.in_1);
        Self::remove(m, depth, &mut self.in_2);
        Self::remove_all(&mut self.out_1, &n_outs, depth);
        Self::remove_all(&mut self.out_2, &m_outs, depth);
        Self::remove_all(&mut self.in_1, &n_ins, depth);
        Self::remove_all(&mut self.in_2, &m_ins, depth);
    }
    /// Finds a base edge from `from` to `to` whose weight satisfies the
    /// condition of `element`.
    fn find_matching_edge(&self, from: usize, to: usize, element: &PatternElement<EdgeCondition>) -> (r:
        Option<usize>)
        requires
            self.inv(),
            self.base().node_seq().contains(from),
            forall|w: &EdgeWeight| #[trigger] element.condition().requires((w,)),
        ensures
            match r {
                Some(e2) => {
                    &&& self.base().edge_seq().contains(e2)
                    &&& self.base().endpoints(e2) == (from, to)
                    &&& element.condition().ensures((&self.base().edge_weight_of(e2),), true)
                },
                None => forall|e2: usize|
                    #![trigger self.base().endpoints(e2)]
                    self.base().edge_seq().contains(e2) && self.base().endpoints(e2) == (from, to)
                        ==> element.condition().ensures(
                        (&self.base().edge_weight_of(e2),),
                        false,
                    ),
            },
    {
        let edges = self.base_graph.outgoing_edges(from);
        let mut i: usize = 0;
        while i < edges.len()
            invariant
                self.inv(),
                i <= edges@.len(),
                forall|e: usize| #[trigger]
                    edges@.contains(e) <==> self.base().edge_seq().contains(e) && leaves(
                        self.base().directed(),
                        self.base().endpoints(e),
                        from,
                    ),
                forall|w: &EdgeWeight| #[trigger] element.condition().requires((w,)),
                forall|j: int|
                    0 <= j < i && self.base().endpoints(#[trigger] edges@[j]).1 == to
                        ==> element.condition().ensures(
                        (&self.base().edge_weight_of(edges@[j]),),
                        false,
                    ),
            decreases edges@.len() - i,
        {
            let e = edges[i];
            assert(edges@.contains(e) && edges@[i as int] == e);
            let (_, target) = self.base_graph.adjacent_nodes(e);
            if target == to {
                if element.may_match(self.base_graph.edge_weight(e)) {
                    return Some(e);
                }
            }
            i = i + 1;
        }
        proof {
            assert forall|e2: usize|
                #![trigger self.base().endpoints(e2)]
                self.base().edge_seq().contains(e2) && self.base().endpoints(e2) == (from, to)
                    implies element.condition().ensures(
                    (&self.base().edge_weight_of(e2),),
                    false,
                ) by {
                assert(edges@.contains(e2));
                let j = choose|j: int| 0 <= j < edges@.len() && edges@[j] == e2;
                assert(edges@[j] == e2);
            }
        }
        None
    }

    /// Tests the condition of pattern node `n` against base node `m`.
    fn check_node_semantics(&self, n: usize, m: usize) -> (r: bool)
        requires
            self.inv(),
            self.pattern().node_seq().contains(n),
            self.base().node_seq().contains(m),
        ensures
            r ==> node_fits(self.pattern(), self.base(), n, m),
            (forall|w: &NodeWeight, b: bool|
                #[trigger] self.pattern().node_weight_of(n).condition().ensures((w,), b) ==> b)
                ==> r,
            decides::<NodeWeight, NodeCondition>(self.pattern().node_weight_of(n).condition())
                && node_fits(self.pattern(), self.base(), n, m) ==> r,
    {
        let matcher = self.pattern_graph.node_weight(n);
        let refed_node = self.base_graph.node_weight(m);
        matcher.may_match(refed_node)
    }

    /// Tests that for each pattern edge between `n` and a bound node, in
    /// either direction, a base edge joins the images in the same direction
    /// and satisfies the edge's condition. `n` must be bound to `m`.
    fn check_edge_semantics(&self, n: usize, m: usize) -> (r: bool)
        requires
            self.inv(),
            self.mu().dom().contains(n),
            self.mu()[n] == m,
        ensures
            r ==> self.edges_fit(n),
            conditions_decide::<NodeWeight, EdgeWeight, NodeCondition, EdgeCondition>(
                self.pattern(),
            ) && self.edges_fit(n) ==> r,
            self.pattern().edge_seq().len() == 0 ==> r,
    {
        let p = self.pattern_graph;
        let outs = p.outgoing_edges(n);
        proof {
            if p.edge_seq().len() == 0 && outs@.len() > 0 {
                assert(outs@.contains(outs@[0]));
            }
        }
        let mut i: usize = 0;
        while i < outs.len()
            invariant
                self.inv(),
                self.mu().dom().contains(n),
                self.mu()[n] == m,
                p == self.pattern(),
                i <= outs@.len(),
                forall|e: usize| #[trigger]
                    outs@.contains(e) <==> p.edge_seq().contains(e) && leaves(
                        p.directed(),
                        p.endpoints(e),
                        n,
                    ),
                forall|j: int|
                    0 <= j < i ==> self.mu().dom().contains(p.endpoints(#[trigger] outs@[j]).1)
                        ==> exists|e2: usize| edge_fits(p, self.base(), self.mu(), outs@[j], e2),
            decreases outs@.len() - i,
        {
            let e = outs[i];
            assert(outs@.contains(e) && outs@[i as int] == e);
            let (_, target) = p.adjacent_nodes(e);
            match bimap_get_by_left(&self.core, target) {
                Some(image) => {
                    let element = p.edge_weight(e);
                    match self.find_matching_edge(m, image, element) {
                        Some(e2) => {
                            assert(edge_fits(p, self.base(), self.mu(), e, e2));
                        },
                        None => {
                            proof {
                                if conditions_decide::<
                                    NodeWeight,
                                    EdgeWeight,
                                    NodeCondition,
                                    EdgeCondition,
                                >(p) && self.edges_fit(n) {
                                    assert(p.edge_seq().contains(e));
                                    let e2 = choose|e2: usize|
                                        edge_fits(p, self.base(), self.mu(), e, e2);
                                    assert(self.base().endpoints(e2) == (m, image));
                                    assert(decides::<EdgeWeight, EdgeCondition>(
                                        p.edge_weight_of(e).condition(),
                                    ));
                                }
                            }
                            return false;
                        },
                    }
                },
                None => {},
            }
            i = i + 1;
        }
        let ins = p.incoming_edges(n);
        proof {
            if p.edge_seq().len() == 0 && ins@.len() > 0 {
                assert(ins@.contains(ins@[0]));
            }
        }
        let mut i: usize = 0;
        while i < ins.len()
            invariant
                self.inv(),
                self.mu().dom().contains(n),
                self.mu()[n] == m,
                p == self.pattern(),
                i <= ins@.len(),
                forall|e: usize| #[trigger]
                    ins@.contains(e) <==> p.edge_seq().contains(e) && enters(
                        p.directed(),
                        p.endpoints(e),
                        n,
                    ),
                forall|j: int|
                    0 <= j < i ==> self.mu().dom().contains(p.endpoints(#[trigger] ins@[j]).0)
                        ==> exists|e2: usize| edge_fits(p, self.base(), self.mu(), ins@[j], e2),
            decreases ins@.len() - i,
        {
            let e = ins[i];
            assert(ins@.contains(e) && ins@[i as int] == e);
            let (source, _) = p.adjacent_nodes(e);
            match bimap_get_by_left(&self.core, source) {
                Some(image) => {
                    let element = p.edge_weight(e);
                    match self.find_matching_edge(image, m, element) {
                        Some(e2) => {
                            assert(edge_fits(p, self.base(), self.mu(), e, e2));
                        },
                        None => {
                            proof {
                                if conditions_decide::<
                                    NodeWeight,
                                    EdgeWeight,
                                    NodeCondition,
                                    EdgeCondition,
                                >(p) && self.edges_fit(n) {
                                    assert(p.edge_seq().contains(e));
                                    let e2 = choose|e2: usize|
                                        edge_fits(p, self.base(), self.mu(), e, e2);
                                    assert(self.base().endpoints(e2) == (image, m));
                                    assert(decides::<EdgeWeight, EdgeCondition>(
                                        p.edge_weight_of(e).condition(),
                                    ));
                                }
                            }
                            return false;
                        },
                    }
                },
                None => {},
            }
            i = i + 1;
        }
        proof {
            assert forall|e: usize|
                #![trigger p.endpoints(e)]
                p.edge_seq().contains(e) && (p.endpoints(e).0 == n || p.endpoints(e).1 == n)
                    && self.mu().dom().contains(p.endpoints(e).0) && self.mu().dom().contains(
                    p.endpoints(e).1,
                ) implies exists|e2: usize| edge_fits(p, self.base(), self.mu(), e, e2) by {
                if p.endpoints(e).0 == n {
                    assert(outs@.contains(e));
                    let j = choose|j: int| 0 <= j < outs@.len() && outs@[j] == e;
                    assert(outs@[j] == e);
                } else {
                    assert(ins@.contains(e));
                    let j = choose|j: int| 0 <= j < ins@.len() && ins@[j] == e;
                    assert(ins@[j] == e);
                }
            }
        }
        true
    }
    /// Whether `x` occurs in `v`.
    fn contains_node(v: &Vec<usize>, x: usize) -> (r: bool)
        ensures
            r == v@.contains(x),
    {
        let mut i: usize = 0;
        while i < v.len()
            invariant
                i <= v@.len(),
                forall|j: int| 0 <= j < i ==> v@[j] != x,
            decreases v@.len() - i,
        {
            if v[i] == x {
                assert(v@[i as int] == x);
                return true;
            }
            i = i + 1;
        }
        false
    }

    /// Tests that every bound predecessor of `n` in the pattern is bound to
    /// a predecessor of `m` in the base graph.
    fn check_predecessor_relation(&self, n: usize, m: usize) -> (r: bool)
        requires
            self.inv(),
            self.pattern().node_seq().contains(n),
            self.base().node_seq().contains(m),
        ensures
            r == self.preds_kept(n, m),
            self.pattern().edge_seq().len() == 0 ==> r,
    {
        let n_preds = incoming_nodes(self.pattern_graph, n);
        proof {
            if self.pattern().edge_seq().len() == 0 && n_preds@.len() > 0 {
                assert(predecessor_of(self.pattern(), n, n_preds@[0]));
            }
        }
        let m_preds = incoming_nodes(self.base_graph, m);
        let mut i: usize = 0;
        while i < n_preds.len()
            invariant
                self.inv(),
                i <= n_preds@.len(),
                self.pattern().edge_seq().len() == 0 ==> n_preds@.len() == 0,
                forall|j: int|
                    0 <= j < n_preds@.len() ==> predecessor_of(self.pattern(), n, #[trigger] n_preds@[j]),
                forall|e: usize|
                    self.base().edge_seq().contains(e) && enters(
                        self.base().directed(),
                        self.base().endpoints(e),
                        m,
                    ) ==> m_preds@.contains(#[trigger] self.base().endpoints(e).0),
                forall|j: int|
                    0 <= j < i ==> #[trigger] self.mu().dom().contains(n_preds@[j])
                        ==> m_preds@.contains(self.mu()[n_preds@[j]]),
            decreases n_preds@.len() - i,
        {
            match bimap_get_by_left(&self.core, n_preds[i]) {
                Some(image) => {
                    if !Self::contains_node(&m_preds, image) {
                        proof {
                            let s = n_preds@[i as int];
                            assert(predecessor_of(self.pattern(), n, s));
                            if self.preds_kept(n, m) {
                                assert(predecessor_of(self.base(), m, image));
                                let e = choose|e: usize|
                                    self.base().edge_seq().contains(e) && enters(
                                        self.base().directed(),
                                        #[trigger] self.base().endpoints(e),
                                        m,
                                    ) && self.base().endpoints(e).0 == image;
                                assert(m_preds@.contains(self.base().endpoints(e).0));
                            }
                        }
                        return false;
                    }
                },
                None => {},
            }
            i = i + 1;
        }
        proof {
            assert forall|s: usize|
                predecessor_of(self.pattern(), n, s) && #[trigger] self.mu().dom().contains(
                    s,
                ) implies predecessor_of(self.base(), m, self.mu()[s]) by {
                let e = choose|e: usize|
                    self.pattern().edge_seq().contains(e) && enters(
                        self.pattern().directed(),
                        #[trigger] self.pattern().endpoints(e),
                        n,
                    ) && self.pattern().endpoints(e).0 == s;
                assert(n_preds@.contains(self.pattern().endpoints(e).0));
                let j = choose|j: int| 0 <= j < n_preds@.len() && n_preds@[j] == s;
                assert(self.mu().dom().contains(n_preds@[j]));
                let k = choose|k: int| 0 <= k < m_preds@.len() && m_preds@[k] == self.mu()[s];
                assert(predecessor_of(self.base(), m, m_preds@[k]));
            }
        }
        true
    }

    /// Tests that every bound successor of `n` in the pattern is bound to a
    /// successor of `m` in the base graph.
    fn check_successor_relation(&self, n: usize, m: usize) -> (r: bool)
        requires
            self.inv(),
            self.pattern().node_seq().contains(n),
            self.base().node_seq().contains(m),
        ensures
            r == self.succs_kept(n, m),
            self.pattern().edge_seq().len() == 0 ==> r,
    {
        let n_succs = outgoing_nodes(self.pattern_graph, n);
        proof {
            if self.pattern().edge_seq().len() == 0 && n_succs@.len() > 0 {
                assert(successor_of(self.pattern(), n, n_succs@[0]));
            }
        }
        let m_succs = outgoing_nodes(self.base_graph, m);
        let mut i: usize = 0;
        while i < n_succs.len()
            invariant
                self.inv(),
                i <= n_succs@.len(),
                self.pattern().edge_seq().len() == 0 ==> n_succs@.len() == 0,
                forall|j: int|
                    0 <= j < n_succs@.len() ==> successor_of(self.pattern(), n, #[trigger] n_succs@[j]),
                forall|e: usize|
                    self.base().edge_seq().contains(e) && leaves(
                        self.base().directed(),
                        self.base().endpoints(e),
                        m,
                    ) ==> m_succs@.contains(#[trigger] self.base().endpoints(e).1),
                forall|j: int|
                    0 <= j < i ==> #[trigger] self.mu().dom().contains(n_succs@[j])
                        ==> m_succs@.contains(self.mu()[n_succs@[j]]),
            decreases n_succs@.len() - i,
        {
            match bimap_get_by_left(&self.core, n_succs[i]) {
                Some(image) => {
                    if !Self::contains_node(&m_succs, image) {
                        proof {
                            let s = n_succs@[i as int];
                            assert(successor_of(self.pattern(), n, s));
                            if self.succs_kept(n, m) {
                                assert(successor_of(self.base(), m, image));
                                let e = choose|e: usize|
                                    self.base().edge_seq().contains(e) && leaves(
                                        self.base().directed(),
                                        #[trigger] self.base().endpoints(e),
                                        m,
                                    ) && self.base().endpoints(e).1 == image;
                                assert(m_succs@.contains(self.base().endpoints(e).1));
                            }
                        }
                        return false;
                    }
                },
                None => {},
            }
            i = i + 1;
        }
        proof {
            assert forall|s: usize|
                successor_of(self.pattern(), n, s) && #[trigger] self.mu().dom().contains(
                    s,
                ) implies successor_of(self.base(), m, self.mu()[s]) by {
                let e = choose|e: usize|
                    self.pattern().edge_seq().contains(e) && leaves(
                        self.pattern().directed(),
                        #[trigger] self.pattern().endpoints(e),
                        n,
                    ) && self.pattern().endpoints(e).1 == s;
                assert(n_succs@.contains(self.pattern().endpoints(e).1));
                let j = choose|j: int| 0 <= j < n_succs@.len() && n_succs@[j] == s;
                assert(self.mu().dom().contains(n_succs@[j]));
                let k = choose|k: int| 0 <= k < m_succs@.len() && m_succs@[k] == self.mu()[s];
                assert(successor_of(self.base(), m, m_succs@[k]));
            }
        }
        true
    }

    /// Tests whether binding `n` to `m`, just made, keeps the correspondence
    /// consistent: the node condition holds, bound neighbours stay neighbours
    /// in the same direction, and the conditions of the edges between them hold.
    fn is_valid_matching(&self, n: usize, m: usize) -> (r: bool)
        requires
            self.inv(),
            self.mu().dom().contains(n),
            self.mu()[n] == m,
        ensures
            r ==> node_fits(self.pattern(), self.base(), n, m),
            r ==> self.edges_fit(n),
            conditions_decide::<NodeWeight, EdgeWeight, NodeCondition, EdgeCondition>(
                self.pattern(),
            ) && node_fits(self.pattern(), self.base(), n, m) && self.preds_kept(n, m)
                && self.succs_kept(n, m) && self.edges_fit(n) ==> r,
            self.pattern().edge_seq().len() == 0 && (forall|w: &NodeWeight, b: bool|
                #[trigger] self.pattern().node_weight_of(n).condition().ensures((w,), b) ==> b)
                ==> r,
    {
        self.check_node_semantics(n, m) && self.check_predecessor_relation(n, m)
            && self.check_successor_relation(n, m) && self.check_edge_semantics(n, m)
    }
    /// When at most one result was added after position `s0`, and every full
    /// consistent extension of `mu` is found there, one was added exactly when
    /// such an extension exists.
    proof fn lemma_added_iff(&self, s0: int, mu: Map<usize, usize>)
        requires
            self.inv(),
            0 <= s0 <= self.found().len() <= s0 + 1,
            conditions_decide::<NodeWeight, EdgeWeight, NodeCondition, EdgeCondition>(
                self.pattern(),
            ) ==> forall|mu_star: Map<usize, usize>|
                #[trigger] full_fit(self.pattern(), self.base(), mu_star) && extends(mu_star, mu)
                    ==> covers(self.pattern(), self.base(), self.found(), s0, mu_star),
            forall|k: int|
                s0 <= k < self.found().len() ==> extends(
                    #[trigger] self.result_bindings()[k],
                    mu,
                ),
        ensures
            conditions_decide::<NodeWeight, EdgeWeight, NodeCondition, EdgeCondition>(
                self.pattern(),
            ) ==> (self.found().len() == s0 + 1 <==> exists|mu_star: Map<usize, usize>|
                full_fit(self.pattern(), self.base(), mu_star) && extends(mu_star, mu)),
    {
        let p = self.pattern();
        let b = self.base();
        if self.found().len() == s0 + 1 {
            let mu_star = self.result_bindings()[s0];
            assert(binds(p, b, mu_star, &self.found()[s0]));
            assert(extends(mu_star, mu));
            assert(full_fit(p, b, mu_star));
        }
        if conditions_decide::<NodeWeight, EdgeWeight, NodeCondition, EdgeCondition>(p) {
            if exists|mu_star: Map<usize, usize>| full_fit(p, b, mu_star) && extends(mu_star, mu) {
                let mu_star = choose|mu_star: Map<usize, usize>|
                    full_fit(p, b, mu_star) && extends(mu_star, mu);
                assert(covers(p, b, self.found(), s0, mu_star));
            }
        }
    }

    /// Every full consistent extension of the correspondence binds the chosen
    /// pattern node to one of the candidates.
    pub open spec fn complete_choice(&self, pat_node: Option<usize>, candidates: Seq<usize>) -> bool {
        forall|mu_star: Map<usize, usize>|
            #[trigger] full_fit(self.pattern(), self.base(), mu_star) && extends(
                mu_star,
                self.mu(),
            ) ==> (pat_node matches Some(n) ==> candidates.contains(mu_star[n]))
    }

    /// An extension binds an unbound pattern node to an unbound base node.
    proof fn lemma_fresh_image(&self, n: usize, mu_star: Map<usize, usize>)
        requires
            self.inv(),
            self.pattern().node_seq().contains(n),
            !self.mu().dom().contains(n),
            full_fit(self.pattern(), self.base(), mu_star),
            extends(mu_star, self.mu()),
        ensures
            self.base().node_seq().contains(mu_star[n]),
            !has_right(self.mu(), mu_star[n]),
    {
        assert(mu_star.dom().contains(n));
        if has_right(self.mu(), mu_star[n]) {
            let l = choose|l: usize| self.mu().dom().contains(l) && #[trigger] self.mu()[l] == mu_star[n];
            assert(mu_star.dom().contains(l) && mu_star[l] == self.mu()[l]);
        }
    }

    /// An unbound successor of a bound pattern node is bound, in any
    /// extension, to a base node recorded as a successor.
    proof fn lemma_out_candidate(&self, n: usize, mu_star: Map<usize, usize>)
        requires
            self.inv(),
            self.tracks(),
            self.out_p().dom().contains(n),
            !self.mu().dom().contains(n),
            full_fit(self.pattern(), self.base(), mu_star),
            extends(mu_star, self.mu()),
        ensures
            self.out_b().dom().contains(mu_star[n]),
    {
        let p = self.pattern();
        let b = self.base();
        let near_p = |u: usize, k: usize| successor_of(p, u, k);
        let near_b = |u: usize, k: usize| successor_of(b, u, k);
        let u = choose|u: usize| self.mu().dom().contains(u) && #[trigger] near_p(u, n);
        assert(successor_of(p, u, n));
        let e = choose|e: usize|
            p.edge_seq().contains(e) && leaves(p.directed(), #[trigger] p.endpoints(e), u)
                && p.endpoints(e).1 == n;
        p.lemma_valid_structure();
        assert(p.node_seq().contains(p.endpoints(e).0));
        assert(p.node_seq().contains(p.endpoints(e).1));
        assert(mu_star.dom().contains(u) && mu_star.dom().contains(n));
        let e2 = choose|e2: usize| edge_fits(p, b, mu_star, e, e2);
        assert(b.endpoints(e2) == (mu_star[u], mu_star[n]));
        assert(successor_of(b, mu_star[u], mu_star[n]));
        assert(bound_images(self.mu()).contains(self.mu()[u]));
        assert(near_b(self.mu()[u], mu_star[n]));
    }

    /// An unbound predecessor of a bound pattern node is bound, in any
    /// extension, to a base node recorded as a predecessor.
    proof fn lemma_in_candidate(&self, n: usize, mu_star: Map<usize, usize>)
        requires
            self.inv(),
            self.tracks(),
            self.in_p().dom().contains(n),
            !self.mu().dom().contains(n),
            full_fit(self.pattern(), self.base(), mu_star),
            extends(mu_star, self.mu()),
        ensures
            self.in_b().dom().contains(mu_star[n]),
    {
        let p = self.pattern();
        let b = self.base();
        let near_p = |u: usize, k: usize| predecessor_of(p, u, k);
        let near_b = |u: usize, k: usize| predecessor_of(b, u, k);
        let u = choose|u: usize| self.mu().dom().contains(u) && #[trigger] near_p(u, n);
        assert(predecessor_of(p, u, n));
        let e = choose|e: usize|
            p.edge_seq().contains(e) && enters(p.directed(), #[trigger] p.endpoints(e), u)
                && p.endpoints(e).0 == n;
        p.lemma_valid_structure();
        assert(p.node_seq().contains(p.endpoints(e).0));
        assert(p.node_seq().contains(p.endpoints(e).1));
        assert(mu_star.dom().contains(u) && mu_star.dom().contains(n));
        let e2 = choose|e2: usize| edge_fits(p, b, mu_star, e, e2);
        assert(b.endpoints(e2) == (mu_star[n], mu_star[u]));
        assert(predecessor_of(b, mu_star[u], mu_star[n]));
        assert(bound_images(self.mu()).contains(self.mu()[u]));
        assert(near_b(self.mu()[u], mu_star[n]));
    }

    /// A binding that some full consistent correspondence extends passes
    /// every feasibility test.
    proof fn lemma_valid_when_extendable(&self, n: usize, m: usize, mu_star: Map<usize, usize>)
        requires
            self.inv(),
            self.mu().dom().contains(n),
            self.mu()[n] == m,
            full_fit(self.pattern(), self.base(), mu_star),
            extends(mu_star, self.mu()),
        ensures
            node_fits(self.pattern(), self.base(), n, m),
            self.preds_kept(n, m),
            self.succs_kept(n, m),
            self.edges_fit(n),
    {
        let p = self.pattern();
        let b = self.base();
        let mu = self.mu();
        p.lemma_valid_structure();
        assert(mu_star.dom().contains(n));
        assert forall|s: usize|
            predecessor_of(p, n, s) && #[trigger] mu.dom().contains(s) implies predecessor_of(
            b,
            m,
            mu[s],
        ) by {
            let e = choose|e: usize|
                p.edge_seq().contains(e) && enters(p.directed(), #[trigger] p.endpoints(e), n)
                    && p.endpoints(e).0 == s;
            assert(mu_star.dom().contains(s));
            assert(p.node_seq().contains(p.endpoints(e).1));
            let e2 = choose|e2: usize| edge_fits(p, b, mu_star, e, e2);
            assert(b.endpoints(e2) == (mu[s], m));
        }
        assert forall|s: usize|
            successor_of(p, n, s) && #[trigger] mu.dom().contains(s) implies successor_of(
            b,
            m,
            mu[s],
        ) by {
            let e = choose|e: usize|
                p.edge_seq().contains(e) && leaves(p.directed(), #[trigger] p.endpoints(e), n)
                    && p.endpoints(e).1 == s;
            assert(mu_star.dom().contains(s));
            assert(p.node_seq().contains(p.endpoints(e).0));
            let e2 = choose|e2: usize| edge_fits(p, b, mu_star, e, e2);
            assert(b.endpoints(e2) == (m, mu[s]));
        }
        assert forall|e: usize|
            #![trigger p.endpoints(e)]
            p.edge_seq().contains(e) && (p.endpoints(e).0 == n || p.endpoints(e).1 == n)
                && mu.dom().contains(p.endpoints(e).0) && mu.dom().contains(p.endpoints(e).1)
                implies exists|e2: usize| edge_fits(p, b, mu, e, e2) by {
            let e2 = choose|e2: usize| edge_fits(p, b, mu_star, e, e2);
            assert(edge_fits(p, b, mu, e, e2));
        }
    }

    /// Unassigning what was assigned at `depth` restores the maps that all
    /// held entries recorded below `depth`.
    proof fn lemma_restored(&self, before: &Self, assigned: &Self, n: usize, m: usize, depth: usize)
        requires
            before.tracks(),
            before.mu().dom().len() == depth,
            assigned.same_graphs(before),
            self.same_graphs(before),
            recorded(
                before.out_p(),
                assigned.out_p(),
                |k: usize| k == n || successor_of(before.pattern(), n, k),
                depth,
            ),
            recorded(
                before.out_b(),
                assigned.out_b(),
                |k: usize| k == m || successor_of(before.base(), m, k),
                depth,
            ),
            recorded(
                before.in_p(),
                assigned.in_p(),
                |k: usize| k == n || predecessor_of(before.pattern(), n, k),
                depth,
            ),
            recorded(
                before.in_b(),
                assigned.in_b(),
                |k: usize| k == m || predecessor_of(before.base(), m, k),
                depth,
            ),
            unrecorded(
                assigned.out_p(),
                self.out_p(),
                |k: usize| k == n || successor_of(assigned.pattern(), n, k),
                depth,
            ),
            unrecorded(
                assigned.out_b(),
                self.out_b(),
                |k: usize| k == m || successor_of(assigned.base(), m, k),
                depth,
            ),
            unrecorded(
                assigned.in_p(),
                self.in_p(),
                |k: usize| k == n || predecessor_of(assigned.pattern(), n, k),
                depth,
            ),
            unrecorded(
                assigned.in_b(),
                self.in_b(),
                |k: usize| k == m || predecessor_of(assigned.base(), m, k),
                depth,
            ),
        ensures
            self.same_maps(before),
    {
        lemma_unrecord_restores(
            before.out_p(),
            assigned.out_p(),
            self.out_p(),
            |k: usize| k == n || successor_of(before.pattern(), n, k),
            depth,
        );
        lemma_unrecord_restores(
            before.out_b(),
            assigned.out_b(),
            self.out_b(),
            |k: usize| k == m || successor_of(before.base(), m, k),
            depth,
        );
        lemma_unrecord_restores(
            before.in_p(),
            assigned.in_p(),
            self.in_p(),
            |k: usize| k == n || predecessor_of(before.pattern(), n, k),
            depth,
        );
        lemma_unrecord_restores(
            before.in_b(),
            assigned.in_b(),
            self.in_b(),
            |k: usize| k == m || predecessor_of(before.base(), m, k),
            depth,
        );
    }

    /// Builds the result for the current full correspondence and appends
    /// it to the results.
    fn produce_graph(&mut self)
        requires
            old(self).inv(),
            consistent(old(self).pattern(), old(self).base(), old(self).mu()),
            forall|n: usize| #[trigger]
                old(self).pattern().node_seq().contains(n) ==> old(self).mu().dom().contains(n),
        ensures
            final(self).inv(),
            final(self).same_graphs(old(self)),
            final(self).mu() == old(self).mu(),
            old(self).pattern().edge_seq().len() == 0 ==> final(self).found().len() == old(
                self).found().len() + 1,
            prefix_of(old(self).found(), final(self).found()),
            final(self).same_maps(old(self)),
            final(self).found().len() <= old(self).found().len() + 1,
            final(self).found().len() == old(self).found().len() ==> final(self).result_bindings()
                == old(self).result_bindings(),
            final(self).found().len() == old(self).found().len() + 1 ==> final(
                self).result_bindings() == old(self).result_bindings().push(old(self).mu()),
            conditions_decide::<NodeWeight, EdgeWeight, NodeCondition, EdgeCondition>(
                old(self).pattern(),
            ) ==> final(self).found().len() == old(self).found().len() + 1 && binds(
                old(self).pattern(),
                old(self).base(),
                old(self).mu(),
                &final(self).found().last(),
            ),
    {
        let p = self.pattern_graph;
        let b = self.base_graph;
        let ghost mu = self.mu();
        proof {
            p.lemma_valid_structure();
        }
        let nodes = p.nodes();
        let mut node_list: Vec<(usize, &'a NodeWeight)> = Vec::new();
        let mut i: usize = 0;
        while i < nodes.len()
            invariant
                self.inv(),
                consistent(p, b, mu),
                forall|n: usize| #[trigger] p.node_seq().contains(n) ==> mu.dom().contains(n),
                self.mu() == mu,
                p == self.pattern(),
                b == self.base(),
                nodes@ == p.node_seq(),
                nodes@.no_duplicates(),
                i <= nodes@.len(),
                self.found() == old(self).found(),
                keys_of(node_list@).no_duplicates(),
                forall|k: usize| #[trigger]
                    keys_of(node_list@).contains(k) <==> nodes@.take(i as int).contains(k)
                        && !p.node_weight_of(k).hidden(),
                forall|q: int|
                    0 <= q < node_list@.len() ==> *(#[trigger] node_list@[q]).1 == b.node_weight_of(
                        mu[node_list@[q].0],
                    ),
            decreases nodes@.len() - i,
        {
            let n = nodes[i];
            proof {
                assert(nodes@.contains(n) && nodes@[i as int] == n);
                assert(nodes@.take(i + 1) =~= nodes@.take(i as int).push(n));
                lemma_push_contains(nodes@.take(i as int), n);
                if nodes@.take(i as int).contains(n) {
                    let j = choose|j: int| 0 <= j < i && nodes@.take(i as int)[j] == n;
                    assert(nodes@[j] == nodes@[i as int]);
                }
            }
            if p.node_weight(n).should_appear() {
                match bimap_get_by_left(&self.core, n) {
                    Some(m) => {
                        let weight = b.node_weight(m);
                        proof {
                            lemma_push_fresh_key(node_list@, n, weight);
                            lemma_push_contains(keys_of(node_list@), n);
                        }
                        node_list.push((n, weight));
                    },
                    None => {},
                }
            }
            i = i + 1;
        }
        assert(nodes@.take(i as int) =~= nodes@);
        let edges = p.edges();
        let mut edge_list: Vec<(usize, &'a EdgeWeight)> = Vec::new();
        let mut i: usize = 0;
        while i < edges.len()
            invariant
                self.inv(),
                consistent(p, b, mu),
                forall|n: usize| #[trigger] p.node_seq().contains(n) ==> mu.dom().contains(n),
                self.mu() == mu,
                p == self.pattern(),
                b == self.base(),
                edges@ == p.edge_seq(),
                edges@.no_duplicates(),
                forall|e: usize| #[trigger]
                    p.edge_seq().contains(e) ==> p.node_seq().contains(p.endpoints(e).0)
                        && p.node_seq().contains(p.endpoints(e).1),
                i <= edges@.len(),
                self.found() == old(self).found(),
                keys_of(edge_list@).no_duplicates(),
                forall|k: usize| #[trigger]
                    keys_of(edge_list@).contains(k) <==> edges@.take(i as int).contains(k)
                        && !p.edge_weight_of(k).hidden(),
                forall|q: int|
                    0 <= q < edge_list@.len() ==> exists|e2: usize|
                        edge_fits(p, b, mu, (#[trigger] edge_list@[q]).0, e2) && *edge_list@[q].1
                            == b.edge_weight_of(e2),
            decreases edges@.len() - i,
        {
            let e = edges[i];
            proof {
                assert(edges@.contains(e) && edges@[i as int] == e);
                assert(edges@.take(i + 1) =~= edges@.take(i as int).push(e));
                lemma_push_contains(edges@.take(i as int), e);
                if edges@.take(i as int).contains(e) {
                    let j = choose|j: int| 0 <= j < i && edges@.take(i as int)[j] == e;
                    assert(edges@[j] == edges@[i as int]);
                }
            }
            let element = p.edge_weight(e);
            if element.should_appear() {
                let (source, target) = p.adjacent_nodes(e);
                let source_image = bimap_get_by_left(&self.core, source);
                let target_image = bimap_get_by_left(&self.core, target);
                if source_image.is_none() || target_image.is_none() {
                    return ;
                }
                match self.find_matching_edge(source_image.unwrap(), target_image.unwrap(), element) {
                    None => {
                        proof {
                            if conditions_decide::<
                                NodeWeight,
                                EdgeWeight,
                                NodeCondition,
                                EdgeCondition,
                            >(p) {
                                assert(p.edge_seq().contains(e));
                                let e2 = choose|e2: usize| edge_fits(p, b, mu, e, e2);
                                assert(b.endpoints(e2) == (mu[source], mu[target]));
                                assert(decides::<EdgeWeight, EdgeCondition>(
                                    p.edge_weight_of(e).condition(),
                                ));
                            }
                        }
                        return ;
                    },
                    Some(e2) => {
                        let weight = b.edge_weight(e2);
                        proof {
                            lemma_push_fresh_key(edge_list@, e, weight);
                            lemma_push_contains(keys_of(edge_list@), e);
                            assert(edge_fits(p, b, mu, e, e2));
                        }
                        edge_list.push((e, weight));
                        proof {
                            let q = edge_list@.len() - 1;
                            assert(edge_list@[q] == (e, weight));
                        }
                    },
                }
            }
            i = i + 1;
        }
        assert(edges@.take(i as int) =~= edges@);
        let result = FilterMap::new(p, node_list, edge_list);
        proof {
            assert forall|n: usize| #[trigger]
                result.node_seq().contains(n) implies *result.node_weight_of(n) == b.node_weight_of(
                mu[n],
            ) by {
                let q = choose|q: int|
                    0 <= q < keys_of(result.node_entries()).len() && keys_of(
                        result.node_entries(),
                    )[q] == n;
                lemma_value_at(result.node_entries(), q);
                assert(result.node_entries()[q].0 == n);
            }
            assert forall|e: usize| #[trigger]
                result.edge_seq().contains(e) implies exists|e2: usize|
                edge_fits(p, b, mu, e, e2) && *result.edge_weight_of(e) == b.edge_weight_of(e2) by {
                let q = choose|q: int|
                    0 <= q < keys_of(result.edge_entries()).len() && keys_of(
                        result.edge_entries(),
                    )[q] == e;
                lemma_value_at(result.edge_entries(), q);
                assert(result.edge_entries()[q].0 == e);
                assert(edge_list@[q] == result.edge_entries()[q]);
            }
            assert(binds(p, b, mu, &result));
        }
        self.results.push(result);
        self.bindings = Ghost(self.bindings@.push(mu));
        proof {
            assert forall|i: int|
                0 <= i < self.results@.len() implies is_match(
                self.pattern_graph,
                self.base_graph,
                #[trigger] &self.results@[i],
            ) by {
                if i == self.results@.len() - 1 {
                    assert(self.results@[i] == result);
                    assert(binds(p, b, mu, &self.results@[i]));
                } else {
                    assert(self.results@[i] == old(self).results@[i]);
                }
            }
            assert(self.found().last() == result);
        }
    }
    /// Extends the correspondence, bound at `depth` pattern nodes, in every
    /// consistent way, recording a result for each full one. Returns the
    /// depth to fall back to: once a full correspondence is recorded, the
    /// remaining choices for hidden nodes are skipped.
    fn find_subgraphs(&mut self, depth: usize) -> (r: usize)
        requires
            old(self).inv(),
            consistent(old(self).pattern(), old(self).base(), old(self).mu()),
            old(self).mu().dom().len() == depth,
            depth <= old(self).pattern().node_seq().len(),
            old(self).tracks(),
            visible_among(old(self).pattern(), old(self).pattern().node_seq()).finite(),
            old(self).visible_count() == visible_among(
                old(self).pattern(),
                old(self).pattern().node_seq(),
            ).len(),
            depth <= old(self).visible_count() ==> old(self).mu().dom().subset_of(
                visible_among(old(self).pattern(), old(self).pattern().node_seq()),
            ),
            depth >= old(self).visible_count() ==> visible_among(
                old(self).pattern(),
                old(self).pattern().node_seq(),
            ).subset_of(old(self).mu().dom()),
        ensures
            final(self).inv(),
            final(self).same_graphs(old(self)),
            final(self).mu() == old(self).mu(),
            final(self).same_maps(old(self)),
            depth == old(self).pattern().node_seq().len() && old(self).pattern().edge_seq().len()
                == 0 ==> final(self).found().len() == old(self).found().len() + 1
                && r == old(self).visible_count(),
            single_accept_all::<NodeWeight, EdgeWeight, NodeCondition, EdgeCondition>(
                old(self).pattern(),
            ) && depth == 0 && old(self).untouched() && old(self).visible_count() >= 1
                ==> final(self).found().len() == old(self).found().len() + old(
                self).base().node_seq().len(),
            prefix_of(old(self).found(), final(self).found()),
            prefix_of(old(self).result_bindings(), final(self).result_bindings()),
            forall|i: int, j: int|
                old(self).found().len() <= i < j < final(self).found().len()
                    ==> #[trigger] differ_on_visible(
                    old(self).pattern(),
                    final(self).result_bindings()[i],
                    final(self).result_bindings()[j],
                ),
            forall|k: int|
                old(self).found().len() <= k < final(self).found().len() ==> extends(
                    #[trigger] final(self).result_bindings()[k],
                    old(self).mu(),
                ),
            depth >= old(self).visible_count() ==> final(self).found().len() <= old(
                self).found().len() + 1 && (final(self).found().len() == old(self).found().len() + 1
                ==> r == old(self).visible_count()),
            r <= depth,
            conditions_decide::<NodeWeight, EdgeWeight, NodeCondition, EdgeCondition>(
                old(self).pattern(),
            ) && depth >= old(self).visible_count() ==> (final(self).found().len() == old(
                self).found().len() + 1 <==> exists|mu_star: Map<usize, usize>|
                full_fit(old(self).pattern(), old(self).base(), mu_star) && extends(
                    mu_star,
                    old(self).mu(),
                )),
            conditions_decide::<NodeWeight, EdgeWeight, NodeCondition, EdgeCondition>(
                old(self).pattern(),
            ) && r != depth ==> r == old(self).visible_count() && covers(
                old(self).pattern(),
                old(self).base(),
                final(self).found(),
                old(self).found().len() as int,
                old(self).mu(),
            ),
            conditions_decide::<NodeWeight, EdgeWeight, NodeCondition, EdgeCondition>(
                old(self).pattern(),
            ) ==> forall|mu_star: Map<usize, usize>|
                #[trigger] full_fit(old(self).pattern(), old(self).base(), mu_star) && extends(
                    mu_star,
                    old(self).mu(),
                ) ==> covers(
                    old(self).pattern(),
                    old(self).base(),
                    final(self).found(),
                    old(self).found().len() as int,
                    mu_star,
                ),
        decreases old(self).pattern().node_seq().len() - depth,
    {
        let ghost mu = self.mu();
        let ghost s0: int = self.found().len() as int;
        let ghost single = single_accept_all::<NodeWeight, EdgeWeight, NodeCondition, EdgeCondition>(
            self.pattern(),
        ) && depth == 0 && self.untouched() && self.visible_count() >= 1;
        proof {
            if single {
                mu.dom().lemma_len0_is_empty();
            }
        }
        let count = self.pattern_graph.count_nodes();
        if depth == count {
            proof {
                self.pattern_graph.lemma_valid_structure();
                lemma_full_domain(mu.dom(), self.pattern().node_seq());
            }
            let ghost before = *self;
            self.produce_graph();
            proof {
                let p = self.pattern();
                let b = self.base();
                if conditions_decide::<NodeWeight, EdgeWeight, NodeCondition, EdgeCondition>(p) {
                    let last = self.found().len() - 1;
                    assert(self.found()[last] == self.found().last());
                    assert(binds(p, b, mu, &self.found()[last]));
                    assert(agrees_on_visible(p, mu, mu));
                    assert(covers(p, b, self.found(), s0, mu));
                    assert forall|mu_star: Map<usize, usize>|
                        #[trigger] full_fit(p, b, mu_star) && extends(mu_star, mu) implies covers(
                        p,
                        b,
                        self.found(),
                        s0,
                        mu_star,
                    ) by {
                        assert(agrees_on_visible(p, mu, mu_star));
                        assert(binds(p, b, mu, &self.found()[last]));
                    }
                }
            }
            proof {
                let p = self.pattern();
                let vis = visible_among(p, p.node_seq());
                p.node_seq().unique_seq_to_set();
                assert(vis.subset_of(p.node_seq().to_set()));
                vstd::set_lib::lemma_len_subset(vis, p.node_seq().to_set());
                self.lemma_added_iff(s0, mu);
            }
            self.nodes_to_take
        } else {
            let find_ignored = depth >= self.nodes_to_take;
            let found = self.find_unmatched_neighbors(&self.out_1, &self.out_2, find_ignored);
            proof {
                assert forall|mu_star: Map<usize, usize>|
                    #[trigger] full_fit(self.pattern(), self.base(), mu_star) && extends(
                        mu_star,
                        self.mu(),
                    ) implies (found.0 matches Some(n) ==> found.1@.contains(mu_star[n])) by {
                    if let Some(n) = found.0 {
                        self.lemma_fresh_image(n, mu_star);
                        self.lemma_out_candidate(n, mu_star);
                    }
                }
            }
            let mut pat_node = found.0;
            let mut base_nodes = found.1;
            if pat_node.is_none() || base_nodes.len() == 0 {
                let found = self.find_unmatched_neighbors(&self.in_1, &self.in_2, find_ignored);
                proof {
                    assert forall|mu_star: Map<usize, usize>|
                        #[trigger] full_fit(self.pattern(), self.base(), mu_star) && extends(
                            mu_star,
                            self.mu(),
                        ) implies (found.0 matches Some(n) ==> found.1@.contains(mu_star[n])) by {
                        if let Some(n) = found.0 {
                            self.lemma_fresh_image(n, mu_star);
                            self.lemma_in_candidate(n, mu_star);
                        }
                    }
                }
                pat_node = found.0;
                base_nodes = found.1;
            }
            if pat_node.is_none() || base_nodes.len() == 0 {
                let found = self.find_unmatched_unconnected_nodes();
                proof {
                    assert forall|mu_star: Map<usize, usize>|
                        #[trigger] full_fit(self.pattern(), self.base(), mu_star) && extends(
                            mu_star,
                            self.mu(),
                        ) implies (found.0 matches Some(n) ==> found.1@.contains(mu_star[n])) by {
                        if let Some(n) = found.0 {
                            self.lemma_fresh_image(n, mu_star);
                        }
                    }
                    let vis = visible_among(self.pattern(), self.pattern().node_seq());
                    if depth < self.visible_count() {
                        if vis.subset_of(mu.dom()) {
                            vstd::set_lib::lemma_len_subset(vis, mu.dom());
                        }
                        let c = choose|c: usize| vis.contains(c) && !mu.dom().contains(c);
                        assert(self.pattern().node_seq().contains(c));
                    }
                    if found.0 is None {
                        self.pattern().lemma_valid_structure();
                        self.pattern().node_seq().unique_seq_to_set();
                        assert(self.pattern().node_seq().to_set().subset_of(mu.dom()));
                        vstd::set_lib::lemma_len_subset(self.pattern().node_seq().to_set(), mu.dom());
                    }
                }
                pat_node = found.0;
                base_nodes = found.1;
            }
            assert(self.complete_choice(pat_node, base_nodes@));
            proof {
                if single {
                    assert(self.pattern().node_seq().contains(self.pattern().node_seq()[0]));
                }
            }
            let n = match pat_node {
                Some(n) => n,
                None => {
                    return depth;
                },
            };
            assert(depth < self.visible_count() ==> !self.pattern().node_weight_of(n).hidden());
            proof {
                if single {
                    let k = choose|k: int|
                        0 <= k < self.pattern().node_seq().len() && self.pattern().node_seq()[k]
                            == n;
                    assert(k == 0);
                }
            }
            let ghost start = *self;
            let mut i: usize = 0;
            while i < base_nodes.len()
                invariant
                    self.inv(),
                    self.same_graphs(&start),
                    start.same_graphs(old(self)),
                    self.mu() == mu,
                    mu == old(self).mu(),
                    consistent(self.pattern(), self.base(), mu),
                    mu.dom().len() == depth,
                    depth < self.pattern().node_seq().len(),
                    self.pattern().node_seq().len() == count,
                    self.pattern().node_seq().contains(n),
                    !mu.dom().contains(n),
                    i <= base_nodes@.len(),
                    forall|j: int|
                        0 <= j < base_nodes@.len() ==> self.base().node_seq().contains(
                            #[trigger] base_nodes@[j],
                        ) && !has_right(mu, base_nodes@[j]),
                    start.found() == old(self).found(),
                    single ==> single_accept_all::<
                        NodeWeight,
                        EdgeWeight,
                        NodeCondition,
                        EdgeCondition,
                    >(self.pattern()) && depth == 0 && self.visible_count() >= 1,
                    single ==> base_nodes@ == self.base().node_seq(),
                    single ==> n == self.pattern().node_seq()[0],
                    single ==> self.found().len() == start.found().len() + i,
                    self.same_maps(&start),
                    start.same_maps(old(self)),
                    self.tracks(),
                    visible_among(self.pattern(), self.pattern().node_seq()).finite(),
                    self.visible_count() == visible_among(
                        self.pattern(),
                        self.pattern().node_seq(),
                    ).len(),
                    depth <= self.visible_count() ==> mu.dom().subset_of(
                        visible_among(self.pattern(), self.pattern().node_seq()),
                    ),
                    depth >= self.visible_count() ==> visible_among(
                        self.pattern(),
                        self.pattern().node_seq(),
                    ).subset_of(mu.dom()),
                    depth < self.visible_count() ==> !self.pattern().node_weight_of(n).hidden(),
                    self.complete_choice(Some(n), base_nodes@),
                    prefix_of(start.found(), self.found()),
                    base_nodes@.no_duplicates(),
                    prefix_of(start.result_bindings(), self.result_bindings()),
                    start.found().len() == old(self).found().len(),
                    s0 == old(self).found().len() as int,
                    start.result_bindings() == old(self).result_bindings(),
                    forall|a: int, c: int|
                        start.found().len() <= a < c < self.found().len()
                            ==> #[trigger] differ_on_visible(
                            self.pattern(),
                            self.result_bindings()[a],
                            self.result_bindings()[c],
                        ),
                    forall|k: int|
                        start.found().len() <= k < self.found().len() ==> extends(
                            #[trigger] self.result_bindings()[k],
                            mu,
                        ) && base_nodes@.take(i as int).contains(self.result_bindings()[k][n]),
                    depth >= self.visible_count() ==> self.found().len() == start.found().len(),
                    conditions_decide::<NodeWeight, EdgeWeight, NodeCondition, EdgeCondition>(
                        self.pattern(),
                    ) ==> forall|mu_star: Map<usize, usize>, j: int|
                        #![trigger full_fit(self.pattern(), self.base(), mu_star), base_nodes@[j]]
                        0 <= j < i && full_fit(self.pattern(), self.base(), mu_star) && extends(
                            mu_star,
                            mu,
                        ) && base_nodes@[j] == mu_star[n] ==> covers(
                            self.pattern(),
                            self.base(),
                            self.found(),
                            s0,
                            mu_star,
                        ),
                decreases base_nodes@.len() - i,
            {
                let m = base_nodes[i];
                assert(self.base().node_seq().contains(base_nodes@[i as int]));
                let ghost before = *self;
                self.assign(n, m, depth);
                let ghost assigned = *self;
                proof {
                    let p = before.pattern();
                    let b = before.base();
                    lemma_records_near_insert(
                        before.out_p(),
                        self.out_p(),
                        mu.dom(),
                        n,
                        |u: usize, k: usize| successor_of(p, u, k),
                        |k: usize| k == n || successor_of(p, n, k),
                        depth,
                    );
                    lemma_records_near_insert(
                        before.in_p(),
                        self.in_p(),
                        mu.dom(),
                        n,
                        |u: usize, k: usize| predecessor_of(p, u, k),
                        |k: usize| k == n || predecessor_of(p, n, k),
                        depth,
                    );
                    lemma_records_near_insert(
                        before.out_b(),
                        self.out_b(),
                        bound_images(mu),
                        m,
                        |u: usize, k: usize| successor_of(b, u, k),
                        |k: usize| k == m || successor_of(b, m, k),
                        depth,
                    );
                    lemma_records_near_insert(
                        before.in_b(),
                        self.in_b(),
                        bound_images(mu),
                        m,
                        |u: usize, k: usize| predecessor_of(b, u, k),
                        |k: usize| k == m || predecessor_of(b, m, k),
                        depth,
                    );
                    let mu2 = mu.insert(n, m);
                    assert forall|u: usize| #[trigger]
                        bound_images(mu2).contains(u) == bound_images(mu).insert(m).contains(u) by {
                        if has_right(mu, u) {
                            let l = choose|l: usize| mu.dom().contains(l) && #[trigger] mu[l] == u;
                            assert(mu2.dom().contains(l) && mu2[l] == u);
                        }
                        if u == m {
                            assert(mu2.dom().contains(n) && mu2[n] == m);
                        }
                        if has_right(mu2, u) {
                            let l = choose|l: usize| mu2.dom().contains(l) && #[trigger] mu2[l] == u;
                            if l != n {
                                assert(mu.dom().contains(l) && mu[l] == u);
                            }
                        }
                    }
                    assert(bound_images(mu2) =~= bound_images(mu).insert(m));
                    assert(mu2.dom() =~= mu.dom().insert(n));
                }
                let valid = self.is_valid_matching(n, m);
                proof {
                    if conditions_decide::<NodeWeight, EdgeWeight, NodeCondition, EdgeCondition>(
                        self.pattern(),
                    ) {
                        assert forall|mu_star: Map<usize, usize>|
                            #[trigger] full_fit(self.pattern(), self.base(), mu_star) && extends(
                                mu_star,
                                mu,
                            ) && m == mu_star[n] implies valid by {
                            assert(extends(mu_star, self.mu()));
                            self.lemma_valid_when_extendable(n, m, mu_star);
                        }
                    }
                }
                if valid {
                    proof {
                        lemma_extend_consistent(self.pattern(), self.base(), mu, n, m);
                        let vis = visible_among(self.pattern(), self.pattern().node_seq());
                        let dom2 = mu.insert(n, m).dom();
                        assert(dom2 =~= mu.dom().insert(n));
                        if depth < self.visible_count() {
                            assert(dom2.subset_of(vis));
                            if depth + 1 == self.visible_count() {
                                lemma_subset_full(dom2, vis);
                            }
                        }
                    }
                    let ghost found_before = self.found();
                    let ghost bindings_before = self.result_bindings();
                    let next_node = self.find_subgraphs(depth + 1);
                    proof {
                        let p = self.pattern();
                        let mu2 = mu.insert(n, m);
                        let s0 = start.found().len();
                        assert(mu2.dom().contains(n) && mu2[n] == m);
                        assert(base_nodes@.take(i + 1)[i as int] == m);
                        assert forall|k: int|
                            s0 <= k < self.found().len() implies extends(
                            #[trigger] self.result_bindings()[k],
                            mu,
                        ) && base_nodes@.take(i + 1).contains(self.result_bindings()[k][n]) by {
                            if k < found_before.len() {
                                assert(self.result_bindings()[k] == bindings_before[k]);
                                let x = self.result_bindings()[k][n];
                                let j = choose|j: int|
                                    0 <= j < i && base_nodes@.take(i as int)[j] == x;
                                assert(base_nodes@.take(i + 1)[j] == x);
                            } else {
                                let bk = self.result_bindings()[k];
                                assert(extends(bk, mu2));
                                assert(bk[n] == m);
                                assert forall|x: usize| #[trigger]
                                    mu.dom().contains(x) implies bk.dom().contains(x) && bk[x]
                                    == mu[x] by {
                                    assert(mu2.dom().contains(x) && mu2[x] == mu[x]);
                                }
                            }
                        }
                        assert forall|a: int, c: int|
                            s0 <= a < c < self.found().len() implies #[trigger] differ_on_visible(
                            p,
                            self.result_bindings()[a],
                            self.result_bindings()[c],
                        ) by {
                            if c < found_before.len() {
                                assert(self.result_bindings()[a] == bindings_before[a]);
                                assert(self.result_bindings()[c] == bindings_before[c]);
                            } else if a < found_before.len() {
                                assert(self.result_bindings()[a] == bindings_before[a]);
                                assert(extends(self.result_bindings()[c], mu2));
                                let x = self.result_bindings()[a][n];
                                let j = choose|j: int|
                                    0 <= j < i && base_nodes@.take(i as int)[j] == x;
                                assert(base_nodes@[j] == x);
                                assert(base_nodes@[i as int] == m);
                                assert(self.result_bindings()[a][n] != self.result_bindings()[c][n]);
                            }
                        }
                    }
                    proof {
                        let p = self.pattern();
                        let b = self.base();
                        if conditions_decide::<NodeWeight, EdgeWeight, NodeCondition, EdgeCondition>(
                            p,
                        ) {
                            assert forall|mu_star: Map<usize, usize>, j: int|
                                #![trigger full_fit(p, b, mu_star), base_nodes@[j]]
                                0 <= j < i + 1 && full_fit(p, b, mu_star) && extends(mu_star, mu)
                                    && base_nodes@[j] == mu_star[n] implies covers(
                                p,
                                b,
                                self.found(),
                                s0,
                                mu_star,
                            ) by {
                                if j < i {
                                    lemma_covers_prefix(p, b, found_before, self.found(), s0, mu_star);
                                } else {
                                    assert(mu_star.dom().contains(n));
                                    assert(extends(mu_star, mu.insert(n, m)));
                                    lemma_covers_earlier(
                                        p,
                                        b,
                                        self.found(),
                                        found_before.len() as int,
                                        s0,
                                        mu_star,
                                    );
                                }
                            }
                        }
                    }
                    if next_node == self.nodes_to_take && next_node <= depth {
                        self.unassign(n, m, depth);
                        proof {
                            assert(mu.insert(n, m).remove(n) =~= mu);
                            self.lemma_restored(&before, &assigned, n, m, depth);
                            let p = self.pattern();
                            let b = self.base();
                            if conditions_decide::<
                                NodeWeight,
                                EdgeWeight,
                                NodeCondition,
                                EdgeCondition,
                            >(p) {
                                let mu2 = mu.insert(n, m);
                                let (k, mu3) = choose|k: int, mu3: Map<usize, usize>|
                                    found_before.len() <= k < self.found().len() && #[trigger] binds(
                                        p,
                                        b,
                                        mu3,
                                        &self.found()[k],
                                    ) && agrees_on_visible(p, mu3, mu2);
                                assert(agrees_on_visible(p, mu3, mu));
                                assert(covers(p, b, self.found(), s0, mu));
                                assert forall|mu_star: Map<usize, usize>|
                                    #[trigger] full_fit(p, b, mu_star) && extends(mu_star, mu)
                                        implies covers(p, b, self.found(), s0, mu_star) by {
                                    assert forall|v: usize|
                                        #[trigger] mu_star.dom().contains(v) && !p.node_weight_of(
                                            v,
                                        ).hidden() implies mu3.dom().contains(v) && mu3[v]
                                        == mu_star[v] by {
                                        assert(visible_among(p, p.node_seq()).contains(v));
                                        assert(mu.dom().contains(v));
                                        assert(mu2.dom().contains(v));
                                    }
                                    assert(agrees_on_visible(p, mu3, mu_star));
                                    assert(binds(p, b, mu3, &self.found()[k]));
                                }
                            }
                        }
                        proof {
                            if depth >= self.visible_count() {
                                self.lemma_added_iff(s0, mu);
                            }
                        }
                        return next_node;
                    }
                }
                self.unassign(n, m, depth);
                proof {
                    assert(mu.insert(n, m).remove(n) =~= mu);
                    self.lemma_restored(&before, &assigned, n, m, depth);
                    assert forall|k: int|
                        start.found().len() <= k < self.found().len() implies extends(
                        #[trigger] self.result_bindings()[k],
                        mu,
                    ) && base_nodes@.take(i + 1).contains(self.result_bindings()[k][n]) by {
                        if !valid {
                            let x = self.result_bindings()[k][n];
                            let j = choose|j: int| 0 <= j < i && base_nodes@.take(i as int)[j] == x;
                            assert(base_nodes@.take(i + 1)[j] == x);
                        }
                    }
                }
                i = i + 1;
            }
            proof {
                let p = self.pattern();
                let b = self.base();
                if conditions_decide::<NodeWeight, EdgeWeight, NodeCondition, EdgeCondition>(p) {
                    assert forall|mu_star: Map<usize, usize>|
                        #[trigger] full_fit(p, b, mu_star) && extends(mu_star, mu) implies covers(
                        p,
                        b,
                        self.found(),
                        s0,
                        mu_star,
                    ) by {
                        assert(base_nodes@.contains(mu_star[n]));
                        let j = choose|j: int|
                            0 <= j < base_nodes@.len() && base_nodes@[j] == mu_star[n];
                        assert(base_nodes@[j] == mu_star[n]);
                    }
                }
            }
            proof {
                if depth >= self.visible_count() {
                    self.lemma_added_iff(s0, mu);
                }
            }
            depth
        }
    }

    /// Creates the search state for `pattern_graph` and `base_graph`, with
    /// no node bound and no result.
    fn init(pattern_graph: &'a PatternGraph<NodeCondition, EdgeCondition>, base_graph: &'a B) -> (r:
        Self)
        requires
            pattern_wf::<NodeWeight, EdgeWeight, NodeCondition, EdgeCondition>(pattern_graph),
            base_graph.valid(),
            base_graph.directed(),
        ensures
            r.inv(),
            r.pattern() == pattern_graph,
            r.base() == base_graph,
            r.found().len() == 0,
            r.mu().dom() == Set::<usize>::empty(),
            r.untouched(),
            r.tracks(),
            forall|n: usize| #[trigger]
                pattern_graph.node_seq().contains(n) && !pattern_graph.node_weight_of(n).hidden()
                    ==> r.visible_count() >= 1,
            visible_among(pattern_graph, pattern_graph.node_seq()).finite(),
            r.visible_count() == visible_among(pattern_graph, pattern_graph.node_seq()).len(),
    {
        let nodes = pattern_graph.nodes();
        proof {
            pattern_graph.lemma_valid_structure();
            assert(visible_among(pattern_graph, nodes@.take(0)) =~= Set::<usize>::empty());
        }
        let mut nodes_to_take: usize = 0;
        let mut i: usize = 0;
        while i < nodes.len()
            invariant
                pattern_wf::<NodeWeight, EdgeWeight, NodeCondition, EdgeCondition>(pattern_graph),
                nodes@ == pattern_graph.node_seq(),
                i <= nodes@.len(),
                nodes_to_take <= i,
                nodes@.no_duplicates(),
                forall|j: int|
                    0 <= j < i && !pattern_graph.node_weight_of(#[trigger] nodes@[j]).hidden()
                        ==> nodes_to_take >= 1,
                visible_among(pattern_graph, nodes@.take(i as int)).finite(),
                nodes_to_take == visible_among(pattern_graph, nodes@.take(i as int)).len(),
            decreases nodes@.len() - i,
        {
            let ghost n = nodes@[i as int];
            assert(nodes@.contains(n));
            proof {
                assert(nodes@.take(i + 1) =~= nodes@.take(i as int).push(n));
                lemma_push_contains(nodes@.take(i as int), n);
                if nodes@.take(i as int).contains(n) {
                    let j = choose|j: int| 0 <= j < i && nodes@.take(i as int)[j] == n;
                    assert(nodes@[j] == nodes@[i as int]);
                }
                if pattern_graph.node_weight_of(n).hidden() {
                    assert(visible_among(pattern_graph, nodes@.take(i + 1)) =~= visible_among(
                        pattern_graph,
                        nodes@.take(i as int),
                    ));
                } else {
                    assert(visible_among(pattern_graph, nodes@.take(i + 1)) =~= visible_among(
                        pattern_graph,
                        nodes@.take(i as int),
                    ).insert(n));
                }
            }
            if pattern_graph.node_weight(nodes[i]).should_appear() {
                nodes_to_take = nodes_to_take + 1;
            }
            i = i + 1;
        }
        assert(nodes@.take(i as int) =~= nodes@);
        proof {
            assert forall|n: usize| #[trigger]
                pattern_graph.node_seq().contains(n) && !pattern_graph.node_weight_of(n).hidden()
                    implies nodes_to_take >= 1 by {
                let j = choose|j: int| 0 <= j < nodes@.len() && nodes@[j] == n;
                assert(nodes@[j] == n);
            }
        }
        VfState {
            pattern_graph,
            base_graph,
            results: Vec::new(),
            core: bimap_new(),
            out_1: HashMap::new(),
            out_2: HashMap::new(),
            in_1: HashMap::new(),
            in_2: HashMap::new(),
            nodes_to_take,
            bindings: Ghost(Seq::empty()),
        }
    }

    /// Runs the search, unless the pattern is empty or larger than the base
    /// graph in nodes or edges.
    fn run_query(&mut self)
        requires
            old(self).inv(),
            old(self).mu().dom() == Set::<usize>::empty(),
            old(self).untouched(),
            old(self).tracks(),
            old(self).found().len() == 0,
            visible_among(old(self).pattern(), old(self).pattern().node_seq()).finite(),
            old(self).visible_count() == visible_among(
                old(self).pattern(),
                old(self).pattern().node_seq(),
            ).len(),
            forall|n: usize| #[trigger]
                old(self).pattern().node_seq().contains(n) && !old(self).pattern().node_weight_of(
                    n,
                ).hidden() ==> old(self).visible_count() >= 1,
        ensures
            final(self).inv(),
            final(self).same_graphs(old(self)),
            single_accept_all::<NodeWeight, EdgeWeight, NodeCondition, EdgeCondition>(
                old(self).pattern(),
            ) ==> final(self).found().len() == old(self).found().len() + old(
                self).base().node_seq().len(),
            (old(self).pattern().node_seq().len() == 0 || old(self).pattern().node_seq().len()
                > old(self).base().node_seq().len() || old(self).pattern().edge_seq().len() > old(
                self,
            ).base().edge_seq().len()) ==> final(self).found() == old(self).found(),
            conditions_decide::<NodeWeight, EdgeWeight, NodeCondition, EdgeCondition>(
                old(self).pattern(),
            ) && 0 < old(self).pattern().node_seq().len() <= old(self).base().node_seq().len()
                && old(self).pattern().edge_seq().len() <= old(self).base().edge_seq().len()
                ==> finds_all(old(self).pattern(), old(self).base(), final(self).found()),
            distinct_matches(old(self).pattern(), old(self).base(), final(self).found()),
    {
        if self.pattern_graph.count_nodes() == 0 || self.pattern_graph.count_nodes()
            > self.base_graph.count_nodes() || self.pattern_graph.count_edges()
            > self.base_graph.count_edges() {
            proof {
                let p = self.pattern();
                let b = self.base();
                let mus = Seq::<Map<usize, usize>>::empty();
                assert(mus.len() == self.found().len());
            }
            return ;
        }
        proof {
            assert(self.mu().dom().len() == 0);
            if self.visible_count() == 0 {
                visible_among(self.pattern(), self.pattern().node_seq()).lemma_len0_is_empty();
            }
            if single_accept_all::<NodeWeight, EdgeWeight, NodeCondition, EdgeCondition>(
                self.pattern(),
            ) {
                assert(self.pattern().node_seq().contains(self.pattern().node_seq()[0]));
            }
        }
        let ghost before = *self;
        let _ = self.find_subgraphs(0);
        proof {
            let p = self.pattern();
            let b = self.base();
            if conditions_decide::<NodeWeight, EdgeWeight, NodeCondition, EdgeCondition>(p) {
                assert forall|mu_star: Map<usize, usize>| #[trigger]
                    full_fit(p, b, mu_star) implies covers(p, b, self.found(), 0, mu_star) by {
                    assert(extends(mu_star, before.mu()));
                }
            }
            let mus = self.result_bindings();
            assert(mus.len() == self.found().len());
            assert forall|i: int|
                0 <= i < self.found().len() implies binds(p, b, #[trigger] mus[i], &self.found()[i]) by {
                assert(binds(self.pattern_graph, self.base_graph, self.bindings@[i], &self.results@[i]));
            }
            assert forall|i: int, j: int|
                0 <= i < j < self.found().len() implies #[trigger] differ_on_visible(
                p,
                mus[i],
                mus[j],
            ) by {
                assert(differ_on_visible(p, self.result_bindings()[i], self.result_bindings()[j]));
            }
        }
    }
}

/// An algorithm that finds the subgraphs of a base graph that match a
/// pattern graph.
pub trait SubgraphAlgorithm<'a, NodeWeight, EdgeWeight, NodeCondition, EdgeCondition, B> where
    NodeCondition: Fn(&NodeWeight) -> bool,
    EdgeCondition: Fn(&EdgeWeight) -> bool,
    B: Graph<NodeWeight, EdgeWeight>,
 {
    /// Finds all subgraphs of `base_graph` that match `pattern_graph`.
    ///
    /// Each result is a match: a view of the pattern holding its visible
    /// elements, weighted with base-graph weights under an injective
    /// correspondence that satisfies every condition of the pattern. No two
    /// results come from correspondences that bind the visible nodes alike.
    /// An empty pattern, or one larger than the base graph in nodes or edges,
    /// has none. Otherwise, when every condition decides, every consistent
    /// correspondence is represented by a result that binds the visible nodes
    /// as it does. A pattern of one visible node that accepts every weight has
    /// one match per base node.
    fn eval(
        pattern_graph: &'a PatternGraph<NodeCondition, EdgeCondition>,
        base_graph: &'a B,
    ) -> (r: Vec<MatchedGraph<'a, NodeWeight, EdgeWeight, NodeCondition, EdgeCondition>>)
        requires
            pattern_wf::<NodeWeight, EdgeWeight, NodeCondition, EdgeCondition>(pattern_graph),
            base_graph.valid(),
            base_graph.directed(),
        ensures
            forall|i: int| 0 <= i < r@.len() ==> is_match(pattern_graph, base_graph, #[trigger] &r@[i]),
            pattern_graph.node_seq().len() == 0 || pattern_graph.node_seq().len()
                > base_graph.node_seq().len() || pattern_graph.edge_seq().len()
                > base_graph.edge_seq().len() ==> r@.len() == 0,
            single_accept_all::<NodeWeight, EdgeWeight, NodeCondition, EdgeCondition>(pattern_graph)
                ==> r@.len() == base_graph.node_seq().len(),
            distinct_matches(pattern_graph, base_graph, r@),
            conditions_decide::<NodeWeight, EdgeWeight, NodeCondition, EdgeCondition>(pattern_graph)
                && 0 < pattern_graph.node_seq().len() <= base_graph.node_seq().len()
                && pattern_graph.edge_seq().len() <= base_graph.edge_seq().len() ==> finds_all(
                pattern_graph,
                base_graph,
                r@,
            ),
    ;
}

impl<'a, NodeWeight, EdgeWeight, NodeCondition, EdgeCondition, B> SubgraphAlgorithm<
    'a,
    NodeWeight,
    EdgeWeight,
    NodeCondition,
    EdgeCondition,
    B,
> for VfState<'a, NodeWeight, EdgeWeight, NodeCondition, EdgeCondition, B> where
    NodeCondition: Fn(&NodeWeight) -> bool,
    EdgeCondition: Fn(&EdgeWeight) -> bool,
    B: Graph<NodeWeight, EdgeWeight>,
 {
    fn eval(
        pattern_graph: &'a PatternGraph<NodeCondition, EdgeCondition>,
        base_graph: &'a B,
    ) -> (r: Vec<MatchedGraph<'a, NodeWeight, EdgeWeight, NodeCondition, EdgeCondition>>)
    {
        let mut vfstate = Self::init(pattern_graph, base_graph);
        vfstate.run_query();
        proof {
            assert forall|i: int| 0 <= i < vfstate.results@.len() implies is_match(
                pattern_graph,
                base_graph,
                #[trigger] &vfstate.results@[i],
            ) by {
                assert(is_match(vfstate.pattern_graph, vfstate.base_graph, &vfstate.results@[i]));
            }
        }
        vfstate.results
    }
}

/// Finds all subgraphs of `base_graph` that match `pattern_graph`, with the
/// search of `VfState` (see `SubgraphAlgorithm::eval`).
pub fn solve_vf<'a, NodeWeight, EdgeWeight, NodeCondition, EdgeCondition, B>(
    pattern_graph: &'a PatternGraph<NodeCondition, EdgeCondition>,
    base_graph: &'a B,
) -> (r: Vec<MatchedGraph<'a, NodeWeight, EdgeWeight, NodeCondition, EdgeCondition>>) where
    NodeCondition: Fn(&NodeWeight) -> bool,
    EdgeCondition: Fn(&EdgeWeight) -> bool,
    B: Graph<NodeWeight, EdgeWeight>,

    requires
        pattern_wf::<NodeWeight, EdgeWeight, NodeCondition, EdgeCondition>(pattern_graph),
        base_graph.valid(),
        base_graph.directed(),
    ensures
        forall|i: int| 0 <= i < r@.len() ==> is_match(pattern_graph, base_graph, #[trigger] &r@[i]),
        pattern_graph.node_seq().len() == 0 || pattern_graph.node_seq().len()
            > base_graph.node_seq().len() || pattern_graph.edge_seq().len()
            > base_graph.edge_seq().len() ==> r@.len() == 0,
        single_accept_all::<NodeWeight, EdgeWeight, NodeCondition, EdgeCondition>(pattern_graph)
            ==> r@.len() == base_graph.node_seq().len(),
        distinct_matches(pattern_graph, base_graph, r@),
        conditions_decide::<NodeWeight, EdgeWeight, NodeCondition, EdgeCondition>(pattern_graph)
            && 0 < pattern_graph.node_seq().len() <= base_graph.node_seq().len()
            && pattern_graph.edge_seq().len() <= base_graph.edge_seq().len() ==> finds_all(
            pattern_graph,
            base_graph,
            r@,
        ),
{
    VfState::eval(pattern_graph, base_graph)
}

} // verus!
