use vstd::prelude::*;
use crate::graph::Graph;
use crate::vec_graph::VecGraph;

verus! {

/// The weight of a pattern node or edge: a condition on the weight of a
/// base-graph element, and whether a match for it is left out of results.
pub struct PatternElement<Condition> {
    condition: Condition,
    ignore: bool,
}

impl<Condition> PatternElement<Condition> {
    /// The condition that a matched base-graph weight must satisfy.
    pub closed spec fn condition(&self) -> Condition {
        self.condition
    }

    /// Whether the element is hidden: required, but omitted from results.
    pub closed spec fn hidden(&self) -> bool {
        self.ignore
    }

    /// Creates a pattern element; with `ignore` set it is hidden.
    pub fn new(condition: Condition, ignore: bool) -> (r: Self)
        ensures
            r.condition() == condition,
            r.hidden() == ignore,
    {
        PatternElement { condition, ignore }
    }

    /// Whether a match for this element appears in results.
    pub fn should_appear(&self) -> (r: bool)
        ensures
            r == !self.hidden(),
    {
        !self.ignore
    }

    /// Tests the condition against a base-graph weight.
    pub fn may_match<Weight>(&self, element: &Weight) -> (r: bool) where
        Condition: Fn(&Weight) -> bool,

        requires
            self.condition().requires((element,)),
        ensures
            self.condition().ensures((element,), r),
    {
        (self.condition)(element)
    }
}

/// A pattern element, under the name that queries give it: a condition and
/// a visibility flag.
pub type Matcher<Condition> = PatternElement<Condition>;

/// A pattern graph: a directed graph whose weights are pattern elements.
pub type PatternGraph<NodeCondition, EdgeCondition> = VecGraph<
    PatternElement<NodeCondition>,
    PatternElement<EdgeCondition>,
>;

/// A well-formed pattern over base weights `NodeWeight` and `EdgeWeight`:
/// directed, every condition can be called on every weight, and both
/// endpoints of each visible edge are visible.
pub open spec fn pattern_wf<NodeWeight, EdgeWeight, NodeCondition, EdgeCondition>(
    p: &PatternGraph<NodeCondition, EdgeCondition>,
) -> bool where
    NodeCondition: Fn(&NodeWeight) -> bool,
    EdgeCondition: Fn(&EdgeWeight) -> bool,
 {
    &&& p.valid()
    &&& p.directed()
    &&& forall|n: usize, w: &NodeWeight|
        p.node_seq().contains(n) ==> #[trigger] p.node_weight_of(n).condition().requires((w,))
    &&& forall|e: usize, w: &EdgeWeight|
        p.edge_seq().contains(e) ==> #[trigger] p.edge_weight_of(e).condition().requires((w,))
    &&& forall|e: usize|
        #![trigger p.edge_weight_of(e)]
        p.edge_seq().contains(e) && !p.edge_weight_of(e).hidden() ==> !p.node_weight_of(
            p.endpoints(e).0,
        ).hidden() && !p.node_weight_of(p.endpoints(e).1).hidden()
}

/// Creates an empty pattern.
pub fn new_pattern<NodeWeight, EdgeWeight, NodeCondition, EdgeCondition>() -> (r: PatternGraph<
    NodeCondition,
    EdgeCondition,
>) where NodeCondition: Fn(&NodeWeight) -> bool, EdgeCondition: Fn(&EdgeWeight) -> bool
    ensures
        pattern_wf::<NodeWeight, EdgeWeight, NodeCondition, EdgeCondition>(&r),
        r.node_seq().len() == 0,
        r.edge_seq().len() == 0,
{
    VecGraph::new_directed()
}

impl<NodeCondition, EdgeCondition> VecGraph<
    PatternElement<NodeCondition>,
    PatternElement<EdgeCondition>,
> {
    /// Adds a node with the given condition, hidden or not.
    fn add_pattern_node<NodeWeight, EdgeWeight>(
        &mut self,
        condition: NodeCondition,
        ignore: bool,
    ) -> (r: usize) where
        NodeCondition: Fn(&NodeWeight) -> bool,
        EdgeCondition: Fn(&EdgeWeight) -> bool,

        requires
            pattern_wf::<NodeWeight, EdgeWeight, NodeCondition, EdgeCondition>(old(self)),
            old(self).node_seq().len() < usize::MAX,
            forall|w: &NodeWeight| #[trigger] condition.requires((w,)),
        ensures
            pattern_wf::<NodeWeight, EdgeWeight, NodeCondition, EdgeCondition>(final(self)),
            r == old(self).node_seq().len(),
            final(self).node_seq() == old(self).node_seq().push(r),
            forall|n: usize| #[trigger]
                final(self).node_seq().contains(n) <==> old(self).node_seq().contains(n) || n == r,
            final(self).edge_seq() == old(self).edge_seq(),
            final(self).node_weight_of(r).condition() == condition,
            final(self).node_weight_of(r).hidden() == ignore,
            forall|n: usize|
                old(self).node_seq().contains(n) ==> #[trigger] final(self).node_weight_of(n)
                    == old(self).node_weight_of(n),
            forall|e: usize|
                #![trigger final(self).endpoints(e)]
                #![trigger final(self).edge_weight_of(e)]
                old(self).edge_seq().contains(e) ==> final(self).endpoints(e) == old(
                    self,
                ).endpoints(e) && final(self).edge_weight_of(e) == old(self).edge_weight_of(e),
    {
        proof {
            old(self).lemma_valid_structure();
        }
        let r = self.push_node(PatternElement::new(condition, ignore));
        proof {
            self.lemma_valid_structure();
            crate::graph::lemma_push_contains(old(self).node_seq(), r);
        }
        r
    }

    /// Adds a visible node with the given condition.
    pub fn add_node<NodeWeight, EdgeWeight>(&mut self, condition: NodeCondition) -> (r: usize) where
        NodeCondition: Fn(&NodeWeight) -> bool,
        EdgeCondition: Fn(&EdgeWeight) -> bool,

        requires
            pattern_wf::<NodeWeight, EdgeWeight, NodeCondition, EdgeCondition>(old(self)),
            old(self).node_seq().len() < usize::MAX,
            forall|w: &NodeWeight| #[trigger] condition.requires((w,)),
        ensures
            pattern_wf::<NodeWeight, EdgeWeight, NodeCondition, EdgeCondition>(final(self)),
            r == old(self).node_seq().len(),
            final(self).node_seq() == old(self).node_seq().push(r),
            forall|n: usize| #[trigger]
                final(self).node_seq().contains(n) <==> old(self).node_seq().contains(n) || n == r,
            final(self).edge_seq() == old(self).edge_seq(),
            final(self).node_weight_of(r).condition() == condition,
            !final(self).node_weight_of(r).hidden(),
            forall|n: usize|
                old(self).node_seq().contains(n) ==> #[trigger] final(self).node_weight_of(n)
                    == old(self).node_weight_of(n),
            forall|e: usize|
                #![trigger final(self).endpoints(e)]
                #![trigger final(self).edge_weight_of(e)]
                old(self).edge_seq().contains(e) ==> final(self).endpoints(e) == old(
                    self,
                ).endpoints(e) && final(self).edge_weight_of(e) == old(self).edge_weight_of(e),
    {
        self.add_pattern_node::<NodeWeight, EdgeWeight>(condition, false)
    }

    /// Adds a hidden node with the given condition: a match for it is
    /// required but left out of results.
    pub fn add_hidden_node<NodeWeight, EdgeWeight>(&mut self, condition: NodeCondition) -> (r:
        usize) where
        NodeCondition: Fn(&NodeWeight) -> bool,
        EdgeCondition: Fn(&EdgeWeight) -> bool,

        requires
            pattern_wf::<NodeWeight, EdgeWeight, NodeCondition, EdgeCondition>(old(self)),
            old(self).node_seq().len() < usize::MAX,
            forall|w: &NodeWeight| #[trigger] condition.requires((w,)),
        ensures
            pattern_wf::<NodeWeight, EdgeWeight, NodeCondition, EdgeCondition>(final(self)),
            r == old(self).node_seq().len(),
            final(self).node_seq() == old(self).node_seq().push(r),
            forall|n: usize| #[trigger]
                final(self).node_seq().contains(n) <==> old(self).node_seq().contains(n) || n == r,
            final(self).edge_seq() == old(self).edge_seq(),
            final(self).node_weight_of(r).condition() == condition,
            final(self).node_weight_of(r).hidden(),
            forall|n: usize|
                old(self).node_seq().contains(n) ==> #[trigger] final(self).node_weight_of(n)
                    == old(self).node_weight_of(n),
            forall|e: usize|
                #![trigger final(self).endpoints(e)]
                #![trigger final(self).edge_weight_of(e)]
                old(self).edge_seq().contains(e) ==> final(self).endpoints(e) == old(
                    self,
                ).endpoints(e) && final(self).edge_weight_of(e) == old(self).edge_weight_of(e),
    {
        self.add_pattern_node::<NodeWeight, EdgeWeight>(condition, true)
    }

    /// Adds an edge with the given condition, hidden or not.
    fn add_pattern_edge<NodeWeight, EdgeWeight>(
        &mut self,
        from: usize,
        to: usize,
        condition: EdgeCondition,
        ignore: bool,
    ) -> (r: usize) where
        NodeCondition: Fn(&NodeWeight) -> bool,
        EdgeCondition: Fn(&EdgeWeight) -> bool,

        requires
            pattern_wf::<NodeWeight, EdgeWeight, NodeCondition, EdgeCondition>(old(self)),
            old(self).node_seq().contains(from),
            old(self).node_seq().contains(to),
            old(self).edge_seq().len() < usize::MAX,
            forall|w: &EdgeWeight| #[trigger] condition.requires((w,)),
            !ignore ==> !old(self).node_weight_of(from).hidden() && !old(self).node_weight_of(
                to,
            ).hidden(),
        ensures
            pattern_wf::<NodeWeight, EdgeWeight, NodeCondition, EdgeCondition>(final(self)),
            r == old(self).edge_seq().len(),
            final(self).edge_seq() == old(self).edge_seq().push(r),
            forall|e: usize| #[trigger]
                final(self).edge_seq().contains(e) <==> old(self).edge_seq().contains(e) || e == r,
            final(self).node_seq() == old(self).node_seq(),
            final(self).endpoints(r) == (from, to),
            final(self).edge_weight_of(r).condition() == condition,
            final(self).edge_weight_of(r).hidden() == ignore,
            forall|n: usize|
                old(self).node_seq().contains(n) ==> #[trigger] final(self).node_weight_of(n)
                    == old(self).node_weight_of(n),
            forall|e: usize|
                #![trigger final(self).endpoints(e)]
                #![trigger final(self).edge_weight_of(e)]
                old(self).edge_seq().contains(e) ==> final(self).endpoints(e) == old(
                    self,
                ).endpoints(e) && final(self).edge_weight_of(e) == old(self).edge_weight_of(e),
    {
        proof {
            old(self).lemma_valid_structure();
        }
        let r = self.push_edge(from, to, PatternElement::new(condition, ignore));
        proof {
            self.lemma_valid_structure();
            crate::graph::lemma_push_contains(old(self).edge_seq(), r);
        }
        r
    }

    /// Adds a visible edge from `from` to `to` with the given condition.
    /// Both endpoints must be visible.
    pub fn add_edge<NodeWeight, EdgeWeight>(
        &mut self,
        from: usize,
        to: usize,
        condition: EdgeCondition,
    ) -> (r: usize) where
        NodeCondition: Fn(&NodeWeight) -> bool,
        EdgeCondition: Fn(&EdgeWeight) -> bool,

        requires
            pattern_wf::<NodeWeight, EdgeWeight, NodeCondition, EdgeCondition>(old(self)),
            old(self).node_seq().contains(from),
            old(self).node_seq().contains(to),
            old(self).edge_seq().len() < usize::MAX,
            forall|w: &EdgeWeight| #[trigger] condition.requires((w,)),
            !old(self).node_weight_of(from).hidden(),
            !old(self).node_weight_of(to).hidden(),
        ensures
            pattern_wf::<NodeWeight, EdgeWeight, NodeCondition, EdgeCondition>(final(self)),
            r == old(self).edge_seq().len(),
            final(self).edge_seq() == old(self).edge_seq().push(r),
            forall|e: usize| #[trigger]
                final(self).edge_seq().contains(e) <==> old(self).edge_seq().contains(e) || e == r,
            final(self).node_seq() == old(self).node_seq(),
            final(self).endpoints(r) == (from, to),
            final(self).edge_weight_of(r).condition() == condition,
            !final(self).edge_weight_of(r).hidden(),
            forall|n: usize|
                old(self).node_seq().contains(n) ==> #[trigger] final(self).node_weight_of(n)
                    == old(self).node_weight_of(n),
            forall|e: usize|
                #![trigger final(self).endpoints(e)]
                #![trigger final(self).edge_weight_of(e)]
                old(self).edge_seq().contains(e) ==> final(self).endpoints(e) == old(
                    self,
                ).endpoints(e) && final(self).edge_weight_of(e) == old(self).edge_weight_of(e),
    {
        self.add_pattern_edge::<NodeWeight, EdgeWeight>(from, to, condition, false)
    }

    /// Adds a hidden edge from `from` to `to` with the given condition: a
    /// match for it is required but left out of results. Its endpoints may
    /// be hidden or visible.
    pub fn add_hidden_edge<NodeWeight, EdgeWeight>(
        &mut self,
        from: usize,
        to: usize,
        condition: EdgeCondition,
    ) -> (r: usize) where
        NodeCondition: Fn(&NodeWeight) -> bool,
        EdgeCondition: Fn(&EdgeWeight) -> bool,

        requires
            pattern_wf::<NodeWeight, EdgeWeight, NodeCondition, EdgeCondition>(old(self)),
            old(self).node_seq().contains(from),
            old(self).node_seq().contains(to),
            old(self).edge_seq().len() < usize::MAX,
            forall|w: &EdgeWeight| #[trigger] condition.requires((w,)),
        ensures
            pattern_wf::<NodeWeight, EdgeWeight, NodeCondition, EdgeCondition>(final(self)),
            r == old(self).edge_seq().len(),
            final(self).edge_seq() == old(self).edge_seq().push(r),
            forall|e: usize| #[trigger]
                final(self).edge_seq().contains(e) <==> old(self).edge_seq().contains(e) || e == r,
            final(self).node_seq() == old(self).node_seq(),
            final(self).endpoints(r) == (from, to),
            final(self).edge_weight_of(r).condition() == condition,
            final(self).edge_weight_of(r).hidden(),
            forall|n: usize|
                old(self).node_seq().contains(n) ==> #[trigger] final(self).node_weight_of(n)
                    == old(self).node_weight_of(n),
            forall|e: usize|
                #![trigger final(self).endpoints(e)]
                #![trigger final(self).edge_weight_of(e)]
                old(self).edge_seq().contains(e) ==> final(self).endpoints(e) == old(
                    self,
                ).endpoints(e) && final(self).edge_weight_of(e) == old(self).edge_weight_of(e),
    {
        self.add_pattern_edge::<NodeWeight, EdgeWeight>(from, to, condition, true)
    }
}

} // verus!
