use vstd::prelude::*;
use crate::bimap_spec::has_right;
use crate::filter_map::FilterMap;
use crate::graph::Graph;
use crate::pattern::{PatternElement, PatternGraph};

verus! {

/// One match of a pattern: a view of the pattern graph that holds its
/// visible elements, each weighted with the base-graph weight it matched.
pub type MatchedGraph<'a, NodeWeight, EdgeWeight, NodeCondition, EdgeCondition> = FilterMap<
    'a,
    PatternElement<NodeCondition>,
    PatternElement<EdgeCondition>,
    &'a NodeWeight,
    &'a EdgeWeight,
    PatternGraph<NodeCondition, EdgeCondition>,
>;

/// Base node `m` can stand for pattern node `n`: it is a node of the base
/// graph and its weight satisfies the condition of `n`.
pub open spec fn node_fits<NodeWeight, EdgeWeight, NodeCondition, EdgeCondition, B>(
    p: &PatternGraph<NodeCondition, EdgeCondition>,
    b: &B,
    n: usize,
    m: usize,
) -> bool where
    NodeCondition: Fn(&NodeWeight) -> bool,
    B: Graph<NodeWeight, EdgeWeight>,
 {
    b.node_seq().contains(m) && p.node_weight_of(n).condition().ensures(
        (&b.node_weight_of(m),),
        true,
    )
}

/// Base edge `e2` can stand for pattern edge `e` under the correspondence
/// `mu`: it joins the images of the endpoints of `e`, in the same direction,
/// and its weight satisfies the condition of `e`.
pub open spec fn edge_fits<NodeWeight, EdgeWeight, NodeCondition, EdgeCondition, B>(
    p: &PatternGraph<NodeCondition, EdgeCondition>,
    b: &B,
    mu: Map<usize, usize>,
    e: usize,
    e2: usize,
) -> bool where
    EdgeCondition: Fn(&EdgeWeight) -> bool,
    B: Graph<NodeWeight, EdgeWeight>,
 {
    &&& b.edge_seq().contains(e2)
    &&& b.endpoints(e2) == (mu[p.endpoints(e).0], mu[p.endpoints(e).1])
    &&& p.edge_weight_of(e).condition().ensures((&b.edge_weight_of(e2),), true)
}

/// The partial correspondence `mu` from pattern nodes to base nodes is
/// consistent: injective, each bound node fits, and each pattern edge
/// between bound nodes has a base edge that fits it.
pub open spec fn consistent<NodeWeight, EdgeWeight, NodeCondition, EdgeCondition, B>(
    p: &PatternGraph<NodeCondition, EdgeCondition>,
    b: &B,
    mu: Map<usize, usize>,
) -> bool where
    NodeCondition: Fn(&NodeWeight) -> bool,
    EdgeCondition: Fn(&EdgeWeight) -> bool,
    B: Graph<NodeWeight, EdgeWeight>,
 {
    &&& mu.dom().finite()
    &&& forall|n: usize| #[trigger]
        mu.dom().contains(n) ==> p.node_seq().contains(n) && node_fits(p, b, n, mu[n])
    &&& forall|x: usize, y: usize|
        mu.dom().contains(x) && mu.dom().contains(y) && x != y ==> #[trigger] mu[x] != #[trigger] mu[y]
    &&& forall|e: usize|
        #![trigger p.endpoints(e)]
        p.edge_seq().contains(e) && mu.dom().contains(p.endpoints(e).0) && mu.dom().contains(
            p.endpoints(e).1,
        ) ==> exists|e2: usize| edge_fits(p, b, mu, e, e2)
}

/// `r` is the result that the full correspondence `mu` yields: `mu` binds
/// every pattern node consistently, `r` holds exactly the visible nodes and
/// edges of the pattern, each visible node weighted with the base weight of
/// its image, and each visible edge with the weight of a base edge that fits it.
pub open spec fn binds<'a, NodeWeight, EdgeWeight, NodeCondition, EdgeCondition, B>(
    p: &'a PatternGraph<NodeCondition, EdgeCondition>,
    b: &B,
    mu: Map<usize, usize>,
    r: &MatchedGraph<'a, NodeWeight, EdgeWeight, NodeCondition, EdgeCondition>,
) -> bool where
    NodeCondition: Fn(&NodeWeight) -> bool,
    EdgeCondition: Fn(&EdgeWeight) -> bool,
    B: Graph<NodeWeight, EdgeWeight>,
 {
    &&& consistent(p, b, mu)
    &&& forall|n: usize| #[trigger] p.node_seq().contains(n) ==> mu.dom().contains(n)
    &&& r.valid()
    &&& r.base() == p
    &&& forall|n: usize| #[trigger]
        r.node_seq().contains(n) <==> p.node_seq().contains(n) && !p.node_weight_of(n).hidden()
    &&& forall|n: usize| #[trigger]
        r.node_seq().contains(n) ==> *r.node_weight_of(n) == b.node_weight_of(mu[n])
    &&& forall|e: usize| #[trigger]
        r.edge_seq().contains(e) <==> p.edge_seq().contains(e) && !p.edge_weight_of(e).hidden()
    &&& forall|e: usize| #[trigger]
        r.edge_seq().contains(e) ==> exists|e2: usize|
            edge_fits(p, b, mu, e, e2) && *r.edge_weight_of(e) == b.edge_weight_of(e2)
}

/// `r` is a match of pattern `p` in base graph `b`.
pub open spec fn is_match<'a, NodeWeight, EdgeWeight, NodeCondition, EdgeCondition, B>(
    p: &'a PatternGraph<NodeCondition, EdgeCondition>,
    b: &B,
    r: &MatchedGraph<'a, NodeWeight, EdgeWeight, NodeCondition, EdgeCondition>,
) -> bool where
    NodeCondition: Fn(&NodeWeight) -> bool,
    EdgeCondition: Fn(&EdgeWeight) -> bool,
    B: Graph<NodeWeight, EdgeWeight>,
 {
    exists|mu: Map<usize, usize>| binds(p, b, mu, r)
}

/// The pattern consists of one visible node, whose condition accepts every
/// weight, and no edge.
pub open spec fn single_accept_all<NodeWeight, EdgeWeight, NodeCondition, EdgeCondition>(
    p: &PatternGraph<NodeCondition, EdgeCondition>,
) -> bool where
    NodeCondition: Fn(&NodeWeight) -> bool,
    EdgeCondition: Fn(&EdgeWeight) -> bool,
 {
    &&& p.node_seq().len() == 1
    &&& p.edge_seq().len() == 0
    &&& !p.node_weight_of(p.node_seq()[0]).hidden()
    &&& forall|w: &NodeWeight, b: bool|
        #[trigger] p.node_weight_of(p.node_seq()[0]).condition().ensures((w,), b) ==> b
}

/// A condition decides: on a given weight it never returns both answers.
pub open spec fn decides<Weight, Condition: Fn(&Weight) -> bool>(c: Condition) -> bool {
    forall|w: &Weight, a: bool, b: bool|
        #[trigger] c.ensures((w,), a) && #[trigger] c.ensures((w,), b) ==> a == b
}

/// Every condition of the pattern decides.
pub open spec fn conditions_decide<NodeWeight, EdgeWeight, NodeCondition, EdgeCondition>(
    p: &PatternGraph<NodeCondition, EdgeCondition>,
) -> bool where
    NodeCondition: Fn(&NodeWeight) -> bool,
    EdgeCondition: Fn(&EdgeWeight) -> bool,
 {
    &&& forall|n: usize| #[trigger]
        p.node_seq().contains(n) ==> decides::<NodeWeight, NodeCondition>(
            p.node_weight_of(n).condition(),
        )
    &&& forall|e: usize| #[trigger]
        p.edge_seq().contains(e) ==> decides::<EdgeWeight, EdgeCondition>(
            p.edge_weight_of(e).condition(),
        )
}

/// `mu` binds every pattern node, consistently.
pub open spec fn full_fit<NodeWeight, EdgeWeight, NodeCondition, EdgeCondition, B>(
    p: &PatternGraph<NodeCondition, EdgeCondition>,
    b: &B,
    mu: Map<usize, usize>,
) -> bool where
    NodeCondition: Fn(&NodeWeight) -> bool,
    EdgeCondition: Fn(&EdgeWeight) -> bool,
    B: Graph<NodeWeight, EdgeWeight>,
 {
    &&& consistent(p, b, mu)
    &&& forall|n: usize| #[trigger] p.node_seq().contains(n) ==> mu.dom().contains(n)
}

/// `big` agrees with `small` wherever `small` is defined.
pub open spec fn extends(big: Map<usize, usize>, small: Map<usize, usize>) -> bool {
    forall|k: usize| #[trigger]
        small.dom().contains(k) ==> big.dom().contains(k) && big[k] == small[k]
}

/// `mu2` binds every visible node that `mu` binds as `mu` does.
pub open spec fn agrees_on_visible<NodeCondition, EdgeCondition>(
    p: &PatternGraph<NodeCondition, EdgeCondition>,
    mu2: Map<usize, usize>,
    mu: Map<usize, usize>,
) -> bool {
    forall|n: usize|
        #[trigger] mu.dom().contains(n) && !p.node_weight_of(n).hidden() ==> mu2.dom().contains(n)
            && mu2[n] == mu[n]
}

/// Some result in `found`, at position `from` or later, is the match of a full correspondence that binds
/// the visible nodes bound by `mu` as `mu` does.
pub open spec fn covers<'a, NodeWeight, EdgeWeight, NodeCondition, EdgeCondition, B>(
    p: &'a PatternGraph<NodeCondition, EdgeCondition>,
    b: &B,
    found: Seq<MatchedGraph<'a, NodeWeight, EdgeWeight, NodeCondition, EdgeCondition>>,
    from: int,
    mu: Map<usize, usize>,
) -> bool where
    NodeCondition: Fn(&NodeWeight) -> bool,
    EdgeCondition: Fn(&EdgeWeight) -> bool,
    B: Graph<NodeWeight, EdgeWeight>,
 {
    exists|i: int, mu2: Map<usize, usize>|
        from <= i < found.len() && #[trigger] binds(p, b, mu2, &found[i]) && agrees_on_visible(
            p,
            mu2,
            mu,
        )
}

/// Every full consistent correspondence is represented in `found` by a
/// result that binds the visible nodes as it does.
pub open spec fn finds_all<'a, NodeWeight, EdgeWeight, NodeCondition, EdgeCondition, B>(
    p: &'a PatternGraph<NodeCondition, EdgeCondition>,
    b: &B,
    found: Seq<MatchedGraph<'a, NodeWeight, EdgeWeight, NodeCondition, EdgeCondition>>,
) -> bool where
    NodeCondition: Fn(&NodeWeight) -> bool,
    EdgeCondition: Fn(&EdgeWeight) -> bool,
    B: Graph<NodeWeight, EdgeWeight>,
 {
    forall|mu: Map<usize, usize>| #[trigger] full_fit(p, b, mu) ==> covers(p, b, found, 0, mu)
}

/// `m1` and `m2` bind some visible pattern node differently.
pub open spec fn differ_on_visible<NodeCondition, EdgeCondition>(
    p: &PatternGraph<NodeCondition, EdgeCondition>,
    m1: Map<usize, usize>,
    m2: Map<usize, usize>,
) -> bool {
    exists|n: usize|
        p.node_seq().contains(n) && !p.node_weight_of(n).hidden() && #[trigger] m1[n] != m2[n]
}

/// Each result of `found` is the match of a full correspondence, and no two
/// of these correspondences bind the visible nodes alike.
pub open spec fn distinct_matches<'a, NodeWeight, EdgeWeight, NodeCondition, EdgeCondition, B>(
    p: &'a PatternGraph<NodeCondition, EdgeCondition>,
    b: &B,
    found: Seq<MatchedGraph<'a, NodeWeight, EdgeWeight, NodeCondition, EdgeCondition>>,
) -> bool where
    NodeCondition: Fn(&NodeWeight) -> bool,
    EdgeCondition: Fn(&EdgeWeight) -> bool,
    B: Graph<NodeWeight, EdgeWeight>,
 {
    exists|mus: Seq<Map<usize, usize>>|
        {
            &&& mus.len() == found.len()
            &&& forall|i: int| 0 <= i < found.len() ==> binds(p, b, #[trigger] mus[i], &found[i])
            &&& forall|i: int, j: int|
                0 <= i < j < found.len() ==> #[trigger] differ_on_visible(p, mus[i], mus[j])
        }
}

/// `a` is a prefix of `b`.
pub open spec fn prefix_of<A>(a: Seq<A>, b: Seq<A>) -> bool {
    &&& a.len() <= b.len()
    &&& forall|i: int| 0 <= i < a.len() ==> #[trigger] b[i] == a[i]
}

/// Covering is kept when results are appended.
pub proof fn lemma_covers_prefix<'a, NodeWeight, EdgeWeight, NodeCondition, EdgeCondition, B>(
    p: &'a PatternGraph<NodeCondition, EdgeCondition>,
    b: &B,
    f1: Seq<MatchedGraph<'a, NodeWeight, EdgeWeight, NodeCondition, EdgeCondition>>,
    f2: Seq<MatchedGraph<'a, NodeWeight, EdgeWeight, NodeCondition, EdgeCondition>>,
    from: int,
    mu: Map<usize, usize>,
) where
    NodeCondition: Fn(&NodeWeight) -> bool,
    EdgeCondition: Fn(&EdgeWeight) -> bool,
    B: Graph<NodeWeight, EdgeWeight>,

    requires
        0 <= from,
        prefix_of(f1, f2),
        covers(p, b, f1, from, mu),
    ensures
        covers(p, b, f2, from, mu),
{
    let (i, mu2) = choose|i: int, mu2: Map<usize, usize>|
        from <= i < f1.len() && #[trigger] binds(p, b, mu2, &f1[i]) && agrees_on_visible(p, mu2, mu);
    assert(f2[i] == f1[i]);
    assert(binds(p, b, mu2, &f2[i]));
}

/// A result found at a position is also found from any earlier position.
pub proof fn lemma_covers_earlier<'a, NodeWeight, EdgeWeight, NodeCondition, EdgeCondition, B>(
    p: &'a PatternGraph<NodeCondition, EdgeCondition>,
    b: &B,
    found: Seq<MatchedGraph<'a, NodeWeight, EdgeWeight, NodeCondition, EdgeCondition>>,
    later: int,
    from: int,
    mu: Map<usize, usize>,
) where
    NodeCondition: Fn(&NodeWeight) -> bool,
    EdgeCondition: Fn(&EdgeWeight) -> bool,
    B: Graph<NodeWeight, EdgeWeight>,

    requires
        from <= later,
        covers(p, b, found, later, mu),
    ensures
        covers(p, b, found, from, mu),
{
    let (i, mu2) = choose|i: int, mu2: Map<usize, usize>|
        later <= i < found.len() && #[trigger] binds(p, b, mu2, &found[i]) && agrees_on_visible(
            p,
            mu2,
            mu,
        );
    assert(binds(p, b, mu2, &found[i]));
}

/// Binding a fresh pattern node `n` to an unbound base node `m` that fits it,
/// where every pattern edge at `n` between bound nodes has a fitting base
/// edge, keeps a consistent correspondence consistent.
pub proof fn lemma_extend_consistent<NodeWeight, EdgeWeight, NodeCondition, EdgeCondition, B>(
    p: &PatternGraph<NodeCondition, EdgeCondition>,
    b: &B,
    mu: Map<usize, usize>,
    n: usize,
    m: usize,
) where
    NodeCondition: Fn(&NodeWeight) -> bool,
    EdgeCondition: Fn(&EdgeWeight) -> bool,
    B: Graph<NodeWeight, EdgeWeight>,

    requires
        consistent(p, b, mu),
        p.node_seq().contains(n),
        !mu.dom().contains(n),
        node_fits(p, b, n, m),
        !has_right(mu, m),
        forall|e: usize|
            #![trigger p.endpoints(e)]
            p.edge_seq().contains(e) && (p.endpoints(e).0 == n || p.endpoints(e).1 == n)
                && mu.insert(n, m).dom().contains(p.endpoints(e).0) && mu.insert(
                n,
                m,
            ).dom().contains(p.endpoints(e).1) ==> exists|e2: usize|
                edge_fits(p, b, mu.insert(n, m), e, e2),
    ensures
        consistent(p, b, mu.insert(n, m)),
{
    let mu2 = mu.insert(n, m);
    assert forall|k: usize| #[trigger]
        mu2.dom().contains(k) implies p.node_seq().contains(k) && node_fits(p, b, k, mu2[k]) by {
        if k != n {
            assert(mu.dom().contains(k));
        }
    }
    assert forall|x: usize, y: usize|
        mu2.dom().contains(x) && mu2.dom().contains(y) && x != y implies #[trigger] mu2[x]
        != #[trigger] mu2[y] by {
        if x == n {
            assert(mu.dom().contains(y));
            if mu[y] == m {
                assert(has_right(mu, m));
            }
        } else if y == n {
            assert(mu.dom().contains(x));
            if mu[x] == m {
                assert(has_right(mu, m));
            }
        } else {
            assert(mu.dom().contains(x) && mu.dom().contains(y));
        }
    }
    assert forall|e: usize|
        #![trigger p.endpoints(e)]
        p.edge_seq().contains(e) && mu2.dom().contains(p.endpoints(e).0) && mu2.dom().contains(
            p.endpoints(e).1,
        ) implies exists|e2: usize| edge_fits(p, b, mu2, e, e2) by {
        if p.endpoints(e).0 != n && p.endpoints(e).1 != n {
            assert(mu.dom().contains(p.endpoints(e).0) && mu.dom().contains(p.endpoints(e).1));
            let e2 = choose|e2: usize| edge_fits(p, b, mu, e, e2);
            assert(edge_fits(p, b, mu2, e, e2));
        }
    }
}

/// Under the correspondence `mu`, which is injective on pattern nodes, every
/// visible node of `r` carries the weight of its image, which satisfies its
/// condition, and every visible edge the weight of a base edge between the
/// images of its endpoints, which satisfies its condition.
pub open spec fn match_shape<'a, NodeWeight, EdgeWeight, NodeCondition, EdgeCondition, B>(
    p: &'a PatternGraph<NodeCondition, EdgeCondition>,
    b: &B,
    r: &MatchedGraph<'a, NodeWeight, EdgeWeight, NodeCondition, EdgeCondition>,
    mu: Map<usize, usize>,
) -> bool where
    NodeCondition: Fn(&NodeWeight) -> bool,
    EdgeCondition: Fn(&EdgeWeight) -> bool,
    B: Graph<NodeWeight, EdgeWeight>,
 {
    &&& forall|x: usize, y: usize|
        p.node_seq().contains(x) && p.node_seq().contains(y) && x != y ==> mu.dom().contains(
            x,
        ) && #[trigger] mu[x] != #[trigger] mu[y]
    &&& forall|n: usize| #[trigger]
        r.node_seq().contains(n) ==> b.node_seq().contains(mu[n]) && *r.node_weight_of(n)
            == b.node_weight_of(mu[n]) && p.node_weight_of(n).condition().ensures(
            (r.node_weight_of(n),),
            true,
        )
    &&& forall|e: usize| #[trigger]
        r.edge_seq().contains(e) ==> exists|e2: usize|
            b.edge_seq().contains(e2) && #[trigger] b.endpoints(e2) == (
                mu[p.endpoints(e).0],
                mu[p.endpoints(e).1],
            ) && *r.edge_weight_of(e) == b.edge_weight_of(e2)
                && p.edge_weight_of(e).condition().ensures((r.edge_weight_of(e),), true)
}

/// A match holds exactly the visible nodes and edges of the pattern, each
/// edge with its endpoints in the pattern; one injective correspondence from
/// pattern nodes to base nodes gives every visible node the weight of its
/// image, which satisfies the node's condition, and every visible edge the
/// weight of a base edge between the images of its endpoints, which satisfies
/// the edge's condition.
pub proof fn lemma_match_well_formed<'a, NodeWeight, EdgeWeight, NodeCondition, EdgeCondition, B>(
    p: &'a PatternGraph<NodeCondition, EdgeCondition>,
    b: &B,
    r: &MatchedGraph<'a, NodeWeight, EdgeWeight, NodeCondition, EdgeCondition>,
) where
    NodeCondition: Fn(&NodeWeight) -> bool,
    EdgeCondition: Fn(&EdgeWeight) -> bool,
    B: Graph<NodeWeight, EdgeWeight>,

    requires
        is_match(p, b, r),
    ensures
        forall|n: usize| #[trigger]
            r.node_seq().contains(n) <==> p.node_seq().contains(n) && !p.node_weight_of(n).hidden(),
        forall|e: usize| #[trigger]
            r.edge_seq().contains(e) <==> p.edge_seq().contains(e) && !p.edge_weight_of(e).hidden(),
        forall|e: usize| #[trigger] r.edge_seq().contains(e) ==> r.endpoints(e) == p.endpoints(e),
        exists|mu: Map<usize, usize>| #[trigger] match_shape(p, b, r, mu),
{
    let mu = choose|mu: Map<usize, usize>| binds(p, b, mu, r);
    assert forall|n: usize| #[trigger]
        r.node_seq().contains(n) implies b.node_seq().contains(mu[n]) && *r.node_weight_of(n)
        == b.node_weight_of(mu[n]) && p.node_weight_of(n).condition().ensures(
        (r.node_weight_of(n),),
        true,
    ) by {
        assert(mu.dom().contains(n));
    }
    assert forall|e: usize| #[trigger]
        r.edge_seq().contains(e) implies exists|e2: usize|
        b.edge_seq().contains(e2) && #[trigger] b.endpoints(e2) == (
            mu[p.endpoints(e).0],
            mu[p.endpoints(e).1],
        ) && *r.edge_weight_of(e) == b.edge_weight_of(e2)
            && p.edge_weight_of(e).condition().ensures((r.edge_weight_of(e),), true) by {
        let e2 = choose|e2: usize|
            edge_fits(p, b, mu, e, e2) && *r.edge_weight_of(e) == b.edge_weight_of(e2);
        assert(b.endpoints(e2) == (mu[p.endpoints(e).0], mu[p.endpoints(e).1]));
    }
    assert(match_shape(p, b, r, mu));
}

} // verus!
