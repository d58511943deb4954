use vstd::prelude::*;
use bimap::BiHashMap;

verus! {

/// `bimap::BiHashMap`, a map that can be looked up from either side; the
/// matcher keeps its correspondence in one.
#[verifier::external_type_specification]
#[verifier::external_body]
#[verifier::reject_recursive_types(L)]
#[verifier::reject_recursive_types(R)]
#[verifier::reject_recursive_types(LS)]
#[verifier::reject_recursive_types(RS)]
pub struct ExBiHashMap<L, R, LS, RS>(BiHashMap<L, R, LS, RS>);

/// The left-to-right pairs that a bimap holds.
pub uninterp spec fn bimap_pairs(m: BiHashMap<usize, usize>) -> Map<usize, usize>;

/// Whether `right` is paired with some left value.
pub open spec fn has_right(pairs: Map<usize, usize>, right: usize) -> bool {
    exists|l: usize| pairs.dom().contains(l) && #[trigger] pairs[l] == right
}

/// Relies on `BiHashMap::new`: the new bimap holds no pairs.
#[verifier::external_body]
pub(crate) fn bimap_new() -> (r: BiHashMap<usize, usize>)
    ensures
        bimap_pairs(r).dom() == Set::<usize>::empty(),
{
    BiHashMap::new()
}

/// Relies on `BiHashMap::insert`: when neither value is paired yet, the pair
/// is added and no other pair changes.
#[verifier::external_body]
pub(crate) fn bimap_insert(m: &mut BiHashMap<usize, usize>, left: usize, right: usize)
    requires
        !bimap_pairs(*old(m)).dom().contains(left),
        !has_right(bimap_pairs(*old(m)), right),
    ensures
        bimap_pairs(*final(m)) == bimap_pairs(*old(m)).insert(left, right),
{
    m.insert(left, right);
}

/// Relies on `BiHashMap::remove_by_left`: the pair of `left`, if any, is
/// removed and no other pair changes.
#[verifier::external_body]
pub(crate) fn bimap_remove_by_left(m: &mut BiHashMap<usize, usize>, left: usize)
    ensures
        bimap_pairs(*final(m)) == bimap_pairs(*old(m)).remove(left),
{
    m.remove_by_left(&left);
}

/// Relies on `BiHashMap::contains_left`: whether `left` is paired.
#[verifier::external_body]
pub(crate) fn bimap_contains_left(m: &BiHashMap<usize, usize>, left: usize) -> (r: bool)
    ensures
        r == bimap_pairs(*m).dom().contains(left),
{
    m.contains_left(&left)
}

/// Relies on `BiHashMap::contains_right`: whether `right` is paired.
#[verifier::external_body]
pub(crate) fn bimap_contains_right(m: &BiHashMap<usize, usize>, right: usize) -> (r: bool)
    ensures
        r == has_right(bimap_pairs(*m), right),
{
    m.contains_right(&right)
}

/// Relies on `BiHashMap::get_by_left`: the value paired with `left`.
#[verifier::external_body]
pub(crate) fn bimap_get_by_left(m: &BiHashMap<usize, usize>, left: usize) -> (r: Option<usize>)
    ensures
        r == (if bimap_pairs(*m).dom().contains(left) {
            Some(bimap_pairs(*m)[left])
        } else {
            None
        }),
{
    m.get_by_left(&left).copied()
}

} // verus!
