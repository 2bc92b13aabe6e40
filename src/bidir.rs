//! The bidirectional entity/location map that a world keeps its
//! placements in, with the contracts this library relies on.

use vstd::prelude::*;

use bidir_map::BidirMap;

use crate::world::{Entity, Location};

verus! {

#[verifier::external_type_specification]
#[verifier::external_body]
#[verifier::reject_recursive_types(Kv1)]
#[verifier::reject_recursive_types(Kv2)]
pub struct ExBidirMap<Kv1: PartialEq, Kv2: PartialEq>(BidirMap<Kv1, Kv2>);

/// The pairs that a map holds, in the order of its backing vector.
pub uninterp spec fn bidir_pairs(m: BidirMap<Entity, Location>) -> Seq<(Entity, Location)>;

/// What `Vec::swap_remove(i)` leaves: the last pair moves into slot `i`.
pub open spec fn swap_removed(s: Seq<(Entity, Location)>, i: int) -> Seq<(Entity, Location)> {
    s.update(i, s.last()).drop_last()
}

/// `i` is the first slot whose entity is `k`.
pub open spec fn first_with_entity(s: Seq<(Entity, Location)>, k: Entity, i: int) -> bool {
    &&& 0 <= i < s.len()
    &&& s[i].0 == k
    &&& forall|j: int| 0 <= j < i ==> s[j].0 != k
}

/// `i` is the first slot whose location is `l`.
pub open spec fn first_with_location(s: Seq<(Entity, Location)>, l: Location, i: int) -> bool {
    &&& 0 <= i < s.len()
    &&& s[i].1 == l
    &&& forall|j: int| 0 <= j < i ==> s[j].1 != l
}

/// Relies on `BidirMap::clone` (derived): the clone holds the same pairs in
/// the same order.
#[verifier::external_body]
pub(crate) fn pairs_clone(m: &BidirMap<Entity, Location>) -> (r: BidirMap<Entity, Location>)
    ensures
        bidir_pairs(r) == bidir_pairs(*m),
{
    m.clone()
}

/// Relies on `BidirMap::len`: the length of the backing vector.
#[verifier::external_body]
pub(crate) fn pairs_len(m: &BidirMap<Entity, Location>) -> (r: usize)
    ensures
        r == bidir_pairs(*m).len(),
{
    m.len()
}

/// Relies on `BidirMap::iter`: it walks the backing vector in order; each
/// pair is copied out.
#[verifier::external_body]
pub(crate) fn pairs_to_vec(m: &BidirMap<Entity, Location>) -> (r: Vec<(Entity, Location)>)
    ensures
        r@ == bidir_pairs(*m),
{
    m.iter().map(|(e, l)| (*e, *l)).collect()
}

/// Relies on `BidirMap::get_by_first`: the location of the first pair whose
/// entity equals `k`.
#[verifier::external_body]
pub(crate) fn pairs_get_by_first<'a>(m: &'a BidirMap<Entity, Location>, k: &Entity) -> (r: Option<&'a Location>)
    ensures
        match r {
            Some(l) => exists|i: int|
                first_with_entity(bidir_pairs(*m), *k, i) && *l == bidir_pairs(*m)[i].1,
            None => forall|i: int| 0 <= i < bidir_pairs(*m).len() ==> bidir_pairs(*m)[i].0 != *k,
        },
{
    m.get_by_first(k)
}

/// Relies on `BidirMap::get_by_second`: the entity of the first pair whose
/// location equals `l`.
#[verifier::external_body]
pub(crate) fn pairs_get_by_second<'a>(m: &'a BidirMap<Entity, Location>, l: &Location) -> (r: Option<&'a Entity>)
    ensures
        match r {
            Some(e) => exists|i: int|
                first_with_location(bidir_pairs(*m), *l, i) && *e == bidir_pairs(*m)[i].0,
            None => forall|i: int| 0 <= i < bidir_pairs(*m).len() ==> bidir_pairs(*m)[i].1 != *l,
        },
{
    m.get_by_second(l)
}

/// Relies on `BidirMap::insert`: it swap-removes the first pair with entity
/// `k`, or failing that the first pair with location `l`, hands that pair
/// back, and pushes `(k, l)`.
#[verifier::external_body]
pub(crate) fn pairs_insert(m: &mut BidirMap<Entity, Location>, k: Entity, l: Location) -> (r: Option<(Entity, Location)>)
    ensures
        (exists|i: int| 0 <= i < bidir_pairs(*old(m)).len() && bidir_pairs(*old(m))[i].0 == k)
            ==> exists|i: int| {
                &&& first_with_entity(bidir_pairs(*old(m)), k, i)
                &&& bidir_pairs(*final(m)) == swap_removed(bidir_pairs(*old(m)), i).push((k, l))
                &&& r == Some(bidir_pairs(*old(m))[i])
            },
        (forall|i: int| 0 <= i < bidir_pairs(*old(m)).len() ==> bidir_pairs(*old(m))[i].0 != k)
            && (exists|i: int| 0 <= i < bidir_pairs(*old(m)).len() && bidir_pairs(*old(m))[i].1 == l)
            ==> exists|i: int| {
                &&& first_with_location(bidir_pairs(*old(m)), l, i)
                &&& bidir_pairs(*final(m)) == swap_removed(bidir_pairs(*old(m)), i).push((k, l))
                &&& r == Some(bidir_pairs(*old(m))[i])
            },
        (forall|i: int| 0 <= i < bidir_pairs(*old(m)).len()
            ==> bidir_pairs(*old(m))[i].0 != k && bidir_pairs(*old(m))[i].1 != l)
            ==> bidir_pairs(*final(m)) == bidir_pairs(*old(m)).push((k, l)) && r.is_none(),
{
    m.insert(k, l)
}

} // verus!
