//! The set of object ids that were counted already.
use vstd::prelude::*;
use crate::object::ObjectId;

verus! {

#[verifier::external_type_specification]
#[verifier::external_body]
#[verifier::reject_recursive_types(K)]
#[verifier::reject_recursive_types(S)]
pub struct ExDashSet<K, S>(dashmap::DashSet<K, S>);

/// The hashes that a set of ids holds.
pub uninterp spec fn held_ids(set: dashmap::DashSet<[u8; 20]>) -> Set<Seq<u8>>;

/// `dashmap::DashSet::new`: the new set holds nothing.
#[verifier::external_body]
fn set_new() -> (set: dashmap::DashSet<[u8; 20]>)
    ensures
        held_ids(set) == Set::<Seq<u8>>::empty(),
{
    dashmap::DashSet::new()
}

/// `dashmap::DashSet::insert`: the key is held afterwards, along with all that was held
/// before, and the result tells whether the key was absent.
#[verifier::external_body]
fn set_insert(set: &mut dashmap::DashSet<[u8; 20]>, key: [u8; 20]) -> (inserted: bool)
    ensures
        inserted == !held_ids(*old(set)).contains(key@),
        held_ids(*final(set)) == held_ids(*old(set)).insert(key@),
{
    set.insert(key)
}

/// `dashmap::DashSet::contains`: whether the key is held.
#[verifier::external_body]
fn set_contains(set: &dashmap::DashSet<[u8; 20]>, key: &[u8; 20]) -> (held: bool)
    ensures
        held == held_ids(*set).contains(key@),
{
    set.contains(key)
}

/// The ids of all objects counted so far. An id is counted exactly when its
/// insertion reports that it was new.
pub struct SeenSet {
    ids: dashmap::DashSet<[u8; 20]>,
}

impl View for SeenSet {
    type V = Set<Seq<u8>>;

    closed spec fn view(&self) -> Set<Seq<u8>> {
        held_ids(self.ids)
    }
}

impl SeenSet {
    /// A set that holds no id.
    pub fn new() -> (seen: SeenSet)
        ensures
            seen@ == Set::<Seq<u8>>::empty(),
    {
        SeenSet { ids: set_new() }
    }

    /// Adds `id` and reports whether it was absent before.
    pub fn insert(&mut self, id: &ObjectId) -> (inserted: bool)
        ensures
            inserted == !old(self)@.contains(id@),
            final(self)@ == old(self)@.insert(id@),
    {
        set_insert(&mut self.ids, id.bytes)
    }

    /// Whether `id` was added before.
    pub fn contains(&self, id: &ObjectId) -> (held: bool)
        ensures
            held == self@.contains(id@),
    {
        set_contains(&self.ids, &id.bytes)
    }
}

} // verus!
