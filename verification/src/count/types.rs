//! The values that counting takes and gives.
use vstd::prelude::*;
use crate::find::{ExistingError, Location, Object};
use crate::object::ObjectId;

verus! {

/// What is known of where a counted object lies in a pack.
#[derive(Clone, Copy, Debug, PartialEq, Eq, Structural)]
pub enum PackLocation {
    /// Nobody asked the database.
    NotLookedUp,
    /// The database was asked, and said where the object lies, or that it is not packed.
    LookedUp(Option<Location>),
}

/// An object that has to be in the pack, and where to find it if it is packed already.
#[derive(Clone, Copy, Debug, PartialEq, Eq)]
pub struct Count {
    /// The object.
    pub id: ObjectId,
    /// Where it lies in a pack.
    pub entry_pack_location: PackLocation,
}

impl Count {
    /// The count of the object `id` that a lookup found as `obj`.
    pub fn from_data(id: &ObjectId, obj: &Object) -> (count: Count)
        ensures
            count == (Count { id: *id, entry_pack_location: PackLocation::LookedUp(obj.pack_location) }),
    {
        Count { id: *id, entry_pack_location: PackLocation::LookedUp(obj.pack_location) }
    }
}

/// The ids of `counts`, in order.
pub open spec fn ids_of(counts: Seq<Count>) -> Seq<Seq<u8>> {
    counts.map_values(|c: Count| c.id@)
}

/// Whether `ids` lists exactly what was added to `before` to reach `after`, each id once.
pub open spec fn fresh(before: Set<Seq<u8>>, ids: Seq<Seq<u8>>, after: Set<Seq<u8>>) -> bool {
    &&& ids.no_duplicates()
    &&& forall|i: int| 0 <= i < ids.len() ==> !before.contains(#[trigger] ids[i])
    &&& after == before.union(ids.to_set())
}

/// Whether `counts` lists exactly the objects that were added to `before` to reach `after`,
/// each of them once.
pub open spec fn counted(before: Set<Seq<u8>>, counts: Seq<Count>, after: Set<Seq<u8>>) -> bool {
    fresh(before, ids_of(counts), after)
}

/// Whether the totals of `outcome` fit a list of `len` counts: each count was tallied as
/// decoded, and as expanded unless it stands for a starting id.
pub open spec fn tallied(len: int, outcome: Outcome) -> bool {
    &&& outcome.decoded_objects == len
    &&& outcome.expanded_objects <= len
    &&& len <= outcome.input_objects + outcome.expanded_objects
}

/// How objects are added to those that the caller names.
#[derive(Clone, Copy, Debug, PartialEq, Eq, Structural)]
pub enum ObjectExpansion {
    /// Count the named objects and nothing else.
    AsIs,
    /// Count the named objects, the trees they lead to and all that these trees hold.
    TreeContents,
    /// Count the named commits, their trees, and what these trees added to those of
    /// their parents.
    TreeAdditionsComparedToAncestor,
}

impl Default for ObjectExpansion {
    fn default() -> (expansion: ObjectExpansion)
        ensures
            expansion == ObjectExpansion::AsIs,
    {
        ObjectExpansion::AsIs
    }
}

/// How to count.
#[derive(Clone, Copy, Debug, PartialEq, Eq, Structural)]
pub struct Options {
    /// The most threads to use, or `None` to use as many as there are logical cores.
    pub thread_limit: Option<usize>,
    /// The number of starting ids handed to a worker at once.
    pub chunk_size: usize,
    /// How the starting ids are expanded.
    pub input_object_expansion: ObjectExpansion,
}

impl Default for Options {
    fn default() -> (options: Options)
        ensures
            options == (Options {
                thread_limit: None,
                chunk_size: 10,
                input_object_expansion: ObjectExpansion::AsIs,
            }),
    {
        Options { thread_limit: None, chunk_size: 10, input_object_expansion: ObjectExpansion::AsIs }
    }
}

/// What counting did.
#[derive(Clone, Copy, Debug, PartialEq, Eq, Structural)]
pub struct Outcome {
    /// The number of starting ids.
    pub input_objects: usize,
    /// The number of counted objects that no starting id named.
    pub expanded_objects: usize,
    /// The number of counted objects.
    pub decoded_objects: usize,
}

impl Default for Outcome {
    fn default() -> (outcome: Outcome)
        ensures
            outcome == (Outcome { input_objects: 0, expanded_objects: 0, decoded_objects: 0 }),
    {
        Outcome { input_objects: 0, expanded_objects: 0, decoded_objects: 0 }
    }
}

/// The field-wise sum of two outcomes.
pub open spec fn sum(a: Outcome, b: Outcome) -> (int, int, int) {
    (
        a.input_objects + b.input_objects,
        a.expanded_objects + b.expanded_objects,
        a.decoded_objects + b.decoded_objects,
    )
}

/// The three totals of an outcome.
pub open spec fn totals(a: Outcome) -> (int, int, int) {
    (a.input_objects as int, a.expanded_objects as int, a.decoded_objects as int)
}

impl Outcome {
    /// Adds the totals of `other` to those of `self`.
    pub fn aggregate(&mut self, other: Outcome)
        requires
            old(self).input_objects + other.input_objects <= usize::MAX,
            old(self).expanded_objects + other.expanded_objects <= usize::MAX,
            old(self).decoded_objects + other.decoded_objects <= usize::MAX,
        ensures
            totals(*final(self)) == sum(*old(self), other),
    {
        self.input_objects += other.input_objects;
        self.expanded_objects += other.expanded_objects;
        self.decoded_objects += other.decoded_objects;
    }
}

/// Merging outcomes gives the same totals in either order.
pub proof fn lemma_sum_commutative(a: Outcome, b: Outcome)
    ensures
        sum(a, b) == sum(b, a),
{
}

/// Merging three outcomes gives the same totals however they are grouped.
pub proof fn lemma_sum_associative(a: Outcome, b: Outcome, c: Outcome, ab: Outcome, bc: Outcome)
    requires
        totals(ab) == sum(a, b),
        totals(bc) == sum(b, c),
    ensures
        sum(ab, c) == sum(a, bc),
{
}

/// Why a tree could not be walked.
#[derive(Debug)]
pub enum TreeTraverseError {
    /// A tree that another tree lists is not in the database, or is no tree.
    NotFound { id: ObjectId },
    /// The data of the tree named `id` does not decode.
    ObjectDecode { id: ObjectId },
}

/// Why two trees could not be compared.
#[derive(Debug)]
pub enum TreeChangesError {
    /// A tree that one of the two sides lists is not in the database, or is no tree.
    FindExisting { id: ObjectId },
    /// The data of a tree does not decode.
    EntriesDecode,
    /// The comparison was cancelled.
    Cancelled,
}

/// Why counting failed.
#[derive(Debug)]
pub enum Error<FindErr, IterErr> {
    /// The commit named `id` does not decode.
    CommitDecode { id: ObjectId },
    /// The tag named `id` does not decode.
    TagDecode { id: ObjectId },
    /// An object that has to exist could not be had.
    FindExisting(ExistingError<FindErr>),
    /// The sequence of starting ids held an error.
    InputIteration(IterErr),
    /// A tree could not be walked.
    TreeTraverse(TreeTraverseError),
    /// Two trees could not be compared.
    TreeChanges(TreeChangesError),
    /// The caller asked to stop.
    Interrupted,
}

} // verus!
