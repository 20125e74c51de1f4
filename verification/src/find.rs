//! Access to the object database that holds what is to be counted.
use vstd::prelude::*;
use crate::object::{Kind, ObjectId};

verus! {

/// Where an object lies in a pack.
#[derive(Clone, Copy, Debug, PartialEq, Eq, Structural)]
pub struct Location {
    /// The pack that holds the entry.
    pub pack_id: u32,
    /// The offset of the entry in that pack.
    pub pack_offset: u64,
    /// The size of the entry in the pack.
    pub entry_size: usize,
}

/// What a lookup tells about an object. The object's data lies in the buffer that was
/// handed to the lookup, until the buffer is used again.
#[derive(Clone, Copy, Debug, PartialEq, Eq, Structural)]
pub struct Object {
    /// The kind of the object.
    pub kind: Kind,
    /// Where the object lies in a pack, if it lies in one.
    pub pack_location: Option<Location>,
}

/// An object database. Objects are named by the hash of their content, so that an id
/// stands for one kind and one sequence of bytes, whether or not the database holds the
/// object at the moment. For the same reason no tree holds itself, directly or through
/// the trees that it lists. Walks of trees end on any database; comparisons of trees
/// look out for no tree that holds itself, and ask of their callers that the trees of
/// the database nest to a bounded depth.
pub trait Find {
    /// What a failed lookup reports.
    type Error;

    /// The pack cache that lookups may use.
    type Cache;

    /// The kind and the data of the object that `id` names. A database that is verified
    /// says here what its lookups give; for any other nothing is known of it but what
    /// the lookups tell.
    open spec fn content(&self, id: Seq<u8>) -> (Kind, Seq<u8>) {
        vstd::pervasive::arbitrary()
    }

    /// Looks up the object named `id` and places its data into `buffer`.
    /// Gives `None` where the database does not hold the object. An object that is
    /// found is the one that the id names.
    fn try_find(&self, id: &ObjectId, buffer: &mut Vec<u8>, cache: &mut Self::Cache) -> (found:
        Result<Option<Object>, Self::Error>)
        ensures
            found matches Ok(Some(obj)) ==> self.content(id@) == (obj.kind, final(buffer)@),
    ;

    /// Where the object that `id` names lies in a pack, if the database knows it to be
    /// packed. As with [`Find::content`], a database that is verified says it here.
    open spec fn place(&self, id: Seq<u8>) -> Option<Location> {
        vstd::pervasive::arbitrary()
    }

    /// Where the object named `id` lies in a pack, if the database knows it to be packed.
    /// May use `buffer` as scratch space.
    fn location_by_oid(&self, id: &ObjectId, buffer: &mut Vec<u8>) -> (location: Option<Location>)
        ensures
            location == self.place(id@),
    ;
}

/// Why an object that must exist could not be had.
#[derive(Debug)]
pub enum ExistingError<E> {
    /// The lookup itself failed.
    Find(E),
    /// The database does not hold the object.
    NotFound { id: ObjectId },
}

/// Turns the answer of a lookup for `id` into the object, which has to exist.
pub fn existing<E>(found: Result<Option<Object>, E>, id: &ObjectId) -> (object: Result<
    Object,
    ExistingError<E>,
>)
    ensures
        object == match found {
            Ok(Some(o)) => Ok::<Object, ExistingError<E>>(o),
            Ok(None) => Err(ExistingError::NotFound { id: *id }),
            Err(e) => Err(ExistingError::Find(e)),
        },
{
    match found {
        Ok(Some(o)) => Ok(o),
        Ok(None) => Err(ExistingError::NotFound { id: *id }),
        Err(e) => Err(ExistingError::Find(e)),
    }
}

/// Looks up the object named `id`, which has to exist, and places its data into `buffer`.
/// Whatever the database answers, an object reported as missing is the one asked for.
pub fn find<F: Find>(db: &F, id: &ObjectId, buffer: &mut Vec<u8>, cache: &mut F::Cache) -> (object:
    Result<Object, ExistingError<F::Error>>)
    ensures
        object matches Err(ExistingError::NotFound { id: missing }) ==> missing == *id,
        object matches Ok(obj) ==> db.content(id@) == (obj.kind, final(buffer)@),
{
    let found = db.try_find(id, buffer, cache);
    existing(found, id)
}

} // verus!
