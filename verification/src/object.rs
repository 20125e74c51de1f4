//! Object identifiers and object kinds.
use vstd::prelude::*;

verus! {

/// The number of bytes in an object identifier.
pub const ID_LEN: usize = 20;

/// The identifier of an object: the 20 bytes of its content hash.
#[derive(Clone, Copy, Debug, Eq, Hash, PartialOrd, Ord)]
pub struct ObjectId {
    /// The raw hash.
    pub bytes: [u8; 20],
}

impl View for ObjectId {
    type V = Seq<u8>;

    open spec fn view(&self) -> Seq<u8> {
        self.bytes@
    }
}

impl PartialEq for ObjectId {
    fn eq(&self, other: &ObjectId) -> (same: bool) {
        let mut i: usize = 0;
        while i < 20
            invariant
                i <= 20,
                forall|j: int| 0 <= j < i ==> self.bytes@[j] == other.bytes@[j],
            decreases 20 - i,
        {
            if self.bytes[i] != other.bytes[i] {
                return false;
            }
            i += 1;
        }
        assert(self.bytes@ =~= other.bytes@);
        true
    }
}

impl vstd::std_specs::cmp::PartialEqSpecImpl for ObjectId {
    open spec fn obeys_eq_spec() -> bool {
        true
    }

    open spec fn eq_spec(&self, other: &ObjectId) -> bool {
        self@ == other@
    }
}

impl ObjectId {
    /// An id made of the given hash bytes.
    pub fn from_bytes(bytes: [u8; 20]) -> (id: ObjectId)
        ensures
            id@ == bytes@,
    {
        ObjectId { bytes }
    }

    /// The id whose hash is the 20 bytes of `bytes`, if `bytes` has exactly that length.
    pub fn try_from_slice(bytes: &[u8]) -> (id: Option<ObjectId>)
        ensures
            id.is_some() <==> bytes@.len() == 20,
            id.is_some() ==> id.unwrap()@ == bytes@,
    {
        if bytes.len() != 20 {
            return None;
        }
        let mut out: [u8; 20] = [0u8; 20];
        let mut i: usize = 0;
        while i < 20
            invariant
                i <= 20,
                bytes@.len() == 20,
                forall|j: int| 0 <= j < i ==> out@[j] == bytes@[j],
            decreases 20 - i,
        {
            out[i] = bytes[i];
            i += 1;
        }
        assert(out@ =~= bytes@);
        Some(ObjectId { bytes: out })
    }

    /// The id with all bytes zero, which names no object.
    pub fn null() -> (id: ObjectId)
        ensures
            id@ == Seq::new(20, |i: int| 0u8),
    {
        let id = ObjectId { bytes: [0u8; 20] };
        assert(id@ =~= Seq::new(20, |i: int| 0u8));
        id
    }

    /// The hash bytes.
    pub fn as_bytes(&self) -> (bytes: &[u8; 20])
        ensures
            bytes@ == self@,
    {
        &self.bytes
    }
}

/// The four kinds of objects.
#[derive(Clone, Copy, Debug, PartialEq, Eq, Hash, PartialOrd, Ord, Structural)]
pub enum Kind {
    Tree,
    Blob,
    Commit,
    Tag,
}

} // verus!
