//! The values that a traversal takes and gives.
use vstd::prelude::*;
use crate::object::{Kind, ObjectId};

verus! {

/// How much to check.
#[derive(Clone, Copy, Debug, PartialEq, Eq, Hash, PartialOrd, Ord, Structural)]
pub enum SafetyCheck {
    /// Do not verify the checksums of pack and index, but check every object.
    SkipFileChecksumVerification,
    /// Verify neither the files nor the objects.
    SkipFileAndObjectChecksumVerification,
    /// Verify neither the files nor the objects, and pass over entries that do not
    /// decode.
    SkipFileAndObjectChecksumVerificationAndNoAbortOnDecodeError,
    /// Check everything.
    All,
}

impl SafetyCheck {
    /// Whether the checksums of pack and index are verified.
    pub open spec fn checks_files(self) -> bool {
        self == SafetyCheck::All
    }

    /// Whether the hash and the CRC32 of every object are verified.
    pub open spec fn checks_objects(self) -> bool {
        self == SafetyCheck::All || self == SafetyCheck::SkipFileChecksumVerification
    }

    /// Whether an entry that does not decode ends the traversal.
    pub open spec fn decode_errors_are_fatal(self) -> bool {
        self != SafetyCheck::SkipFileAndObjectChecksumVerificationAndNoAbortOnDecodeError
    }

    /// Whether the checksums of pack and index are verified.
    pub fn file_checksum(&self) -> (yes: bool)
        ensures
            yes == self.checks_files(),
    {
        match self {
            SafetyCheck::All => true,
            _ => false,
        }
    }

    /// Whether the hash and the CRC32 of every object are verified.
    pub fn object_checksum(&self) -> (yes: bool)
        ensures
            yes == self.checks_objects(),
    {
        match self {
            SafetyCheck::All | SafetyCheck::SkipFileChecksumVerification => true,
            _ => false,
        }
    }

    /// Whether an entry that does not decode ends the traversal.
    pub fn fatal_decode_error(&self) -> (yes: bool)
        ensures
            yes == self.decode_errors_are_fatal(),
    {
        match self {
            SafetyCheck::SkipFileAndObjectChecksumVerificationAndNoAbortOnDecodeError => false,
            _ => true,
        }
    }
}

impl Default for SafetyCheck {
    fn default() -> (check: SafetyCheck)
        ensures
            check == SafetyCheck::All,
    {
        SafetyCheck::All
    }
}

/// One entry of a pack index.
#[derive(Clone, Copy, Debug, PartialEq, Eq)]
pub struct Entry {
    /// The object that the entry stands for.
    pub oid: ObjectId,
    /// Where the entry starts in the pack.
    pub pack_offset: u64,
    /// The CRC32 of the entry in the pack, where the index records it.
    pub crc32: Option<u32>,
}

/// What decoding one entry told.
#[derive(Clone, Copy, Debug, PartialEq, Eq, Structural)]
pub struct EntryOutcome {
    /// The kind of the object.
    pub kind: Kind,
    /// The number of deltas that were applied to get the object.
    pub num_deltas: u32,
    /// The bytes that were decompressed on the way.
    pub decompressed_size: u64,
    /// The size of the entry in the pack, without its header.
    pub compressed_size: usize,
    /// The size of the object.
    pub object_size: u64,
}

/// Why a traversal failed.
#[derive(Debug)]
pub enum Error<E> {
    /// The processor of the caller refused an object.
    Processor(E),
    /// The index does not have the checksum that it records.
    VerifyChecksum { expected: ObjectId, actual: ObjectId },
    /// The pack does not have the checksum that it records.
    PackChecksum { expected: ObjectId, actual: ObjectId },
    /// The index was written for another pack.
    PackMismatch { expected: ObjectId, actual: ObjectId },
    /// Pack or index are too short to hold their checksums.
    Truncated,
    /// The entry of the object `id` at `offset` does not decode.
    PackDecode { id: ObjectId, offset: u64 },
    /// The object at `offset` hashes to another id than the index records.
    PackObjectMismatch { expected: ObjectId, actual: ObjectId, offset: u64, kind: Kind },
    /// The entry at `offset` has another CRC32 than the index records.
    Crc32Mismatch { expected: u32, actual: u32, offset: u64, kind: Kind },
    /// The caller asked to stop.
    Interrupted,
}

} // verus!
