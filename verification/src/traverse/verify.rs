//! Checking objects against their ids, and files against their checksums.
use vstd::prelude::*;
use crate::config::events::append;
use crate::describe::{decimal, decimal_of};
use crate::object::{Kind, ObjectId};
use crate::traverse::types::{Entry, Error, SafetyCheck};

verus! {

/// The SHA-1 digest of `data`: twenty bytes.
pub uninterp spec fn sha1(data: Seq<u8>) -> Seq<u8>;

/// The name of a kind of object, as it is written into objects.
pub open spec fn kind_name(kind: Kind) -> Seq<u8> {
    match kind {
        Kind::Tree => seq![0x74u8, 0x72u8, 0x65u8, 0x65u8],
        Kind::Blob => seq![0x62u8, 0x6cu8, 0x6fu8, 0x62u8],
        Kind::Commit => seq![0x63u8, 0x6fu8, 0x6du8, 0x6du8, 0x69u8, 0x74u8],
        Kind::Tag => seq![0x74u8, 0x61u8, 0x67u8],
    }
}

/// What stands before the data of an object of `kind` with `size` bytes when it is
/// hashed: the name of the kind, a blank, the size in decimal digits and a zero byte.
pub open spec fn loose_header(kind: Kind, size: nat) -> Seq<u8> {
    kind_name(kind) + seq![0x20u8] + decimal(size) + seq![0u8]
}

/// `git_features::hash::Sha1`: the digest of `first` followed by `rest`.
#[verifier::external_body]
fn sha1_of(first: &[u8], rest: &[u8]) -> (digest: [u8; 20])
    ensures
        digest@ == sha1(first@ + rest@),
{
    let mut hasher = git_features::hash::Sha1::default();
    hasher.update(first);
    hasher.update(rest);
    hasher.digest()
}

/// The header under which an object of `kind` with `size` bytes is hashed.
pub fn loose_header_of(kind: Kind, size: usize) -> (header: Vec<u8>)
    ensures
        header@ == loose_header(kind, size as nat),
{
    let mut header: Vec<u8> = Vec::new();
    match kind {
        Kind::Tree => {
            header.push(0x74);
            header.push(0x72);
            header.push(0x65);
            header.push(0x65);
        },
        Kind::Blob => {
            header.push(0x62);
            header.push(0x6c);
            header.push(0x6f);
            header.push(0x62);
        },
        Kind::Commit => {
            header.push(0x63);
            header.push(0x6f);
            header.push(0x6d);
            header.push(0x6d);
            header.push(0x69);
            header.push(0x74);
        },
        Kind::Tag => {
            header.push(0x74);
            header.push(0x61);
            header.push(0x67);
        },
    }
    assert(header@ =~= kind_name(kind));
    header.push(0x20);
    let digits = decimal_of(size as u64);
    append(&mut header, &digits);
    header.push(0);
    assert(header@ =~= kind_name(kind) + seq![0x20u8] + decimal(size as nat) + seq![0u8]);
    header
}

/// The id of the object of `kind` that is made of `data`.
pub open spec fn object_id_of(kind: Kind, data: Seq<u8>) -> Seq<u8> {
    sha1(loose_header(kind, data.len()) + data)
}

/// Computes the id of the object of `kind` that is made of `data`.
pub fn compute_hash(kind: Kind, data: &[u8]) -> (id: ObjectId)
    ensures
        id@ == object_id_of(kind, data@),
{
    let header = loose_header_of(kind, data.len());
    ObjectId::from_bytes(sha1_of(header.as_slice(), data))
}

/// Checks the object of `kind` that is made of `data` against its index entry, where
/// objects are checked at all: first its id, then the CRC32 of its pack entry, which
/// the caller has computed as `actual_crc32`, if the index records one.
pub fn check_entry<E>(
    check: SafetyCheck,
    kind: Kind,
    data: &[u8],
    entry: &Entry,
    actual_crc32: u32,
) -> (checked: Result<(), Error<E>>)
    ensures
        match checked {
            Ok(()) => !check.checks_objects() || (object_id_of(kind, data@) == entry.oid@ && (
            entry.crc32 matches Some(crc) ==> crc == actual_crc32)),
            Err(Error::PackObjectMismatch { expected, actual, offset, kind: of }) => {
                &&& check.checks_objects()
                &&& actual@ == object_id_of(kind, data@)
                &&& actual@ != entry.oid@
                &&& expected == entry.oid
                &&& offset == entry.pack_offset
                &&& of == kind
            },
            Err(Error::Crc32Mismatch { expected, actual, offset, kind: of }) => {
                &&& check.checks_objects()
                &&& object_id_of(kind, data@) == entry.oid@
                &&& entry.crc32 == Some(expected)
                &&& actual == actual_crc32
                &&& actual != expected
                &&& offset == entry.pack_offset
                &&& of == kind
            },
            Err(_) => false,
        },
{
    if !check.object_checksum() {
        return Ok(());
    }
    let actual = compute_hash(kind, data);
    if actual != entry.oid {
        return Err(
            Error::PackObjectMismatch {
                expected: entry.oid,
                actual,
                offset: entry.pack_offset,
                kind,
            },
        );
    }
    if let Some(expected) = entry.crc32 {
        if expected != actual_crc32 {
            return Err(
                Error::Crc32Mismatch {
                    expected,
                    actual: actual_crc32,
                    offset: entry.pack_offset,
                    kind,
                },
            );
        }
    }
    Ok(())
}

/// The checksum that a file of at least twenty bytes records: its last twenty bytes.
pub open spec fn recorded_checksum(data: Seq<u8>) -> Seq<u8> {
    data.subrange(data.len() - 20, data.len() as int)
}

/// The checksum that a file of at least twenty bytes has: the digest of all but its
/// last twenty bytes.
pub open spec fn actual_checksum(data: Seq<u8>) -> Seq<u8> {
    sha1(data.subrange(0, data.len() - 20))
}

/// The checksum that a file records at its end, if it is long enough to hold one.
pub fn trailer(data: &[u8]) -> (checksum: Option<ObjectId>)
    ensures
        checksum is Some <==> data@.len() >= 20,
        checksum matches Some(id) ==> id@ == recorded_checksum(data@),
{
    let len = data.len();
    if len < 20 {
        return None;
    }
    let id = ObjectId::try_from_slice(vstd::slice::slice_subrange(data, len - 20, len));
    id
}

/// Compares the checksum that a file has with the one that it records at its end, and
/// gives both where they differ. A file that is too short to record one gives nothing.
pub fn verify_checksum(data: &[u8]) -> (verified: Option<Result<ObjectId, (ObjectId, ObjectId)>>)
    ensures
        verified is Some <==> data@.len() >= 20,
        match verified {
            Some(Ok(id)) => id@ == recorded_checksum(data@) && actual_checksum(data@)
                == recorded_checksum(data@),
            Some(Err((expected, actual))) => expected@ == recorded_checksum(data@) && actual@
                == actual_checksum(data@) && actual_checksum(data@) != recorded_checksum(data@),
            None => true,
        },
{
    let len = data.len();
    let expected = match trailer(data) {
        Some(id) => id,
        None => {
            return None;
        },
    };
    let empty: [u8; 0] = [];
    let digest = sha1_of(vstd::slice::slice_subrange(data, 0, len - 20), empty.as_slice());
    let actual = ObjectId::from_bytes(digest);
    proof {
        assert(data@.subrange(0, len - 20) + empty@ =~= data@.subrange(0, len - 20));
    }
    if actual == expected {
        Some(Ok(expected))
    } else {
        Some(Err((expected, actual)))
    }
}

/// The checksum of the pack that an index of at least forty bytes was written for:
/// the twenty bytes before its own checksum.
pub open spec fn recorded_pack_checksum(index: Seq<u8>) -> Seq<u8> {
    index.subrange(index.len() - 40, index.len() - 20)
}

/// Verifies pack and index where files are verified at all, and gives the checksum of
/// the index. First the index has to be written for the pack, then the pack has to have
/// the checksum it records, then the index. Where files are not verified, only their
/// lengths matter.
pub fn possibly_verify<E>(check: SafetyCheck, index: &[u8], pack: &[u8]) -> (verified: Result<
    ObjectId,
    Error<E>,
>)
    ensures
        match verified {
            Ok(id) => {
                &&& index@.len() >= 40
                &&& id@ == recorded_checksum(index@)
                &&& check.checks_files() ==> {
                    &&& pack@.len() >= 20
                    &&& recorded_pack_checksum(index@) == recorded_checksum(pack@)
                    &&& actual_checksum(pack@) == recorded_checksum(pack@)
                    &&& actual_checksum(index@) == recorded_checksum(index@)
                }
            },
            Err(Error::Truncated) => index@.len() < 40 || (check.checks_files() && pack@.len() < 20),
            Err(Error::PackMismatch { expected, actual }) => {
                &&& check.checks_files()
                &&& index@.len() >= 40 && pack@.len() >= 20
                &&& expected@ == recorded_pack_checksum(index@)
                &&& actual@ == recorded_checksum(pack@)
                &&& expected@ != actual@
            },
            Err(Error::PackChecksum { expected, actual }) => {
                &&& check.checks_files()
                &&& index@.len() >= 40 && pack@.len() >= 20
                &&& recorded_pack_checksum(index@) == recorded_checksum(pack@)
                &&& expected@ == recorded_checksum(pack@)
                &&& actual@ == actual_checksum(pack@)
                &&& expected@ != actual@
            },
            Err(Error::VerifyChecksum { expected, actual }) => {
                &&& check.checks_files()
                &&& index@.len() >= 40 && pack@.len() >= 20
                &&& recorded_pack_checksum(index@) == recorded_checksum(pack@)
                &&& actual_checksum(pack@) == recorded_checksum(pack@)
                &&& expected@ == recorded_checksum(index@)
                &&& actual@ == actual_checksum(index@)
                &&& expected@ != actual@
            },
            Err(_) => false,
        },
{
    let len = index.len();
    if len < 40 {
        return Err(Error::Truncated);
    }
    let index_checksum = match trailer(index) {
        Some(id) => id,
        None => {
            return Err(Error::Truncated);
        },
    };
    if !check.file_checksum() {
        return Ok(index_checksum);
    }
    let pack_checksum = match trailer(pack) {
        Some(id) => id,
        None => {
            return Err(Error::Truncated);
        },
    };
    let expected_pack = match ObjectId::try_from_slice(
        vstd::slice::slice_subrange(index, len - 40, len - 20),
    ) {
        Some(id) => id,
        None => {
            return Err(Error::Truncated);
        },
    };
    if expected_pack != pack_checksum {
        return Err(Error::PackMismatch { expected: expected_pack, actual: pack_checksum });
    }
    match verify_checksum(pack) {
        Some(Ok(_)) => {},
        Some(Err((expected, actual))) => {
            return Err(Error::PackChecksum { expected, actual });
        },
        None => {
            return Err(Error::Truncated);
        },
    }
    match verify_checksum(index) {
        Some(Ok(id)) => Ok(id),
        Some(Err((expected, actual))) => Err(Error::VerifyChecksum { expected, actual }),
        None => Err(Error::Truncated),
    }
}

} // verus!
