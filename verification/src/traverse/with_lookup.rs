//! The traversal itself: entries in the order of the pack, in chunks, each entry decoded
//! and handed to the caller, beside the verification of pack and index.
use vstd::prelude::*;
use std::sync::atomic::AtomicBool;
use std::sync::Arc;
use crate::count::util::{joined, lemma_joined_prefix, split_chunks};
use crate::interrupt::{is_set, raise};
use crate::object::{Kind, ObjectId};
use crate::parallel::optimize_chunk_size_and_thread_limit;
use crate::traverse::reduce::{
    lemma_with_entries_in_runs, no_totals, sums_up, with_entries, Outcome, Reducer,
};
use crate::traverse::types::{Entry, EntryOutcome, Error, SafetyCheck};
use crate::traverse::verify::{
    actual_checksum, check_entry, object_id_of, possibly_verify, recorded_checksum,
    recorded_pack_checksum,
};

verus! {

/// How to traverse.
#[derive(Debug, Clone)]
pub struct Options {
    /// The most threads to use, or `None` to use as many as there are logical cores.
    pub thread_limit: Option<usize>,
    /// How much to check.
    pub check: SafetyCheck,
    /// The flag by which the caller asks to stop. A failed verification sets it too.
    pub should_interrupt: Arc<AtomicBool>,
}

impl Default for Options {
    fn default() -> (options: Options)
        ensures
            options.thread_limit is None,
            options.check == SafetyCheck::All,
    {
        Options {
            thread_limit: None,
            check: SafetyCheck::All,
            should_interrupt: Arc::new(AtomicBool::new(false)),
        }
    }
}

/// What decoding one entry gave: what it took, and the CRC32 that the entry has in the
/// pack.
#[derive(Clone, Copy, Debug, PartialEq, Eq, Structural)]
pub struct Decoded {
    pub outcome: EntryOutcome,
    pub crc32: u32,
}

/// What decodes the entries of a pack, with the cache of its thread. One decoder
/// serves one thread and shares nothing. What an entry decodes to is a matter of the
/// pack alone: the cache makes decoding faster and changes no answer.
pub trait Decode {
    /// What decoding `entry` gives: what it took with the CRC32 of the entry, and the
    /// data of the object; or nothing where the entry does not decode. A decoder that
    /// is verified says it here; of any other nothing is known but what its answers
    /// tell.
    open spec fn answer(&self, entry: Entry) -> Option<(Decoded, Seq<u8>)> {
        vstd::pervasive::arbitrary()
    }

    /// Decodes the object of `entry` into `out`, and tells what that took. Gives
    /// nothing where the entry does not decode. The answers of the decoder stay what
    /// they are.
    fn decode_entry(&mut self, entry: &Entry, out: &mut Vec<u8>) -> (decoded: Option<Decoded>)
        ensures
            match decoded {
                Some(d) => old(self).answer(*entry) == Some((d, final(out)@)),
                None => old(self).answer(*entry) is None,
            },
            forall|e: Entry| #[trigger] final(self).answer(e) == old(self).answer(e),
    ;
}

/// What the caller does with each object of the pack.
pub trait Process {
    /// What is reported when an object is refused.
    type Error;

    /// Takes the object of `kind` that is made of `data` and that `entry` stands for.
    fn process(&mut self, kind: Kind, data: &[u8], entry: &Entry) -> (taken: Result<
        (),
        Self::Error,
    >);
}

/// Whether the object of `kind` that is made of `data` passes for `entry`: objects are
/// not checked, or it has the id of the entry and its pack entry the CRC32 that the
/// index records, if it records one.
pub open spec fn passes(check: SafetyCheck, kind: Kind, data: Seq<u8>, entry: Entry, crc32: u32) -> bool {
    !check.checks_objects() || (object_id_of(kind, data) == entry.oid@ && (entry.crc32 matches Some(
        crc,
    ) ==> crc == crc32))
}

/// What follows from the answer of the decoder for `entry`, whose data `data` holds: an
/// entry that does not decode is reported with its id and offset; an object that was
/// decoded is checked against the entry, and what decoding took is given where it
/// passes.
pub fn checked_entry<E>(
    check: SafetyCheck,
    entry: &Entry,
    decoded: Option<Decoded>,
    data: &[u8],
) -> (checked: Result<EntryOutcome, Error<E>>)
    ensures
        match decoded {
            None => checked matches Err(Error::PackDecode { id, offset }) && id == entry.oid
                && offset == entry.pack_offset,
            Some(d) => match checked {
                Ok(outcome) => outcome == d.outcome && passes(
                    check,
                    d.outcome.kind,
                    data@,
                    *entry,
                    d.crc32,
                ),
                Err(Error::PackObjectMismatch { expected, actual, offset, kind }) => {
                    &&& check.checks_objects()
                    &&& actual@ == object_id_of(kind, data@)
                    &&& actual@ != entry.oid@
                    &&& expected == entry.oid
                    &&& offset == entry.pack_offset
                    &&& kind == d.outcome.kind
                },
                Err(Error::Crc32Mismatch { expected, actual, offset, kind }) => {
                    &&& check.checks_objects()
                    &&& object_id_of(kind, data@) == entry.oid@
                    &&& entry.crc32 == Some(expected)
                    &&& actual == d.crc32
                    &&& actual != expected
                    &&& offset == entry.pack_offset
                    &&& kind == d.outcome.kind
                },
                Err(_) => false,
            },
        },
{
    let decoded = match decoded {
        Some(decoded) => decoded,
        None => {
            return Err(Error::PackDecode { id: entry.oid, offset: entry.pack_offset });
        },
    };
    match check_entry::<E>(check, decoded.outcome.kind, data, entry, decoded.crc32) {
        Ok(()) => Ok(decoded.outcome),
        Err(err) => Err(err),
    }
}

/// What follows from the answer of the processor for an object whose decoding took
/// `outcome`: a refusal ends the traversal with what the processor reported.
pub fn after_processing<E>(outcome: EntryOutcome, taken: Result<(), E>) -> (result: Result<
    EntryOutcome,
    Error<E>,
>)
    ensures
        result == match taken {
            Ok(()) => Ok::<EntryOutcome, Error<E>>(outcome),
            Err(err) => Err(Error::Processor(err)),
        },
{
    match taken {
        Ok(()) => Ok(outcome),
        Err(err) => Err(Error::Processor(err)),
    }
}

/// Whether `err` is a failure of the work on an entry, and so none of the verification
/// of the files and no interruption.
pub open spec fn fails_entry<E>(err: Error<E>) -> bool {
    err is Processor || err is PackDecode || err is PackObjectMismatch || err is Crc32Mismatch
}

/// Whether `entry` decodes to an object that passes for it.
pub open spec fn decodes_well<D: Decode>(decoder: D, check: SafetyCheck, entry: Entry) -> bool {
    decoder.answer(entry) matches Some((decoded, data)) && passes(
        check,
        decoded.outcome.kind,
        data,
        entry,
        decoded.crc32,
    )
}

/// What decoding took for those of the first `upto` entries that decode, in their
/// order.
pub open spec fn kept_outcomes<D: Decode>(decoder: D, entries: Seq<Entry>, upto: int) -> Seq<
    EntryOutcome,
>
    decreases upto,
{
    if upto <= 0 {
        Seq::empty()
    } else {
        let before = kept_outcomes(decoder, entries, upto - 1);
        match decoder.answer(entries[upto - 1]) {
            Some((decoded, _)) => before.push(decoded.outcome),
            None => before,
        }
    }
}

/// Those of the first `upto` entries that do not decode, in their order, each by its
/// object and offset.
pub open spec fn passed_over<D: Decode>(decoder: D, entries: Seq<Entry>, upto: int) -> Seq<
    (ObjectId, u64),
>
    decreases upto,
{
    if upto <= 0 {
        Seq::empty()
    } else {
        let before = passed_over(decoder, entries, upto - 1);
        match decoder.answer(entries[upto - 1]) {
            Some(_) => before,
            None => before.push((entries[upto - 1].oid, entries[upto - 1].pack_offset)),
        }
    }
}

/// Whether those of the first `upto` entries that decode pass for their entries.
pub open spec fn all_pass<D: Decode>(
    decoder: D,
    check: SafetyCheck,
    entries: Seq<Entry>,
    upto: int,
) -> bool {
    forall|j: int|
        0 <= j < upto && decoder.answer(#[trigger] entries[j]) is Some ==> decodes_well(
            decoder,
            check,
            entries[j],
        )
}

/// Whether two decoders give the same answers.
pub open spec fn same_answers<D: Decode>(a: D, b: D) -> bool {
    forall|e: Entry| #[trigger] a.answer(e) == b.answer(e)
}

/// Decoders with the same answers keep and pass over the same.
pub proof fn lemma_same_answers<D: Decode>(a: D, b: D, check: SafetyCheck, entries: Seq<Entry>, upto: int)
    requires
        same_answers(a, b),
    ensures
        kept_outcomes(a, entries, upto) == kept_outcomes(b, entries, upto),
        passed_over(a, entries, upto) == passed_over(b, entries, upto),
        all_pass(a, check, entries, upto) == all_pass(b, check, entries, upto),
    decreases upto,
{
    if upto > 0 {
        lemma_same_answers(a, b, check, entries, upto - 1);
        assert(a.answer(entries[upto - 1]) == b.answer(entries[upto - 1]));
    }
    assert forall|j: int| a.answer(#[trigger] entries[j]) == b.answer(entries[j]) by {}
    assert forall|j: int| decodes_well(a, check, #[trigger] entries[j]) == decodes_well(
        b,
        check,
        entries[j],
    ) by {
        assert(a.answer(entries[j]) == b.answer(entries[j]));
    }
}

/// What is kept and passed over of entries that follow others is added to what is kept
/// and passed over of those.
pub proof fn lemma_kept_in_runs<D: Decode>(
    decoder: D,
    check: SafetyCheck,
    all: Seq<Entry>,
    from: int,
    run: Seq<Entry>,
    upto: int,
)
    requires
        0 <= from,
        0 <= upto <= run.len(),
        from + upto <= all.len(),
        forall|i: int| 0 <= i < upto ==> all[from + i] == #[trigger] run[i],
    ensures
        kept_outcomes(decoder, all, from + upto) == kept_outcomes(decoder, all, from)
            + kept_outcomes(decoder, run, upto),
        passed_over(decoder, all, from + upto) == passed_over(decoder, all, from) + passed_over(
            decoder,
            run,
            upto,
        ),
        all_pass(decoder, check, all, from) && all_pass(decoder, check, run, upto) ==> all_pass(
            decoder,
            check,
            all,
            from + upto,
        ),
    decreases upto,
{
    if upto > 0 {
        lemma_kept_in_runs(decoder, check, all, from, run, upto - 1);
        assert(all[from + upto - 1] == run[upto - 1]);
        assert(kept_outcomes(decoder, all, from + upto) =~= kept_outcomes(decoder, all, from)
            + kept_outcomes(decoder, run, upto));
        assert(passed_over(decoder, all, from + upto) =~= passed_over(decoder, all, from)
            + passed_over(decoder, run, upto));
    } else {
        assert(kept_outcomes(decoder, all, from) + kept_outcomes(decoder, run, 0)
            =~= kept_outcomes(decoder, all, from));
        assert(passed_over(decoder, all, from) + passed_over(decoder, run, 0) =~= passed_over(
            decoder,
            all,
            from,
        ));
    }
    if all_pass(decoder, check, all, from) && all_pass(decoder, check, run, upto) {
        assert forall|j: int|
            0 <= j < from + upto && decoder.answer(#[trigger] all[j]) is Some implies decodes_well(
            decoder,
            check,
            all[j],
        ) by {
            if j >= from {
                assert(all[from + (j - from)] == run[j - from]);
            }
        }
    }
}

/// Decodes the object of `entry` into `buf`, checks it against the entry as the policy
/// asks, and hands it to the processor. Gives what decoding took.
///
/// Whatever decoder and processor answer: an object that was processed passed the
/// check; an entry that is said not to decode is `entry`; an object that is said not
/// to fit the entry does not; and no other failure comes but what the processor
/// reports.
pub fn decode_and_process_entry<D: Decode, P: Process>(
    decoder: &mut D,
    processor: &mut P,
    buf: &mut Vec<u8>,
    check: SafetyCheck,
    entry: &Entry,
) -> (result: Result<EntryOutcome, Error<P::Error>>)
    ensures
        match result {
            Ok(outcome) => check.checks_objects() ==> object_id_of(outcome.kind, final(buf)@)
                == entry.oid@,
            Err(Error::PackDecode { id, offset }) => id == entry.oid && offset
                == entry.pack_offset,
            Err(Error::PackObjectMismatch { expected, actual, offset, kind }) => {
                &&& check.checks_objects()
                &&& actual@ == object_id_of(kind, final(buf)@)
                &&& actual@ != entry.oid@
                &&& expected == entry.oid
                &&& offset == entry.pack_offset
            },
            Err(Error::Crc32Mismatch { expected, actual, offset, kind }) => {
                &&& check.checks_objects()
                &&& object_id_of(kind, final(buf)@) == entry.oid@
                &&& entry.crc32 == Some(expected)
                &&& actual != expected
                &&& offset == entry.pack_offset
            },
            Err(Error::Processor(_)) => true,
            Err(_) => false,
        },
        same_answers(*final(decoder), *old(decoder)),
        result matches Err(err) ==> explains(*old(decoder), check, *entry, err),
        match old(decoder).answer(*entry) {
            None => result matches Err(Error::PackDecode { .. }),
            Some((decoded, data)) => data == final(buf)@ && !(result matches Err(
                Error::PackDecode { .. },
            )) && match result {
                Ok(outcome) => outcome == decoded.outcome && passes(
                    check,
                    decoded.outcome.kind,
                    data,
                    *entry,
                    decoded.crc32,
                ),
                Err(Error::Processor(_)) => passes(
                    check,
                    decoded.outcome.kind,
                    data,
                    *entry,
                    decoded.crc32,
                ),
                Err(_) => !passes(check, decoded.outcome.kind, data, *entry, decoded.crc32),
            },
        },
{
    let decoded = decoder.decode_entry(entry, buf);
    let outcome = match checked_entry::<P::Error>(check, entry, decoded, buf.as_slice()) {
        Ok(outcome) => outcome,
        Err(err) => {
            return Err(err);
        },
    };
    let taken = processor.process(outcome.kind, buf.as_slice(), entry);
    after_processing(outcome, taken)
}

/// Whether `entries` stand in the order of the pack.
pub open spec fn ascending(entries: Seq<Entry>) -> bool {
    forall|i: int, j: int|
        0 <= i <= j < entries.len() ==> entries[i].pack_offset <= entries[j].pack_offset
}

/// `slice::sort_by_key` of the standard library, by the offset in the pack: the same
/// entries, in ascending order of their offsets.
#[verifier::external_body]
fn sort_by_offset(entries: &mut Vec<Entry>)
    ensures
        final(entries)@.to_multiset() == old(entries)@.to_multiset(),
        ascending(final(entries)@),
{
    entries.sort_by_key(|e| e.pack_offset)
}

/// The entries of an index in the order in which they lie in the pack, which favours
/// reading the pack from front to back.
pub fn index_entries_sorted_by_offset_ascending(entries: Vec<Entry>) -> (sorted: Vec<Entry>)
    ensures
        sorted@.to_multiset() == entries@.to_multiset(),
        sorted@.len() == entries@.len(),
        ascending(sorted@),
{
    let mut sorted = entries;
    sort_by_offset(&mut sorted);
    proof {
        sorted@.to_multiset_ensures();
        entries@.to_multiset_ensures();
    }
    sorted
}

/// What follows from the work on one entry.
#[derive(Debug)]
pub enum Step<E> {
    /// The entry was decoded and processed, and this is what decoding took.
    Keep(EntryOutcome),
    /// The entry does not decode and is passed over, with a word to the caller.
    Skip { id: ObjectId, offset: u64 },
    /// The traversal fails.
    Abort(Error<E>),
}

/// Decides what follows from the work on one entry: what was decoded is kept; an entry
/// that does not decode is passed over where the policy says that this is not fatal;
/// every other failure ends the traversal.
pub fn entry_step<E>(check: SafetyCheck, result: Result<EntryOutcome, Error<E>>) -> (step: Step<E>)
    ensures
        step == match result {
            Ok(outcome) => Step::<E>::Keep(outcome),
            Err(Error::PackDecode { id, offset }) => if check.decode_errors_are_fatal() {
                Step::Abort(Error::PackDecode { id, offset })
            } else {
                Step::Skip { id, offset }
            },
            Err(err) => Step::Abort(err),
        },
{
    match result {
        Ok(outcome) => Step::Keep(outcome),
        Err(Error::PackDecode { id, offset }) => {
            if check.fatal_decode_error() {
                Step::Abort(Error::PackDecode { id, offset })
            } else {
                Step::Skip { id, offset }
            }
        },
        Err(err) => Step::Abort(err),
    }
}

/// Whether what the decoder answers for `entry` explains the failure `err` of the work
/// on it: an entry that is said not to decode does not, an object that is said not to
/// fit its entry does not pass for it, and one that the processor refused did pass.
pub open spec fn explains<D: Decode, E>(
    decoder: D,
    check: SafetyCheck,
    entry: Entry,
    err: Error<E>,
) -> bool {
    match err {
        Error::PackDecode { id, offset } => id == entry.oid && offset == entry.pack_offset
            && decoder.answer(entry) is None,
        Error::PackObjectMismatch { .. } | Error::Crc32Mismatch { .. } => decoder.answer(entry)
            is Some && !decodes_well(decoder, check, entry),
        Error::Processor(_) => decodes_well(decoder, check, entry),
        _ => false,
    }
}

/// Whether what the decoder answers for one of `entries` explains the failure `err`.
pub open spec fn some_explains<D: Decode, E>(
    decoder: D,
    check: SafetyCheck,
    entries: Seq<Entry>,
    err: Error<E>,
) -> bool {
    exists|j: int| 0 <= j < entries.len() && explains(decoder, check, #[trigger] entries[j], err)
}

/// What explains a failure among some entries explains it among all that hold them.
pub proof fn lemma_explained_among<D: Decode, E>(
    decoder: D,
    other: D,
    check: SafetyCheck,
    some: Seq<Entry>,
    all: Seq<Entry>,
    err: Error<E>,
)
    requires
        same_answers(decoder, other),
        some_explains(decoder, check, some, err),
        forall|j: int| 0 <= j < some.len() ==> all.contains(#[trigger] some[j]),
    ensures
        some_explains(other, check, all, err),
{
    let j = choose|j: int| 0 <= j < some.len() && explains(decoder, check, #[trigger] some[j], err);
    assert(all.contains(some[j]));
    let k = choose|k: int| 0 <= k < all.len() && all[k] == some[j];
    assert(decoder.answer(all[k]) == other.answer(all[k]));
    assert(explains(other, check, all[k], err));
}

/// Whether `entries` hold an entry of the object `id` at `offset`.
pub open spec fn names_entry(entries: Seq<Entry>, id: ObjectId, offset: u64) -> bool {
    exists|j: int|
        0 <= j < entries.len() && (#[trigger] entries[j]).oid == id && entries[j].pack_offset
            == offset
}

/// Whether each of `skipped` from `from` on is an entry of `entries`.
pub open spec fn skips_name_entries(
    entries: Seq<Entry>,
    skipped: Seq<(ObjectId, u64)>,
    from: int,
) -> bool {
    forall|i: int|
        from <= i < skipped.len() ==> names_entry(entries, (#[trigger] skipped[i]).0, skipped[i].1)
}

/// Works off one chunk of entries, in their order, and gives what decoding each entry
/// took. Entries that were passed over are listed in `skipped`.
///
/// What is given on success is what the decoder answers: the outcomes are those of the
/// entries that decode, in their order, each of which passed for its entry, and what
/// was passed over are the entries that do not decode. With a policy under which
/// decode errors are fatal there is an outcome for each entry, and none is passed over.
/// A chunk without entries gives no outcome and cannot fail; a failure is one of the
/// work on an entry. Whether the processor takes an object is for the processor to
/// say.
pub fn process_chunk<D: Decode, P: Process>(
    decoder: &mut D,
    processor: &mut P,
    buf: &mut Vec<u8>,
    check: SafetyCheck,
    entries: &Vec<Entry>,
    skipped: &mut Vec<(ObjectId, u64)>,
) -> (stats: Result<Vec<EntryOutcome>, Error<P::Error>>)
    ensures
        old(skipped)@.len() <= final(skipped)@.len(),
        final(skipped)@.take(old(skipped)@.len() as int) == old(skipped)@,
        skips_name_entries(entries@, final(skipped)@, old(skipped)@.len() as int),
        check.decode_errors_are_fatal() ==> final(skipped)@ == old(skipped)@,
        stats matches Ok(list) ==> list@.len() + (final(skipped)@.len() - old(skipped)@.len())
            == entries@.len(),
        entries@.len() == 0 ==> (stats matches Ok(list) && list@.len() == 0 && final(skipped)@
            == old(skipped)@),
        same_answers(*final(decoder), *old(decoder)),
        stats matches Ok(list) ==> list@ == kept_outcomes(
            *old(decoder),
            entries@,
            entries@.len() as int,
        ) && final(skipped)@ == old(skipped)@ + passed_over(
            *old(decoder),
            entries@,
            entries@.len() as int,
        ) && all_pass(*old(decoder), check, entries@, entries@.len() as int),
        stats matches Err(err) ==> fails_entry(err) && some_explains(
            *old(decoder),
            check,
            entries@,
            err,
        ),
        stats matches Err(Error::PackDecode { id, offset }) ==> (check.decode_errors_are_fatal()
            && names_entry(entries@, id, offset)),
{
    let mut stats: Vec<EntryOutcome> = Vec::new();
    let mut i: usize = 0;
    proof {
        assert(skipped@ + passed_over(*decoder, entries@, 0) =~= skipped@);
    }
    while i < entries.len()
        invariant
            i <= entries@.len(),
            same_answers(*decoder, *old(decoder)),
            stats@ == kept_outcomes(*old(decoder), entries@, i as int),
            skipped@ == old(skipped)@ + passed_over(*old(decoder), entries@, i as int),
            all_pass(*old(decoder), check, entries@, i as int),
            old(skipped)@.len() <= skipped@.len(),
            skipped@.take(old(skipped)@.len() as int) == old(skipped)@,
            skips_name_entries(entries@, skipped@, old(skipped)@.len() as int),
            check.decode_errors_are_fatal() ==> skipped@ == old(skipped)@,
            i == 0 ==> skipped@ == old(skipped)@,
            stats@.len() + (skipped@.len() - old(skipped)@.len()) == i,
        decreases entries@.len() - i,
    {
        let ghost decoder_then = *decoder;
        let result = decode_and_process_entry(decoder, processor, buf, check, &entries[i]);
        let ghost skipped_then = skipped@;
        proof {
            assert(decoder_then.answer(entries@[i as int]) == old(decoder).answer(entries@[i as int]));
            assert forall|e: Entry| #[trigger] decoder.answer(e) == old(decoder).answer(e) by {
                assert(decoder.answer(e) == decoder_then.answer(e));
                assert(decoder_then.answer(e) == old(decoder).answer(e));
            }
        }
        match entry_step(check, result) {
            Step::Keep(outcome) => {
                stats.push(outcome);
                proof {
                    assert forall|j: int|
                        0 <= j < i + 1 && old(decoder).answer(#[trigger] entries@[j])
                            is Some implies decodes_well(*old(decoder), check, entries@[j]) by {}
                }
            },
            Step::Skip { id, offset } => {
                skipped.push((id, offset));
                proof {
                    assert(skipped@ =~= old(skipped)@ + passed_over(
                        *old(decoder),
                        entries@,
                        i as int,
                    ).push((id, offset)));
                    assert forall|j: int|
                        0 <= j < i + 1 && old(decoder).answer(#[trigger] entries@[j])
                            is Some implies decodes_well(*old(decoder), check, entries@[j]) by {}
                    assert(skipped@.take(old(skipped)@.len() as int) =~= old(skipped)@);
                    assert(entries@[i as int].oid == id && entries@[i as int].pack_offset == offset);
                    assert forall|k: int| old(skipped)@.len() <= k < skipped@.len() implies names_entry(
                        entries@,
                        (#[trigger] skipped@[k]).0,
                        skipped@[k].1,
                    ) by {
                        if k < skipped_then.len() {
                            assert(skipped@[k] == skipped_then[k]);
                        }
                    }
                }
            },
            Step::Abort(err) => {
                proof {
                    assert(explains(decoder_then, check, entries@[i as int], err));
                    assert(explains(*old(decoder), check, entries@[i as int], err));
                    if let Error::PackDecode { id, offset } = err {
                        assert(entries@[i as int].oid == id && entries@[i as int].pack_offset
                            == offset);
                    }
                }
                return Err(err);
            },
        }
        i += 1;
    }
    assert(skipped@.take(old(skipped)@.len() as int) =~= old(skipped)@);
    Ok(stats)
}

/// What a traversal gives when both of its halves are done: the failure of the
/// verification if it failed, else the failure of the traversal of the entries if that
/// failed, else the checksum of the index with the summary of the pack.
pub fn join<E>(verified: Result<ObjectId, Error<E>>, traversed: Result<Outcome, Error<E>>) -> (joined:
    Result<(ObjectId, Outcome), Error<E>>)
    ensures
        joined == match (verified, traversed) {
            (Err(err), _) => Err::<(ObjectId, Outcome), Error<E>>(err),
            (Ok(_), Err(err)) => Err(err),
            (Ok(id), Ok(outcome)) => Ok((id, outcome)),
        },
{
    match verified {
        Err(err) => Err(err),
        Ok(id) => match traversed {
            Err(err) => Err(err),
            Ok(outcome) => Ok((id, outcome)),
        },
    }
}

/// An entry of one of the first chunks is an entry of all that the chunks hold.
proof fn lemma_chunk_entry(parts: Seq<Vec<Entry>>, k: int, id: ObjectId, offset: u64)
    requires
        0 <= k < parts.len(),
        names_entry(parts[k]@, id, offset),
    ensures
        names_entry(joined(parts, parts.len() as int), id, offset),
{
    let j = choose|j: int|
        0 <= j < parts[k]@.len() && (#[trigger] parts[k]@[j]).oid == id && parts[k]@[j].pack_offset
            == offset;
    let all = joined(parts, parts.len() as int);
    lemma_joined_prefix(parts, k + 1, parts.len() as int);
    let upto = joined(parts, k + 1);
    let at = joined(parts, k).len() + j;
    assert(upto[at] == parts[k]@[j]);
    assert(all.take(upto.len() as int)[at] == all[at]);
    assert(all[at].oid == id && all[at].pack_offset == offset);
}

/// Works off all `entries` in chunks of `chunk_size`, and sums up what they told.
fn traverse_entries<D: Decode, P: Process>(
    decoder: &mut D,
    processor: &mut P,
    check: SafetyCheck,
    entries: Vec<Entry>,
    chunk_size: usize,
    pack_size: u64,
    should_interrupt: &AtomicBool,
    skipped: &mut Vec<(ObjectId, u64)>,
) -> (outcome: Result<Outcome, Error<P::Error>>)
    ensures
        old(skipped)@.len() <= final(skipped)@.len(),
        final(skipped)@.take(old(skipped)@.len() as int) == old(skipped)@,
        skips_name_entries(entries@, final(skipped)@, old(skipped)@.len() as int),
        check.decode_errors_are_fatal() ==> final(skipped)@ == old(skipped)@,
        outcome matches Ok(summary) ==> exists|kept: Seq<EntryOutcome>|
            #[trigger] sums_up(summary, pack_size, kept) && kept.len() + final(skipped)@.len()
                == entries@.len() + old(skipped)@.len(),
        same_answers(*final(decoder), *old(decoder)),
        outcome matches Ok(summary) ==> sums_up(
            summary,
            pack_size,
            kept_outcomes(*old(decoder), entries@, entries@.len() as int),
        ) && final(skipped)@ == old(skipped)@ + passed_over(
            *old(decoder),
            entries@,
            entries@.len() as int,
        ) && all_pass(*old(decoder), check, entries@, entries@.len() as int),
        entries@.len() == 0 ==> outcome is Ok && final(skipped)@ == old(skipped)@,
        outcome matches Err(err) ==> (fails_entry(err) || err is Interrupted),
        outcome matches Err(err) ==> err is Interrupted || some_explains(
            *old(decoder),
            check,
            entries@,
            err,
        ),
        outcome matches Err(Error::PackDecode { id, offset }) ==> (check.decode_errors_are_fatal()
            && names_entry(entries@, id, offset)),
{
    let ghost all = entries@;
    let ghost mut kept: Seq<EntryOutcome> = Seq::empty();
    let total = entries.len();
    let chunks = split_chunks(entries, chunk_size);
    let ghost parts = chunks@;
    let number = chunks.len();
    let mut reducer = Reducer::new(pack_size);
    let mut buf: Vec<u8> = Vec::new();
    proof {
        assert(skipped@.take(skipped@.len() as int) =~= skipped@);
        assert(skipped@ + passed_over(*decoder, all, 0) =~= skipped@);
        if all.len() == 0 && parts.len() > 0 {
            lemma_joined_prefix(parts, 1, parts.len() as int);
            assert(joined(parts, 1) =~= parts[0]@);
        }
    }
    for chunk in it: chunks
        invariant
            it.seq() == parts,
            parts.len() == number,
            joined(parts, parts.len() as int) == all,
            all == entries@,
            all.len() == total,
            all.len() == 0 ==> parts.len() == 0,
            reducer.stats.pack_size == pack_size,
            reducer.entries_seen == kept.len(),
            same_answers(*decoder, *old(decoder)),
            kept == kept_outcomes(*old(decoder), all, joined(parts, it.index() as int).len() as int),
            skipped@ == old(skipped)@ + passed_over(
                *old(decoder),
                all,
                joined(parts, it.index() as int).len() as int,
            ),
            all_pass(*old(decoder), check, all, joined(parts, it.index() as int).len() as int),
            reducer.totals() == with_entries(no_totals(), kept, kept.len() as int),
            kept.len() + (skipped@.len() - old(skipped)@.len()) == joined(
                parts,
                it.index() as int,
            ).len(),
            old(skipped)@.len() <= skipped@.len(),
            skipped@.take(old(skipped)@.len() as int) == old(skipped)@,
            skips_name_entries(all, skipped@, old(skipped)@.len() as int),
            check.decode_errors_are_fatal() ==> skipped@ == old(skipped)@,
    {
        let ghost k = it.index() as int;
        let ghost skipped_then = skipped@;
        proof {
            lemma_joined_prefix(parts, k + 1, parts.len() as int);
            assert(chunk == parts[k]);
            assert(joined(parts, k + 1).len() <= all.len());
        }
        let ghost decoder_then = *decoder;
        let ghost done = joined(parts, k);
        let stats = process_chunk(decoder, processor, &mut buf, check, &chunk, skipped);
        proof {
            assert forall|e: Entry| #[trigger] decoder.answer(e) == old(decoder).answer(e) by {
                assert(decoder.answer(e) == decoder_then.answer(e));
                assert(decoder_then.answer(e) == old(decoder).answer(e));
            }
            if let Ok(list) = &stats {
                lemma_with_entries_in_runs(no_totals(), kept, list@, list@.len() as int);
                assert forall|i: int| 0 <= i < chunk@.len() implies all[done.len() + i]
                    == #[trigger] chunk@[i] by {
                    assert(joined(parts, k + 1)[done.len() + i] == chunk@[i]);
                    assert(all.take(joined(parts, k + 1).len() as int)[done.len() + i]
                        == all[done.len() + i]);
                }
                lemma_same_answers(decoder_then, *old(decoder), check, chunk@, chunk@.len() as int);
                lemma_kept_in_runs(
                    *old(decoder),
                    check,
                    all,
                    done.len() as int,
                    chunk@,
                    chunk@.len() as int,
                );
                assert(skipped@ =~= old(skipped)@ + passed_over(
                    *old(decoder),
                    all,
                    (done.len() + chunk@.len()) as int,
                ));
                kept = kept + list@;
            }
            if let Err(Error::PackDecode { id, offset }) = &stats {
                lemma_chunk_entry(parts, k, *id, *offset);
            }
            if let Err(err) = &stats {
                assert forall|j: int| 0 <= j < chunk@.len() implies all.contains(
                    #[trigger] chunk@[j],
                ) by {
                    assert(joined(parts, k + 1)[done.len() + j] == chunk@[j]);
                    assert(all.take(joined(parts, k + 1).len() as int)[done.len() + j]
                        == all[done.len() + j]);
                }
                lemma_explained_among(decoder_then, *old(decoder), check, chunk@, all, *err);
            }
            assert(skipped@.take(old(skipped)@.len() as int) =~= old(skipped)@) by {
                assert(skipped@.take(skipped_then.len() as int) == skipped_then);
                assert forall|i: int| 0 <= i < old(skipped)@.len() implies skipped@[i] == old(
                    skipped,
                )@[i] by {
                    assert(skipped@.take(skipped_then.len() as int)[i] == skipped@[i]);
                    assert(skipped_then.take(old(skipped)@.len() as int)[i] == skipped_then[i]);
                }
            }
            assert forall|i: int| old(skipped)@.len() <= i < skipped@.len() implies names_entry(
                all,
                (#[trigger] skipped@[i]).0,
                skipped@[i].1,
            ) by {
                if i < skipped_then.len() {
                    assert(skipped@.take(skipped_then.len() as int)[i] == skipped@[i]);
                    assert(names_entry(all, skipped_then[i].0, skipped_then[i].1));
                } else {
                    assert(names_entry(chunk@, skipped@[i].0, skipped@[i].1));
                    lemma_chunk_entry(parts, k, skipped@[i].0, skipped@[i].1);
                }
            }
        }
        let interrupted = is_set(should_interrupt);
        match reducer.feed(stats, interrupted) {
            Ok(()) => {},
            Err(err) => {
                return Err(err);
            },
        }
    }
    let summary = reducer.finalize();
    proof {
        assert(joined(parts, parts.len() as int) == all);
        assert(sums_up(summary, pack_size, kept));
    }
    Ok(summary)
}

/// Whether pack and index pass the verification that `check` asks for: both are long
/// enough, and where files are verified the index is written for the pack and both
/// have the checksums that they record.
pub open spec fn verifies(check: SafetyCheck, index: Seq<u8>, pack: Seq<u8>) -> bool {
    &&& index.len() >= 40
    &&& check.checks_files() ==> {
        &&& pack.len() >= 20
        &&& recorded_pack_checksum(index) == recorded_checksum(pack)
        &&& actual_checksum(pack) == recorded_checksum(pack)
        &&& actual_checksum(index) == recorded_checksum(index)
    }
}

/// Whether a traversal of `entries` in the order `sorted`, which is that of the pack,
/// gives the summary `outcome` and passes over what `after` holds more than `before`:
/// the summary sums up what decoding took for the entries that decode, each of which
/// passes for its entry, and the entries that do not decode are passed over, in that
/// order.
pub open spec fn traversed_as<D: Decode>(
    decoder: D,
    check: SafetyCheck,
    entries: Seq<Entry>,
    sorted: Seq<Entry>,
    outcome: Outcome,
    pack_size: u64,
    before: Seq<(ObjectId, u64)>,
    after: Seq<(ObjectId, u64)>,
) -> bool {
    &&& sorted.to_multiset() == entries.to_multiset()
    &&& ascending(sorted)
    &&& sums_up(outcome, pack_size, kept_outcomes(decoder, sorted, sorted.len() as int))
    &&& after == before + passed_over(decoder, sorted, sorted.len() as int)
    &&& all_pass(decoder, check, sorted, sorted.len() as int)
}

/// The entries of a permutation are the entries of what was permuted.
proof fn lemma_sorted_entry(sorted: Seq<Entry>, entries: Seq<Entry>, id: ObjectId, offset: u64)
    requires
        sorted.to_multiset() == entries.to_multiset(),
        names_entry(sorted, id, offset),
    ensures
        names_entry(entries, id, offset),
{
    let j = choose|j: int|
        0 <= j < sorted.len() && (#[trigger] sorted[j]).oid == id && sorted[j].pack_offset == offset;
    sorted.to_multiset_ensures();
    entries.to_multiset_ensures();
    assert(sorted.contains(sorted[j]));
    assert(sorted.to_multiset().count(sorted[j]) > 0);
    assert(entries.to_multiset().count(sorted[j]) > 0);
    assert(entries.contains(sorted[j]));
    let k = choose|k: int| 0 <= k < entries.len() && entries[k] == sorted[j];
    assert(entries[k].oid == id && entries[k].pack_offset == offset);
}

/// A pack index in memory: the bytes of the index file, which end in the checksum of
/// the pack and in that of the index itself, and the entries that the bytes list.
#[derive(Debug, Clone)]
pub struct File {
    pub data: Vec<u8>,
    pub entries: Vec<Entry>,
}

impl File {
    /// Verifies pack and index as the policy asks, and walks all entries of the index
    /// in the order of the pack: each entry is decoded by `decoder`, checked against the
    /// index as the policy asks, and handed to `processor`, and what decoding took is
    /// summed up. Gives the checksum of the index with the summary.
    ///
    /// A verification that fails sets the flag of the options and is the error of the
    /// call, so that pack and index with a checksum that does not fit never give a
    /// result; no other failure of the call is one of the verification. Entries that do
    /// not decode end the call, unless the policy says otherwise: then they are passed
    /// over and listed in `skipped`. The summary of a call that succeeds sums up what
    /// the decoder answers for the entries that decode, taken in an order of the pack,
    /// and what is passed over are the entries that do not decode, as [`traversed_as`]
    /// says. An index without entries that passes the verification gives the summary of
    /// nothing, whatever decoder, processor and flag say.
    pub fn traverse_with_lookup<D: Decode, P: Process>(
        &self,
        pack: &[u8],
        decoder: &mut D,
        processor: &mut P,
        skipped: &mut Vec<(ObjectId, u64)>,
        options: Options,
    ) -> (done: Result<(ObjectId, Outcome), Error<P::Error>>)
        requires
            options.thread_limit matches Some(limit) ==> limit <= usize::MAX / 2,
        ensures
            old(skipped)@.len() <= final(skipped)@.len(),
            final(skipped)@.take(old(skipped)@.len() as int) == old(skipped)@,
            skips_name_entries(self.entries@, final(skipped)@, old(skipped)@.len() as int),
            options.check.decode_errors_are_fatal() ==> final(skipped)@ == old(skipped)@,
            match done {
                Ok((id, outcome)) => {
                    &&& verifies(options.check, self.data@, pack@)
                    &&& id@ == recorded_checksum(self.data@)
                    &&& exists|sorted: Seq<Entry>| #[trigger]
                        traversed_as(
                            *old(decoder),
                            options.check,
                            self.entries@,
                            sorted,
                            outcome,
                            pack@.len() as u64,
                            old(skipped)@,
                            final(skipped)@,
                        )
                    &&& exists|kept: Seq<EntryOutcome>|
                        #[trigger] sums_up(outcome, pack@.len() as u64, kept) && kept.len()
                            + final(skipped)@.len() == self.entries@.len() + old(skipped)@.len()
                },
                Err(Error::Truncated) => self.data@.len() < 40 || (options.check.checks_files()
                    && pack@.len() < 20),
                Err(Error::PackMismatch { expected, actual }) => {
                    &&& options.check.checks_files()
                    &&& self.data@.len() >= 40 && pack@.len() >= 20
                    &&& expected@ == recorded_pack_checksum(self.data@)
                    &&& actual@ == recorded_checksum(pack@)
                    &&& expected@ != actual@
                },
                Err(Error::PackChecksum { expected, actual }) => {
                    &&& options.check.checks_files()
                    &&& self.data@.len() >= 40 && pack@.len() >= 20
                    &&& recorded_pack_checksum(self.data@) == recorded_checksum(pack@)
                    &&& expected@ == recorded_checksum(pack@)
                    &&& actual@ == actual_checksum(pack@)
                    &&& expected@ != actual@
                },
                Err(Error::VerifyChecksum { expected, actual }) => {
                    &&& options.check.checks_files()
                    &&& self.data@.len() >= 40 && pack@.len() >= 20
                    &&& recorded_pack_checksum(self.data@) == recorded_checksum(pack@)
                    &&& actual_checksum(pack@) == recorded_checksum(pack@)
                    &&& expected@ == recorded_checksum(self.data@)
                    &&& actual@ == actual_checksum(self.data@)
                    &&& expected@ != actual@
                },
                Err(Error::PackDecode { id, offset }) => {
                    &&& verifies(options.check, self.data@, pack@)
                    &&& options.check.decode_errors_are_fatal()
                    &&& names_entry(self.entries@, id, offset)
                },
                Err(_) => verifies(options.check, self.data@, pack@) && self.entries@.len() > 0,
            },
            same_answers(*final(decoder), *old(decoder)),
            done matches Err(err) ==> fails_entry(err) ==> some_explains(
                *old(decoder),
                options.check,
                self.entries@,
                err,
            ),
            !verifies(options.check, self.data@, pack@) ==> done is Err && final(skipped)@ == old(
                skipped,
            )@,
            verifies(options.check, self.data@, pack@) && self.entries@.len() == 0 ==> done is Ok
                && final(skipped)@ == old(skipped)@,
    {
        let pack_size = pack.len() as u64;
        let mut entries: Vec<Entry> = Vec::new();
        let mut i: usize = 0;
        while i < self.entries.len()
            invariant
                i <= self.entries@.len(),
                entries@ == self.entries@.take(i as int),
            decreases self.entries@.len() - i,
        {
            entries.push(self.entries[i]);
            assert(entries@ =~= self.entries@.take(i as int + 1));
            i += 1;
        }
        assert(entries@ =~= self.entries@);
        let verified = possibly_verify::<P::Error>(options.check, self.data.as_slice(), pack);
        if verified.is_err() {
            raise(&options.should_interrupt);
            assert(skipped@.take(skipped@.len() as int) =~= skipped@);
            return join(verified, Err(Error::Interrupted));
        }
        let sorted = index_entries_sorted_by_offset_ascending(entries);
        let (chunk_size, _, _) = optimize_chunk_size_and_thread_limit(
            1000,
            Some(sorted.len()),
            options.thread_limit,
        );
        let ghost order = sorted@;
        let traversed = traverse_entries(
            decoder,
            processor,
            options.check,
            sorted,
            chunk_size,
            pack_size,
            &options.should_interrupt,
            skipped,
        );
        proof {
            assert forall|i: int| old(skipped)@.len() <= i < skipped@.len() implies names_entry(
                self.entries@,
                (#[trigger] skipped@[i]).0,
                skipped@[i].1,
            ) by {
                lemma_sorted_entry(sorted@, self.entries@, skipped@[i].0, skipped@[i].1);
            }
            if let Err(Error::PackDecode { id, offset }) = &traversed {
                lemma_sorted_entry(sorted@, self.entries@, *id, *offset);
            }
            if let Err(err) = &traversed {
                if !(err is Interrupted) {
                    order.to_multiset_ensures();
                    self.entries@.to_multiset_ensures();
                    assert forall|j: int| 0 <= j < order.len() implies self.entries@.contains(
                        #[trigger] order[j],
                    ) by {
                        assert(order.contains(order[j]));
                        assert(order.to_multiset().count(order[j]) > 0);
                        assert(self.entries@.to_multiset().count(order[j]) > 0);
                    }
                    lemma_explained_among(
                        *old(decoder),
                        *old(decoder),
                        options.check,
                        order,
                        self.entries@,
                        *err,
                    );
                }
            }
            if let Ok(summary) = &traversed {
                assert(traversed_as(
                    *old(decoder),
                    options.check,
                    self.entries@,
                    order,
                    *summary,
                    pack@.len() as u64,
                    old(skipped)@,
                    skipped@,
                ));
            }
        }
        join(verified, traversed)
    }
}

} // verus!
