use gitkit::object::{Kind, ObjectId};
use gitkit::parallel::there_are_enough_entries_to_process;
use gitkit::traverse::reduce::{add_capped, next_capped, Outcome, Reducer};
use gitkit::traverse::types::{Entry, EntryOutcome, Error, SafetyCheck};
use gitkit::traverse::verify::{check_entry, compute_hash, possibly_verify, trailer, verify_checksum};
use gitkit::traverse::with_lookup::{
    after_processing, checked_entry, decode_and_process_entry, entry_step,
    index_entries_sorted_by_offset_ascending, join, process_chunk, Decode, Decoded, File, Options,
    Process, Step,
};
use std::collections::BTreeMap;
use std::sync::atomic::{AtomicBool, Ordering};
use std::sync::Arc;

fn unhex(text: &str) -> ObjectId {
    let mut bytes = [0u8; 20];
    for i in 0..20 {
        bytes[i] = u8::from_str_radix(&text[2 * i..2 * i + 2], 16).unwrap();
    }
    ObjectId { bytes }
}

/// `data` followed by its checksum.
fn sealed(data: &[u8]) -> Vec<u8> {
    let mut probe = data.to_vec();
    probe.extend_from_slice(&[0; 20]);
    let actual = match verify_checksum(&probe) {
        Some(Ok(id)) => id,
        Some(Err((_, actual))) => actual,
        None => unreachable!(),
    };
    let mut out = data.to_vec();
    out.extend_from_slice(&actual.bytes);
    out
}

/// A pack and an index that belongs to it, both with the checksums they have.
fn pack_and_index() -> (Vec<u8>, Vec<u8>) {
    let pack = sealed(b"PACK and some entries");
    let mut index = b"index of the pack".to_vec();
    index.extend_from_slice(&pack[pack.len() - 20..]);
    (pack, sealed(&index))
}

fn kind_at(offset: u64) -> Kind {
    if offset % 2 == 0 { Kind::Blob } else { Kind::Commit }
}

fn data_at(offset: u64) -> Vec<u8> {
    vec![offset as u8; 20]
}

fn oid_at(offset: u64) -> ObjectId {
    compute_hash(kind_at(offset), &data_at(offset))
}

fn outcome_at(offset: u64) -> EntryOutcome {
    EntryOutcome {
        kind: kind_at(offset),
        num_deltas: (offset % 3) as u32,
        decompressed_size: 10 * offset,
        compressed_size: offset as usize,
        object_size: 20,
    }
}

struct Decoder {
    broken_offset: Option<u64>,
    corrupt_offset: Option<u64>,
    seen: Vec<u64>,
}

impl Decode for Decoder {
    fn decode_entry(&mut self, entry: &Entry, out: &mut Vec<u8>) -> Option<Decoded> {
        self.seen.push(entry.pack_offset);
        if Some(entry.pack_offset) == self.broken_offset {
            return None;
        }
        out.clear();
        out.extend_from_slice(&data_at(entry.pack_offset));
        if Some(entry.pack_offset) == self.corrupt_offset {
            out[0] ^= 1;
        }
        Some(Decoded { outcome: outcome_at(entry.pack_offset), crc32: entry.pack_offset as u32 })
    }
}

struct Processor {
    refused_offset: Option<u64>,
    taken: Vec<(Kind, Vec<u8>, u64)>,
}

impl Process for Processor {
    type Error = String;

    fn process(&mut self, kind: Kind, data: &[u8], entry: &Entry) -> Result<(), String> {
        if Some(entry.pack_offset) == self.refused_offset {
            return Err("refused".to_string());
        }
        self.taken.push((kind, data.to_vec(), entry.pack_offset));
        Ok(())
    }
}

fn decoder() -> Decoder {
    Decoder { broken_offset: None, corrupt_offset: None, seen: Vec::new() }
}

fn processor() -> Processor {
    Processor { refused_offset: None, taken: Vec::new() }
}

fn entries() -> Vec<Entry> {
    [30u64, 12, 50, 21, 44, 13]
        .iter()
        .map(|offset| Entry { oid: oid_at(*offset), pack_offset: *offset, crc32: None })
        .collect()
}

fn index_file(data: &[u8]) -> File {
    File { data: data.to_vec(), entries: entries() }
}

fn options(check: SafetyCheck) -> Options {
    Options { thread_limit: None, check, should_interrupt: Arc::new(AtomicBool::new(false)) }
}

#[test]
fn safety_checks() {
    assert_eq!(SafetyCheck::default(), SafetyCheck::All);
    for (check, file, object, fatal) in [
        (SafetyCheck::All, true, true, true),
        (SafetyCheck::SkipFileChecksumVerification, false, true, true),
        (SafetyCheck::SkipFileAndObjectChecksumVerification, false, false, true),
        (SafetyCheck::SkipFileAndObjectChecksumVerificationAndNoAbortOnDecodeError, false, false, false),
    ] {
        assert_eq!(check.file_checksum(), file);
        assert_eq!(check.object_checksum(), object);
        assert_eq!(check.fatal_decode_error(), fatal);
    }
    let default = Options::default();
    assert_eq!(default.thread_limit, None);
    assert_eq!(default.check, SafetyCheck::All);
    assert!(!default.should_interrupt.load(Ordering::SeqCst));
}

#[test]
fn objects_hash_as_git_hashes_them() {
    assert_eq!(compute_hash(Kind::Blob, b"hello\n"), unhex("ce013625030ba8dba906f756967f9e9ca394464a"));
    assert_eq!(compute_hash(Kind::Blob, b""), unhex("e69de29bb2d1d6434b8b29ae775ad8c2e48c5391"));
    assert_eq!(compute_hash(Kind::Tree, b""), unhex("4b825dc642cb6eb9a060e54bf8d69288fbee4904"));
}

#[test]
fn entries_are_checked_against_the_index() {
    let good = unhex("ce013625030ba8dba906f756967f9e9ca394464a");
    let entry = Entry { oid: good, pack_offset: 12, crc32: Some(7) };
    assert!(check_entry::<String>(SafetyCheck::All, Kind::Blob, b"hello\n", &entry, 7).is_ok());
    assert!(matches!(
        check_entry::<String>(SafetyCheck::All, Kind::Blob, b"hello\n", &entry, 8),
        Err(Error::Crc32Mismatch { expected: 7, actual: 8, offset: 12, kind: Kind::Blob })
    ));
    assert!(matches!(
        check_entry::<String>(SafetyCheck::SkipFileChecksumVerification, Kind::Blob, b"hello", &entry, 7),
        Err(Error::PackObjectMismatch { expected, actual, offset: 12, kind: Kind::Blob })
            if expected == good && actual == compute_hash(Kind::Blob, b"hello")
    ));
    assert!(check_entry::<String>(SafetyCheck::SkipFileAndObjectChecksumVerification, Kind::Blob, b"hello", &entry, 8).is_ok());
    let without_crc = Entry { oid: good, pack_offset: 12, crc32: None };
    assert!(check_entry::<String>(SafetyCheck::All, Kind::Blob, b"hello\n", &without_crc, 8).is_ok());
}

#[test]
fn checksums_of_files() {
    let empty_sha1 = unhex("da39a3ee5e6b4b0d3255bfef95601890afd80709");
    assert_eq!(verify_checksum(&empty_sha1.bytes), Some(Ok(empty_sha1)));
    assert_eq!(trailer(&empty_sha1.bytes), Some(empty_sha1));
    assert_eq!(trailer(b"short"), None);
    assert_eq!(verify_checksum(b"short"), None);
    let file = sealed(b"content");
    assert_eq!(verify_checksum(&file), Some(Ok(ObjectId { bytes: file[7..].try_into().unwrap() })));
    let mut corrupt = file.clone();
    corrupt[10] ^= 1;
    assert_eq!(
        verify_checksum(&corrupt),
        Some(Err((ObjectId { bytes: corrupt[7..].try_into().unwrap() }, ObjectId { bytes: file[7..].try_into().unwrap() })))
    );
}

#[test]
fn pack_and_index_are_verified_together() {
    let (pack, index) = pack_and_index();
    let index_checksum = trailer(&index).unwrap();
    assert!(matches!(possibly_verify::<String>(SafetyCheck::All, &index, &pack), Ok(id) if id == index_checksum));
    let mut bad_pack = pack.clone();
    bad_pack[3] ^= 1;
    assert!(matches!(possibly_verify::<String>(SafetyCheck::All, &index, &bad_pack), Err(Error::PackChecksum { .. })));
    assert!(matches!(
        possibly_verify::<String>(SafetyCheck::SkipFileChecksumVerification, &index, &bad_pack),
        Ok(id) if id == index_checksum
    ));
    let mut other_pack = pack.clone();
    let last = other_pack.len() - 1;
    other_pack[last] ^= 1;
    assert!(matches!(possibly_verify::<String>(SafetyCheck::All, &index, &other_pack), Err(Error::PackMismatch { .. })));
    let mut bad_index = index.clone();
    bad_index[0] ^= 1;
    assert!(matches!(possibly_verify::<String>(SafetyCheck::All, &bad_index, &pack), Err(Error::VerifyChecksum { .. })));
    assert!(matches!(possibly_verify::<String>(SafetyCheck::All, &index[..39], &pack), Err(Error::Truncated)));
    assert!(matches!(possibly_verify::<String>(SafetyCheck::All, &index, &pack[..19]), Err(Error::Truncated)));
    assert!(possibly_verify::<String>(SafetyCheck::SkipFileAndObjectChecksumVerification, &index, &pack[..19]).is_ok());
}

#[test]
fn entries_are_sorted_by_offset() {
    let sorted = index_entries_sorted_by_offset_ascending(entries());
    assert_eq!(sorted.iter().map(|e| e.pack_offset).collect::<Vec<_>>(), vec![12, 13, 21, 30, 44, 50]);
    assert!(index_entries_sorted_by_offset_ascending(Vec::new()).is_empty());
}

#[test]
fn what_follows_from_an_entry() {
    let outcome = EntryOutcome { kind: Kind::Tag, num_deltas: 1, decompressed_size: 2, compressed_size: 3, object_size: 4 };
    let id = ObjectId { bytes: [9; 20] };
    let lenient = SafetyCheck::SkipFileAndObjectChecksumVerificationAndNoAbortOnDecodeError;
    assert!(matches!(entry_step::<String>(SafetyCheck::All, Ok(outcome)), Step::Keep(kept) if kept == outcome));
    assert!(matches!(
        entry_step::<String>(SafetyCheck::All, Err(Error::PackDecode { id, offset: 5 })),
        Step::Abort(Error::PackDecode { offset: 5, .. })
    ));
    assert!(matches!(
        entry_step::<String>(lenient, Err(Error::PackDecode { id, offset: 5 })),
        Step::Skip { id: skipped, offset: 5 } if skipped == id
    ));
    assert!(matches!(entry_step::<String>(lenient, Err(Error::Interrupted)), Step::Abort(Error::Interrupted)));
    assert!(matches!(
        entry_step(lenient, Err(Error::Processor("no".to_string()))),
        Step::Abort(Error::Processor(e)) if e == "no"
    ));
}

#[test]
fn a_chunk_with_an_entry_that_does_not_decode() {
    let lenient = SafetyCheck::SkipFileAndObjectChecksumVerificationAndNoAbortOnDecodeError;
    let mut worker = Decoder { broken_offset: Some(50), ..decoder() };
    let mut taker = processor();
    let mut buf = Vec::new();
    let mut skipped = Vec::new();
    let stats = process_chunk(&mut worker, &mut taker, &mut buf, lenient, &entries(), &mut skipped).unwrap();
    assert_eq!(stats.len(), 5);
    assert_eq!(stats[0], outcome_at(30));
    assert_eq!(skipped, vec![(oid_at(50), 50)]);
    assert_eq!(worker.seen, vec![30, 12, 50, 21, 44, 13]);
    assert_eq!(taker.taken.iter().map(|t| t.2).collect::<Vec<_>>(), vec![30, 12, 21, 44, 13]);
    assert_eq!(taker.taken[0], (Kind::Blob, data_at(30), 30));

    let mut worker = Decoder { broken_offset: Some(50), ..decoder() };
    let mut skipped = Vec::new();
    let result = process_chunk(&mut worker, &mut processor(), &mut buf, SafetyCheck::All, &entries(), &mut skipped);
    assert!(matches!(result, Err(Error::PackDecode { id, offset: 50 }) if id == oid_at(50)));
    assert!(skipped.is_empty());
    assert_eq!(worker.seen, vec![30, 12, 50]);

    let mut skipped = vec![(oid_at(1), 1)];
    let stats = process_chunk(&mut worker, &mut processor(), &mut buf, SafetyCheck::All, &Vec::new(), &mut skipped).unwrap();
    assert!(stats.is_empty());
    assert_eq!(skipped, vec![(oid_at(1), 1)]);
}

#[test]
fn an_entry_is_decoded_checked_and_processed() {
    let entry = Entry { oid: oid_at(12), pack_offset: 12, crc32: Some(12) };
    let mut buf = Vec::new();
    let mut taker = processor();
    let result = decode_and_process_entry(&mut decoder(), &mut taker, &mut buf, SafetyCheck::All, &entry);
    assert_eq!(result.unwrap(), outcome_at(12));
    assert_eq!(buf, data_at(12));
    assert_eq!(taker.taken, vec![(Kind::Blob, data_at(12), 12)]);

    let mut corrupt = Decoder { corrupt_offset: Some(12), ..decoder() };
    let mut taker = processor();
    let result = decode_and_process_entry(&mut corrupt, &mut taker, &mut buf, SafetyCheck::All, &entry);
    assert!(matches!(
        result,
        Err(Error::PackObjectMismatch { expected, actual, offset: 12, kind: Kind::Blob })
            if expected == oid_at(12) && actual == compute_hash(Kind::Blob, &buf)
    ));
    assert!(taker.taken.is_empty());
    let result = decode_and_process_entry(
        &mut corrupt,
        &mut taker,
        &mut buf,
        SafetyCheck::SkipFileAndObjectChecksumVerification,
        &entry,
    );
    assert_eq!(result.unwrap(), outcome_at(12));
    assert_eq!(taker.taken.len(), 1);

    let wrong_crc = Entry { crc32: Some(13), ..entry };
    let result = decode_and_process_entry(&mut decoder(), &mut processor(), &mut buf, SafetyCheck::All, &wrong_crc);
    assert!(matches!(result, Err(Error::Crc32Mismatch { expected: 13, actual: 12, offset: 12, kind: Kind::Blob })));

    let mut refusing = Processor { refused_offset: Some(12), ..processor() };
    let result = decode_and_process_entry(&mut decoder(), &mut refusing, &mut buf, SafetyCheck::All, &entry);
    assert!(matches!(result, Err(Error::Processor(e)) if e == "refused"));

    let mut broken = Decoder { broken_offset: Some(12), ..decoder() };
    let result = decode_and_process_entry(&mut broken, &mut processor(), &mut buf, SafetyCheck::All, &entry);
    assert!(matches!(result, Err(Error::PackDecode { id, offset: 12 }) if id == oid_at(12)));
}

#[test]
fn what_follows_from_the_answers_of_decoder_and_processor() {
    let entry = Entry { oid: oid_at(12), pack_offset: 12, crc32: None };
    let decoded = Decoded { outcome: outcome_at(12), crc32: 0 };
    assert_eq!(checked_entry::<String>(SafetyCheck::All, &entry, Some(decoded), &data_at(12)).unwrap(), outcome_at(12));
    assert!(matches!(
        checked_entry::<String>(SafetyCheck::All, &entry, None, &data_at(12)),
        Err(Error::PackDecode { id, offset: 12 }) if id == oid_at(12)
    ));
    assert!(matches!(
        checked_entry::<String>(SafetyCheck::All, &entry, Some(decoded), b"other"),
        Err(Error::PackObjectMismatch { .. })
    ));
    assert_eq!(after_processing::<String>(outcome_at(12), Ok(())).unwrap(), outcome_at(12));
    assert!(matches!(
        after_processing(outcome_at(12), Err("no".to_string())),
        Err(Error::Processor(e)) if e == "no"
    ));
}

#[test]
fn traversal_sums_up_all_entries() {
    let (pack, index) = pack_and_index();
    let mut worker = decoder();
    let mut skipped = Vec::new();
    let (id, outcome) =
        index_file(&index).traverse_with_lookup(&pack, &mut worker, &mut processor(), &mut skipped, options(SafetyCheck::All)).unwrap();
    assert_eq!(id, trailer(&index).unwrap());
    assert_eq!(worker.seen, vec![12, 13, 21, 30, 44, 50]);
    assert!(skipped.is_empty());
    let mut chains = BTreeMap::new();
    chains.insert(0, 3);
    chains.insert(1, 1);
    chains.insert(2, 2);
    assert_eq!(
        outcome,
        Outcome {
            average: EntryOutcome {
                kind: Kind::Blob,
                num_deltas: 5 / 6,
                decompressed_size: 1700 / 6,
                compressed_size: 170 / 6,
                object_size: 20,
            },
            objects_per_chain_length: chains,
            total_compressed_entries_size: 170,
            total_decompressed_entries_size: 1700,
            total_object_size: 120,
            pack_size: pack.len() as u64,
            num_commits: 2,
            num_trees: 0,
            num_tags: 0,
            num_blobs: 4,
        }
    );
}

#[test]
fn a_corrupt_trailer_fails_the_traversal() {
    let (pack, index) = pack_and_index();
    for (bad_pack, bad_index) in [(true, false), (false, true)] {
        let mut pack = pack.clone();
        let mut index = index.clone();
        if bad_pack {
            let last = pack.len() - 1;
            pack[last] ^= 0x40;
        }
        if bad_index {
            let last = index.len() - 1;
            index[last] ^= 0x40;
        }
        let opts = options(SafetyCheck::All);
        let flag = Arc::clone(&opts.should_interrupt);
        let mut worker = decoder();
        let mut skipped = Vec::new();
        let result = index_file(&index).traverse_with_lookup(&pack, &mut worker, &mut processor(), &mut skipped, opts);
        if bad_pack {
            assert!(matches!(result, Err(Error::PackMismatch { .. })));
        } else {
            assert!(matches!(result, Err(Error::VerifyChecksum { .. })));
        }
        assert!(flag.load(Ordering::SeqCst));
        assert!(worker.seen.is_empty());
    }
    let mut pack = pack.clone();
    let last = pack.len() - 1;
    pack[last] ^= 0x40;
    let mut worker = decoder();
    let mut skipped = Vec::new();
    assert!(index_file(&index).traverse_with_lookup(&pack, &mut worker, &mut processor(), &mut skipped, options(SafetyCheck::SkipFileChecksumVerification)
    )
    .is_ok());
}

#[test]
fn decode_errors_are_skipped_only_where_the_policy_says_so() {
    let (pack, index) = pack_and_index();
    let lenient = SafetyCheck::SkipFileAndObjectChecksumVerificationAndNoAbortOnDecodeError;
    let mut worker = Decoder { broken_offset: Some(21), ..decoder() };
    let mut skipped = Vec::new();
    let (_, outcome) = index_file(&index).traverse_with_lookup(&pack, &mut worker, &mut processor(), &mut skipped, options(lenient)).unwrap();
    assert_eq!(skipped, vec![(oid_at(21), 21)]);
    assert_eq!(worker.seen, vec![12, 13, 21, 30, 44, 50]);
    assert_eq!(outcome.num_blobs + outcome.num_commits, 5);
    assert_eq!(outcome.total_object_size, 100);

    let mut worker = Decoder { broken_offset: Some(21), ..decoder() };
    let mut skipped = Vec::new();
    let result = index_file(&index).traverse_with_lookup(&pack, &mut worker, &mut processor(), &mut skipped, options(SafetyCheck::SkipFileAndObjectChecksumVerification),
    );
    assert!(matches!(result, Err(Error::PackDecode { offset: 21, .. })));
    assert!(skipped.is_empty());

    let mut worker = decoder();
    let mut refusing = Processor { refused_offset: Some(13), ..processor() };
    let result = index_file(&index).traverse_with_lookup(&pack, &mut worker, &mut refusing, &mut skipped, options(lenient));
    assert!(matches!(result, Err(Error::Processor(e)) if e == "refused"));

    let mut worker = Decoder { corrupt_offset: Some(30), ..decoder() };
    let result = index_file(&index).traverse_with_lookup(&pack, &mut worker, &mut processor(), &mut skipped, options(SafetyCheck::All));
    assert!(matches!(result, Err(Error::PackObjectMismatch { offset: 30, .. })));
}

#[test]
fn an_interruption_ends_the_traversal_after_a_chunk() {
    let (pack, index) = pack_and_index();
    let opts = options(SafetyCheck::All);
    opts.should_interrupt.store(true, Ordering::SeqCst);
    let mut worker = decoder();
    let mut skipped = Vec::new();
    let result = index_file(&index).traverse_with_lookup(&pack, &mut worker, &mut processor(), &mut skipped, opts);
    assert!(matches!(result, Err(Error::Interrupted)));
}

#[test]
fn an_index_without_entries_is_traversed_whatever_the_flag_says() {
    let (pack, index) = pack_and_index();
    let opts = options(SafetyCheck::All);
    opts.should_interrupt.store(true, Ordering::SeqCst);
    let mut worker = decoder();
    let mut skipped = Vec::new();
    let file = File { data: index.clone(), entries: Vec::new() };
    let (id, outcome) = file.traverse_with_lookup(&pack, &mut worker, &mut processor(), &mut skipped, opts).unwrap();
    assert_eq!(id, trailer(&index).unwrap());
    assert_eq!(outcome, Reducer::new(pack.len() as u64).finalize());
    assert!(worker.seen.is_empty() && skipped.is_empty());
}

#[test]
fn the_halves_of_a_traversal_are_joined() {
    let id = ObjectId { bytes: [1; 20] };
    let outcome = Reducer::new(5).finalize();
    assert!(matches!(join::<String>(Ok(id), Ok(outcome.clone())), Ok((i, o)) if i == id && o == outcome));
    assert!(matches!(join::<String>(Err(Error::Truncated), Ok(outcome.clone())), Err(Error::Truncated)));
    assert!(matches!(join::<String>(Ok(id), Err(Error::Interrupted)), Err(Error::Interrupted)));
    assert!(matches!(join::<String>(Err(Error::Truncated), Err(Error::Interrupted)), Err(Error::Truncated)));
}

#[test]
fn sums_stop_at_the_greatest_value() {
    assert_eq!(add_capped(1, 2), 3);
    assert_eq!(add_capped(u64::MAX, 2), u64::MAX);
    assert_eq!(add_capped(u64::MAX - 2, 2), u64::MAX);
    assert_eq!(next_capped(7), 8);
    assert_eq!(next_capped(u32::MAX), u32::MAX);
    let mut reducer = Reducer::new(0);
    let big = EntryOutcome { kind: Kind::Tree, num_deltas: u32::MAX, decompressed_size: u64::MAX, compressed_size: usize::MAX, object_size: u64::MAX };
    assert!(reducer.feed::<String>(Ok(vec![big, big]), false).is_ok());
    assert!(matches!(reducer.feed::<String>(Ok(vec![]), true), Err(Error::Interrupted)));
    assert!(matches!(reducer.feed::<String>(Err(Error::Truncated), false), Err(Error::Truncated)));
    let outcome = reducer.finalize();
    assert_eq!(outcome.total_object_size, u64::MAX);
    assert_eq!(outcome.num_trees, 2);
    assert_eq!(outcome.average.num_deltas, u32::MAX / 2);
    assert_eq!(outcome.objects_per_chain_length.get(&u32::MAX), Some(&2));
}

#[test]
fn few_entries_are_worked_off_by_one_thread() {
    assert!(!there_are_enough_entries_to_process(0, 1000, 4));
    assert!(!there_are_enough_entries_to_process(4000, 1000, 4));
    assert!(there_are_enough_entries_to_process(4001, 1000, 4));
    assert!(there_are_enough_entries_to_process(1, 0, 4));
    assert!(!there_are_enough_entries_to_process(0, 0, 4));
    assert!(there_are_enough_entries_to_process(1, 1000, 0));
    assert!(!there_are_enough_entries_to_process(usize::MAX, usize::MAX, 2));
    assert!(there_are_enough_entries_to_process(usize::MAX, usize::MAX / 2, 1));
    assert!(!there_are_enough_entries_to_process(usize::MAX, usize::MAX / 2, 3));
}

#[test]
fn objects_are_hashed_under_a_header() {
    assert_eq!(gitkit::traverse::verify::loose_header_of(Kind::Blob, 6), b"blob 6\0".to_vec());
    assert_eq!(gitkit::traverse::verify::loose_header_of(Kind::Tree, 0), b"tree 0\0".to_vec());
    assert_eq!(gitkit::traverse::verify::loose_header_of(Kind::Commit, 1234567), b"commit 1234567\0".to_vec());
    assert_eq!(gitkit::traverse::verify::loose_header_of(Kind::Tag, 10), b"tag 10\0".to_vec());
}
