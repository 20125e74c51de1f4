use gitkit::describe::{
    best_candidate, describe, find_name, to_decimal, to_hex_with_len, Candidate, Error, Format,
    Options, Outcome, MAX_CANDIDATES,
};
use gitkit::find::{ExistingError, Find, Location, Object};
use gitkit::object::{Kind, ObjectId};
use std::collections::HashMap;

struct Commits {
    commits: HashMap<[u8; 20], Vec<u8>>,
}

impl Find for Commits {
    type Error = String;
    type Cache = ();

    fn try_find(&self, id: &ObjectId, buffer: &mut Vec<u8>, _cache: &mut ()) -> Result<Option<Object>, String> {
        Ok(self.commits.get(&id.bytes).map(|data| {
            buffer.clear();
            buffer.extend_from_slice(data);
            Object { kind: Kind::Commit, pack_location: None }
        }))
    }

    fn location_by_oid(&self, _id: &ObjectId, _buffer: &mut Vec<u8>) -> Option<Location> {
        None
    }
}

fn id(n: u8) -> ObjectId {
    ObjectId { bytes: [n; 20] }
}

fn hex(id: &ObjectId) -> String {
    id.bytes.iter().map(|b| format!("{:02x}", b)).collect()
}

fn commit(parents: &[u8], time: u32) -> Vec<u8> {
    let mut text = format!("tree {}\n", hex(&id(0xaa)));
    for p in parents {
        text.push_str(&format!("parent {}\n", hex(&id(*p))));
    }
    text.push_str(&format!("author A <a@example.com> {time} +0000\ncommitter A <a@example.com> {time} +0000\n\nmessage\n"));
    text.into_bytes()
}

/// 1 <- 2 <- 3 <- 6 (merge of 3 and 5), 1 <- 4 <- 5
fn graph() -> Commits {
    let mut commits = HashMap::new();
    commits.insert(id(1).bytes, commit(&[], 10));
    commits.insert(id(2).bytes, commit(&[1], 20));
    commits.insert(id(3).bytes, commit(&[2], 30));
    commits.insert(id(4).bytes, commit(&[1], 25));
    commits.insert(id(5).bytes, commit(&[4], 35));
    commits.insert(id(6).bytes, commit(&[3, 5], 40));
    commits.insert(id(7).bytes, b"tree broken".to_vec());
    commits.insert(id(8).bytes, commit(&[99], 50));
    Commits { commits }
}

fn names(list: &[(u8, &str)]) -> Vec<(ObjectId, Vec<u8>)> {
    list.iter().map(|(n, name)| (id(*n), name.as_bytes().to_vec())).collect()
}

fn options(list: &[(u8, &str)]) -> Options {
    Options { name_by_oid: names(list), ..Options::default() }
}

fn described(start: u8, options: Options) -> Option<(Option<String>, u32)> {
    describe(&id(start), &graph(), &mut (), options)
        .unwrap()
        .map(|outcome| {
            assert_eq!(outcome.id, id(start));
            (outcome.name.map(|n| String::from_utf8(n).unwrap()), outcome.depth)
        })
}

#[test]
fn a_named_commit_is_described_by_its_name() {
    assert_eq!(described(3, options(&[(3, "v3"), (1, "v1")])), Some((Some("v3".into()), 0)));
    assert_eq!(described(42, options(&[(42, "unknown to the database")])), Some((Some("unknown to the database".into()), 0)));
}

#[test]
fn the_nearest_named_ancestor_describes_a_commit() {
    assert_eq!(described(3, options(&[(1, "v1")])), Some((Some("v1".into()), 2)));
    assert_eq!(described(3, options(&[(1, "v1"), (2, "v2")])), Some((Some("v2".into()), 1)));
    assert_eq!(described(6, options(&[(1, "v1")])), Some((Some("v1".into()), 5)));
    assert_eq!(described(6, options(&[(2, "v2"), (4, "v4")])), Some((Some("v4".into()), 4)));
    assert_eq!(described(6, options(&[(3, "v3"), (5, "v5")])), Some((Some("v5".into()), 3)));
    assert_eq!(described(5, options(&[(3, "v3"), (4, "v4")])), Some((Some("v4".into()), 1)));
}

#[test]
fn without_a_named_ancestor() {
    assert_eq!(described(3, options(&[])), None);
    assert_eq!(described(3, options(&[(5, "elsewhere")])), None);
    assert_eq!(described(3, Options { fallback_to_oid: true, ..options(&[(5, "elsewhere")]) }), Some((None, 0)));
}

#[test]
fn fewer_candidates_than_names() {
    let all = [(3, "v3"), (5, "v5"), (1, "v1")];
    assert_eq!(described(6, Options { max_candidates: 1, ..options(&all) }), Some((Some("v5".into()), 3)));
    assert_eq!(described(6, Options { max_candidates: 0, ..options(&all) }), None);
    assert_eq!(described(6, Options { max_candidates: 1000, ..options(&all) }), Some((Some("v5".into()), 3)));
    assert_eq!(Options::default().max_candidates, MAX_CANDIDATES);
    assert_eq!(MAX_CANDIDATES, 32);
    assert!(Options::default().name_by_oid.is_empty());
    assert!(!Options::default().fallback_to_oid);
}

#[test]
fn commits_that_are_missing_or_do_not_decode() {
    let result = describe(&id(8), &graph(), &mut (), options(&[(1, "v1")]));
    assert!(matches!(result, Err(Error::Find { err: ExistingError::NotFound { id: missing }, oid }) if missing == id(99) && oid == id(8)));
    let result = describe(&id(9), &graph(), &mut (), options(&[(1, "v1")]));
    assert!(matches!(result, Err(Error::Find { err: ExistingError::NotFound { id: missing }, oid }) if missing == id(9) && oid == id(9)));
    let mut broken = graph();
    broken.commits.insert(id(3).bytes, format!("tree {}\nparent {}\nauthor ?\n", hex(&id(0xaa)), hex(&id(2))).into_bytes());
    let result = describe(&id(3), &broken, &mut (), options(&[(1, "v1")]));
    assert!(matches!(result, Err(Error::Decode { oid }) if oid == id(3)));
}

#[test]
fn descriptions_are_written_as_git_writes_them() {
    let outcome = Outcome { name: Some(b"v1".to_vec()), id: id(3), depth: 2, name_by_oid: Vec::new() };
    let mut format = outcome.clone().into_format(7);
    assert_eq!(
        format,
        Format { name: Some(b"v1".to_vec()), id: id(3), hex_len: 7, depth: 2, long: false, dirty_suffix: None }
    );
    assert!(!format.is_exact_match());
    assert_eq!(format.to_bytes(), b"v1-2-g0303030".to_vec());
    format.dirty_suffix = Some(b"dirty".to_vec());
    assert_eq!(format.to_bytes(), b"v1-2-g0303030-dirty".to_vec());

    let mut exact = Outcome { depth: 0, ..outcome.clone() }.into_format(4);
    assert!(exact.is_exact_match());
    assert_eq!(exact.to_bytes(), b"v1".to_vec());
    exact.long();
    assert!(exact.long);
    assert_eq!(exact.to_bytes(), b"v1-0-g0303".to_vec());
    exact.short();
    assert_eq!(exact.to_bytes(), b"v1".to_vec());

    let mut unnamed = Outcome { name: None, id: ObjectId { bytes: [0xab; 20] }, depth: 0, name_by_oid: Vec::new() }.into_format(100);
    assert_eq!(unnamed.to_bytes(), "ab".repeat(20).into_bytes());
    unnamed.hex_len = 0;
    unnamed.dirty_suffix = Some(b"x".to_vec());
    assert_eq!(unnamed.to_bytes(), b"-x".to_vec());
}

#[test]
fn numbers_and_ids_as_text() {
    assert_eq!(to_decimal(0), b"0".to_vec());
    assert_eq!(to_decimal(9), b"9".to_vec());
    assert_eq!(to_decimal(10), b"10".to_vec());
    assert_eq!(to_decimal(4294967295), b"4294967295".to_vec());
    let id = ObjectId { bytes: [0x01, 0x23, 0x45, 0x67, 0x89, 0xab, 0xcd, 0xef, 0, 0, 0, 0, 0, 0, 0, 0, 0, 0, 0, 0xff] };
    assert_eq!(to_hex_with_len(&id, 5), b"01234".to_vec());
    assert_eq!(to_hex_with_len(&id, 40), b"0123456789abcdef0000000000000000000000ff".to_vec());
    assert_eq!(to_hex_with_len(&id, 41), b"0123456789abcdef0000000000000000000000ff".to_vec());
    assert_eq!(to_hex_with_len(&id, 0), Vec::<u8>::new());
}

#[test]
fn names_and_candidates() {
    let list = names(&[(1, "first"), (2, "second"), (1, "again")]);
    assert_eq!(find_name(&list, &id(1)), Some(&b"first".to_vec()));
    assert_eq!(find_name(&list, &id(2)), Some(&b"second".to_vec()));
    assert_eq!(find_name(&list, &id(3)), None);
    let candidate = |future: u32, order: usize| Candidate { name: Vec::new(), commits_in_its_future: future, identity_bit: 1 << order, order };
    assert_eq!(best_candidate(&vec![candidate(3, 0), candidate(1, 1), candidate(1, 2)]), 1);
    assert_eq!(best_candidate(&vec![candidate(3, 0)]), 0);
    assert_eq!(best_candidate(&vec![candidate(2, 1), candidate(2, 0)]), 1);
}
