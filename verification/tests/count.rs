use gitkit::count::expand::{count_entries, find_tree, is_tree_answer, next_input, this};
use gitkit::decode::{is_well_framed, leading_parents, CommitToken, TreeEntry, MODE_COMMIT, MODE_TREE};
use gitkit::count::objects::{objects, objects_unthreaded};
use gitkit::count::reduce::Statistics;
use gitkit::count::util::split_chunks;
use gitkit::count::types::{
    Count, Error, ObjectExpansion, Options, Outcome, PackLocation, TreeChangesError,
    TreeTraverseError,
};
use gitkit::find::{ExistingError, Find, Location, Object};
use gitkit::object::{Kind, ObjectId};
use gitkit::seen::SeenSet;
use std::collections::HashMap;
use std::sync::atomic::AtomicBool;

struct Store {
    objects: HashMap<[u8; 20], (Kind, Vec<u8>)>,
}

impl Find for Store {
    type Error = String;
    type Cache = ();

    fn try_find(&self, id: &ObjectId, buffer: &mut Vec<u8>, _cache: &mut ()) -> Result<Option<Object>, String> {
        if id.bytes == [0xee; 20] {
            return Err("broken".to_string());
        }
        Ok(self.objects.get(&id.bytes).map(|(kind, data)| {
            buffer.clear();
            buffer.extend_from_slice(data);
            Object { kind: *kind, pack_location: None }
        }))
    }

    fn location_by_oid(&self, id: &ObjectId, _buffer: &mut Vec<u8>) -> Option<Location> {
        self.objects.get(&id.bytes).map(|_| Location { pack_id: 1, pack_offset: id.bytes[0] as u64, entry_size: 3 })
    }
}

fn id(n: u8) -> ObjectId {
    ObjectId { bytes: [n; 20] }
}

fn hex(id: &ObjectId) -> String {
    id.bytes.iter().map(|b| format!("{:02x}", b)).collect()
}

fn commit(tree: u8, parents: &[u8]) -> (Kind, Vec<u8>) {
    let mut text = format!("tree {}\n", hex(&id(tree)));
    for p in parents {
        text.push_str(&format!("parent {}\n", hex(&id(*p))));
    }
    text.push_str("author A <a@example.com> 1 +0000\ncommitter A <a@example.com> 1 +0000\n\nmessage\n");
    (Kind::Commit, text.into_bytes())
}

fn tag(target: u8) -> (Kind, Vec<u8>) {
    let text = format!("object {}\ntype commit\ntag v1\ntagger A <a@example.com> 1 +0000\n\nmessage\n", hex(&id(target)));
    (Kind::Tag, text.into_bytes())
}

fn tree(entries: &[(&str, &str, u8)]) -> (Kind, Vec<u8>) {
    let mut data = Vec::new();
    for (mode, name, target) in entries {
        data.extend_from_slice(mode.as_bytes());
        data.push(b' ');
        data.extend_from_slice(name.as_bytes());
        data.push(0);
        data.extend_from_slice(&id(*target).bytes);
    }
    (Kind::Tree, data)
}

/// commit 1 -> tree 2 { a.txt -> blob 3, dir -> tree 4 { b.txt -> blob 5 } }
/// commit 6 (parent 1) -> tree 7 { a.txt -> blob 8, dir -> tree 4 }
/// tag 9 -> commit 1
fn store() -> Store {
    let mut objects = HashMap::new();
    objects.insert(id(1).bytes, commit(2, &[]));
    objects.insert(id(2).bytes, tree(&[("100644", "a.txt", 3), ("40000", "dir", 4)]));
    objects.insert(id(3).bytes, (Kind::Blob, b"a".to_vec()));
    objects.insert(id(4).bytes, tree(&[("100644", "b.txt", 5)]));
    objects.insert(id(5).bytes, (Kind::Blob, b"b".to_vec()));
    objects.insert(id(6).bytes, commit(7, &[1]));
    objects.insert(id(7).bytes, tree(&[("100644", "a.txt", 8), ("40000", "dir", 4)]));
    objects.insert(id(8).bytes, (Kind::Blob, b"a2".to_vec()));
    objects.insert(id(9).bytes, tag(1));
    Store { objects }
}

fn run(
    expansion: ObjectExpansion,
    seen: &mut SeenSet,
    input: Vec<Result<ObjectId, String>>,
    interrupt: bool,
) -> Result<(Vec<Count>, Outcome), Error<String, String>> {
    let flag = AtomicBool::new(interrupt);
    let (mut buf1, mut buf2) = (Vec::new(), Vec::new());
    this(&store(), expansion, seen, input, &mut buf1, &mut buf2, &mut (), &flag, true)
}

fn sorted_ids(counts: &[Count]) -> Vec<u8> {
    let mut ids: Vec<u8> = counts.iter().map(|c| c.id.bytes[0]).collect();
    ids.sort();
    ids
}

#[test]
fn as_is_counts_each_distinct_id_once() {
    let mut seen = SeenSet::new();
    let (counts, outcome) = run(ObjectExpansion::AsIs, &mut seen, vec![Ok(id(1)), Ok(id(3)), Ok(id(5))], false).unwrap();
    assert_eq!(counts.iter().map(|c| c.id).collect::<Vec<_>>(), vec![id(1), id(3), id(5)]);
    assert_eq!(outcome, Outcome { input_objects: 3, expanded_objects: 0, decoded_objects: 3 });
    assert_eq!(counts[0].entry_pack_location, PackLocation::LookedUp(None));
}

#[test]
fn as_is_leaves_out_repeated_and_seen_ids() {
    let mut seen = SeenSet::new();
    assert!(seen.insert(&id(3)));
    let (counts, outcome) = run(ObjectExpansion::AsIs, &mut seen, vec![Ok(id(1)), Ok(id(3)), Ok(id(1)), Ok(id(5))], false).unwrap();
    assert_eq!(counts.iter().map(|c| c.id).collect::<Vec<_>>(), vec![id(1), id(5)]);
    assert_eq!(outcome, Outcome { input_objects: 4, expanded_objects: 0, decoded_objects: 2 });
    assert!(seen.contains(&id(1)) && seen.contains(&id(5)) && !seen.contains(&id(2)));
}

#[test]
fn tree_contents_counts_commit_trees_and_blobs() {
    let mut seen = SeenSet::new();
    let (counts, outcome) = run(ObjectExpansion::TreeContents, &mut seen, vec![Ok(id(1))], false).unwrap();
    assert_eq!(sorted_ids(&counts), vec![1, 2, 3, 4, 5]);
    assert_eq!(outcome, Outcome { input_objects: 1, expanded_objects: 4, decoded_objects: 5 });
    let blob = counts.iter().find(|c| c.id == id(5)).unwrap();
    assert_eq!(
        blob.entry_pack_location,
        PackLocation::LookedUp(Some(Location { pack_id: 1, pack_offset: 5, entry_size: 3 }))
    );
}

#[test]
fn tree_contents_follows_tags() {
    let mut seen = SeenSet::new();
    let (counts, outcome) = run(ObjectExpansion::TreeContents, &mut seen, vec![Ok(id(9))], false).unwrap();
    assert_eq!(sorted_ids(&counts), vec![1, 2, 3, 4, 5, 9]);
    assert_eq!(outcome, Outcome { input_objects: 1, expanded_objects: 5, decoded_objects: 6 });
}

#[test]
fn additions_without_parent_equal_tree_contents() {
    let mut seen_a = SeenSet::new();
    let mut seen_b = SeenSet::new();
    let (a, outcome_a) = run(ObjectExpansion::TreeAdditionsComparedToAncestor, &mut seen_a, vec![Ok(id(1))], false).unwrap();
    let (b, outcome_b) = run(ObjectExpansion::TreeContents, &mut seen_b, vec![Ok(id(1))], false).unwrap();
    assert_eq!(sorted_ids(&a), sorted_ids(&b));
    assert_eq!(sorted_ids(&a), vec![1, 2, 3, 4, 5]);
    assert_eq!(outcome_a, outcome_b);
}

#[test]
fn additions_count_what_the_parent_lacks() {
    let mut seen = SeenSet::new();
    let (counts, outcome) = run(ObjectExpansion::TreeAdditionsComparedToAncestor, &mut seen, vec![Ok(id(6))], false).unwrap();
    assert_eq!(sorted_ids(&counts), vec![1, 2, 6, 7, 8]);
    assert_eq!(outcome, Outcome { input_objects: 1, expanded_objects: 4, decoded_objects: 5 });
}

#[test]
fn no_object_is_counted_twice() {
    for expansion in [ObjectExpansion::AsIs, ObjectExpansion::TreeContents, ObjectExpansion::TreeAdditionsComparedToAncestor] {
        let mut seen = SeenSet::new();
        let input = vec![Ok(id(6)), Ok(id(1)), Ok(id(9)), Ok(id(6)), Ok(id(4))];
        let (counts, outcome) = run(expansion, &mut seen, input, false).unwrap();
        let ids = sorted_ids(&counts);
        let mut unique = ids.clone();
        unique.dedup();
        assert_eq!(ids, unique);
        assert_eq!(outcome.decoded_objects, counts.len());
        assert_eq!(outcome.input_objects, 5);
        assert!(counts.iter().all(|c| seen.contains(&c.id)));
    }
}

#[test]
fn interrupted_before_the_first_id() {
    let mut seen = SeenSet::new();
    let result = run(ObjectExpansion::TreeContents, &mut seen, vec![Ok(id(1))], true);
    assert!(matches!(result, Err(Error::Interrupted)));
    assert!(!seen.contains(&id(1)));
}

#[test]
fn empty_input_is_not_interrupted() {
    let mut seen = SeenSet::new();
    let (counts, outcome) = run(ObjectExpansion::AsIs, &mut seen, vec![], true).unwrap();
    assert!(counts.is_empty());
    assert_eq!(outcome, Outcome::default());
}

#[test]
fn input_errors_end_the_call() {
    let mut seen = SeenSet::new();
    let result = run(ObjectExpansion::AsIs, &mut seen, vec![Ok(id(1)), Err("bad".to_string())], false);
    assert!(matches!(result, Err(Error::InputIteration(e)) if e == "bad"));
}

#[test]
fn missing_and_failing_objects_are_told_apart() {
    let mut seen = SeenSet::new();
    let result = run(ObjectExpansion::AsIs, &mut seen, vec![Ok(id(42))], false);
    assert!(matches!(result, Err(Error::FindExisting(ExistingError::NotFound { id: missing })) if missing == id(42)));
    let result = run(ObjectExpansion::AsIs, &mut seen, vec![Ok(id(0xee))], false);
    assert!(matches!(result, Err(Error::FindExisting(ExistingError::Find(e))) if e == "broken"));
}

fn run_in_chunks(
    expansion: ObjectExpansion,
    chunk_size: usize,
    input: Vec<Result<ObjectId, String>>,
) -> Result<(Vec<Count>, Outcome), Error<String, String>> {
    let flag = AtomicBool::new(false);
    let options = Options { thread_limit: Some(2), chunk_size, input_object_expansion: expansion };
    objects(&store(), &mut (), input, &flag, options)
}

#[test]
fn chunk_size_does_not_change_totals_or_counts() {
    for expansion in [ObjectExpansion::AsIs, ObjectExpansion::TreeContents, ObjectExpansion::TreeAdditionsComparedToAncestor] {
        let input = || vec![Ok(id(9)), Ok(id(6)), Ok(id(1)), Ok(id(3)), Ok(id(6)), Ok(id(8))];
        let (whole, whole_outcome) = run_in_chunks(expansion, 100, input()).unwrap();
        for chunk_size in [1, 2, 3, 4, 5, 6, 7] {
            let (counts, outcome) = run_in_chunks(expansion, chunk_size, input()).unwrap();
            assert_eq!(outcome, whole_outcome);
            assert_eq!(counts, whole);
        }
        assert_eq!(whole_outcome.input_objects, 6);
        assert_eq!(whole_outcome.decoded_objects, whole.len());
    }
}

#[test]
fn as_is_of_distinct_ids_counts_each() {
    let (counts, outcome) = run_in_chunks(ObjectExpansion::AsIs, 2, (1..=9).map(|n| Ok(id(n))).collect()).unwrap();
    assert_eq!(counts.len(), 9);
    assert_eq!(outcome, Outcome { input_objects: 9, expanded_objects: 0, decoded_objects: 9 });
    assert!(counts.iter().all(|c| matches!(c.entry_pack_location, PackLocation::LookedUp(None))));
}

#[test]
fn unthreaded_does_not_look_up_pack_locations() {
    let flag = AtomicBool::new(false);
    let (counts, outcome) =
        objects_unthreaded(&store(), &mut (), vec![Ok::<_, String>(id(1))], &flag, ObjectExpansion::TreeContents).unwrap();
    assert_eq!(sorted_ids(&counts), vec![1, 2, 3, 4, 5]);
    assert_eq!(outcome, Outcome { input_objects: 1, expanded_objects: 4, decoded_objects: 5 });
    let blob = counts.iter().find(|c| c.id == id(3)).unwrap();
    assert_eq!(blob.entry_pack_location, PackLocation::NotLookedUp);
    let tree = counts.iter().find(|c| c.id == id(4)).unwrap();
    assert_eq!(tree.entry_pack_location, PackLocation::LookedUp(None));
}

#[test]
fn default_options() {
    assert_eq!(
        Options::default(),
        Options { thread_limit: None, chunk_size: 10, input_object_expansion: ObjectExpansion::AsIs }
    );
    assert_eq!(ObjectExpansion::default(), ObjectExpansion::AsIs);
}

#[test]
fn objects_interrupted_and_empty() {
    let flag = AtomicBool::new(true);
    let result = objects(&store(), &mut (), vec![Ok::<_, String>(id(1))], &flag, Options::default());
    assert!(matches!(result, Err(Error::Interrupted)));
    let (counts, outcome) = objects(&store(), &mut (), Vec::<Result<ObjectId, String>>::new(), &flag, Options::default()).unwrap();
    assert!(counts.is_empty());
    assert_eq!(outcome, Outcome::default());
}

fn store_with(extra: Vec<(u8, (Kind, Vec<u8>))>) -> Store {
    let mut s = store();
    for (n, object) in extra {
        s.objects.insert(id(n).bytes, object);
    }
    s
}

fn run_on(store: &Store, expansion: ObjectExpansion, start: u8) -> Result<(Vec<Count>, Outcome), Error<String, String>> {
    let flag = AtomicBool::new(false);
    let mut seen = SeenSet::new();
    let (mut buf1, mut buf2) = (Vec::new(), Vec::new());
    this(store, expansion, &mut seen, vec![Ok(id(start))], &mut buf1, &mut buf2, &mut (), &flag, true)
}

#[test]
fn commits_and_tags_that_do_not_decode() {
    let s = store_with(vec![
        (20, (Kind::Commit, b"no tree here".to_vec())),
        (21, (Kind::Tag, b"no object here".to_vec())),
        (22, (Kind::Commit, format!("tree {}\nauthor broken\n", hex(&id(2))).into_bytes())),
    ]);
    for expansion in [ObjectExpansion::TreeContents, ObjectExpansion::TreeAdditionsComparedToAncestor] {
        assert!(matches!(run_on(&s, expansion, 20), Err(Error::CommitDecode { id: bad }) if bad == id(20)));
        assert!(matches!(run_on(&s, expansion, 21), Err(Error::TagDecode { id: bad }) if bad == id(21)));
    }
    assert!(matches!(
        run_on(&s, ObjectExpansion::TreeAdditionsComparedToAncestor, 22),
        Err(Error::CommitDecode { id: bad }) if bad == id(22)
    ));
    assert!(run_on(&s, ObjectExpansion::AsIs, 20).is_ok());
}

#[test]
fn trees_that_are_missing_or_do_not_decode() {
    let s = store_with(vec![
        (30, tree(&[("40000", "gone", 99)])),
        (31, (Kind::Tree, b"100644".to_vec())),
        (32, (Kind::Tree, b"100644 name\0short".to_vec())),
        (33, (Kind::Tree, {
            let mut data = b"999999 name\0".to_vec();
            data.extend_from_slice(&[7; 20]);
            data
        })),
    ]);
    assert!(matches!(
        run_on(&s, ObjectExpansion::TreeContents, 30),
        Err(Error::TreeTraverse(TreeTraverseError::NotFound { id: missing })) if missing == id(99)
    ));
    for broken in [31, 32, 33] {
        assert!(matches!(
            run_on(&s, ObjectExpansion::TreeContents, broken),
            Err(Error::TreeTraverse(TreeTraverseError::ObjectDecode { id: bad })) if bad == id(broken)
        ));
    }
}

#[test]
fn tree_comparison_that_fails() {
    let s = store_with(vec![
        (40, commit(41, &[1])),
        (41, tree(&[("100644", "a.txt", 3), ("40000", "dir", 98)])),
        (42, commit(43, &[1])),
        (43, (Kind::Tree, b"100644".to_vec())),
    ]);
    assert!(matches!(
        run_on(&s, ObjectExpansion::TreeAdditionsComparedToAncestor, 40),
        Err(Error::TreeChanges(TreeChangesError::FindExisting { id: missing })) if missing == id(98)
    ));
    assert!(matches!(
        run_on(&s, ObjectExpansion::TreeAdditionsComparedToAncestor, 42),
        Err(Error::TreeChanges(TreeChangesError::EntriesDecode))
    ));
}

#[test]
fn submodule_commits_are_not_counted() {
    let s = store_with(vec![
        (50, commit(51, &[])),
        (51, tree(&[("100644", "a.txt", 3), ("160000", "module", 77)])),
        (52, commit(53, &[1])),
        (53, tree(&[("100644", "a.txt", 3), ("40000", "dir", 4), ("160000", "module", 77)])),
    ]);
    let (counts, _) = run_on(&s, ObjectExpansion::TreeContents, 50).unwrap();
    assert_eq!(sorted_ids(&counts), vec![3, 50, 51]);
    let (counts, _) = run_on(&s, ObjectExpansion::TreeAdditionsComparedToAncestor, 52).unwrap();
    assert_eq!(sorted_ids(&counts), vec![1, 2, 52, 53]);
}

#[test]
fn merge_commits_count_what_each_parent_lacks() {
    let s = store_with(vec![
        (60, commit(61, &[1, 62])),
        (61, tree(&[("100644", "a.txt", 8), ("100644", "c.txt", 64), ("40000", "dir", 4)])),
        (62, commit(63, &[])),
        (63, tree(&[("100644", "a.txt", 8)])),
        (64, (Kind::Blob, b"c".to_vec())),
    ]);
    let (counts, outcome) = run_on(&s, ObjectExpansion::TreeAdditionsComparedToAncestor, 60).unwrap();
    assert_eq!(sorted_ids(&counts), vec![1, 2, 4, 5, 8, 60, 61, 62, 63, 64]);
    assert_eq!(outcome, Outcome { input_objects: 1, expanded_objects: 9, decoded_objects: 10 });
}

#[test]
fn next_input_decides_by_flag_and_item() {
    assert!(matches!(next_input::<String, String>(true, Ok(id(1))), Err(Error::Interrupted)));
    assert!(matches!(next_input::<String, String>(true, Err("e".into())), Err(Error::Interrupted)));
    assert!(matches!(next_input::<String, String>(false, Ok(id(1))), Ok(found) if found == id(1)));
    assert!(matches!(next_input::<String, String>(false, Err("e".into())), Err(Error::InputIteration(e)) if e == "e"));
}

#[test]
fn chunks_hold_all_items_in_order() {
    assert_eq!(split_chunks(vec![1, 2, 3, 4, 5], 2), vec![vec![1, 2], vec![3, 4], vec![5]]);
    assert_eq!(split_chunks(vec![1, 2, 3, 4], 2), vec![vec![1, 2], vec![3, 4]]);
    assert_eq!(split_chunks(vec![1, 2, 3], 0), vec![vec![1, 2, 3]]);
    assert_eq!(split_chunks(vec![1, 2, 3], 5), vec![vec![1, 2, 3]]);
    assert_eq!(split_chunks(Vec::<u8>::new(), 3), Vec::<Vec<u8>>::new());
}

#[test]
fn statistics_add_up_in_any_order() {
    let a = Outcome { input_objects: 1, expanded_objects: 1, decoded_objects: 1 };
    let b = Outcome { input_objects: 2, expanded_objects: 0, decoded_objects: 2 };
    let count = |n: u8| Count { id: id(n), entry_pack_location: PackLocation::NotLookedUp };
    let mut first = Statistics::new();
    first.feed::<String>(Ok((vec![count(1)], a))).unwrap();
    first.feed::<String>(Ok((vec![count(2), count(3)], b))).unwrap();
    let mut second = Statistics::new();
    second.feed::<String>(Ok((vec![count(2), count(3)], b))).unwrap();
    second.feed::<String>(Ok((vec![count(1)], a))).unwrap();
    assert_eq!(second.feed::<String>(Err("stop".into())), Err("stop".to_string()));
    let (first_counts, first_total) = first.finalize();
    let (second_counts, second_total) = second.finalize();
    assert_eq!(first_total, second_total);
    assert_eq!(first_total, Outcome { input_objects: 3, expanded_objects: 1, decoded_objects: 3 });
    assert_eq!(first_counts.len(), 3);
    assert_eq!(second_counts[0].id, id(2));
    let mut sum = a;
    sum.aggregate(b);
    assert_eq!(sum, first_total);
}

#[test]
fn entries_of_a_tree_are_counted_once() {
    let entry = |mode: u16, n: u8| TreeEntry { mode, id: id(n) };
    let entries = vec![
        entry(0o100644, 3),
        entry(MODE_TREE, 4),
        entry(MODE_COMMIT, 77),
        entry(0o100755, 3),
        entry(0o120000, 5),
        entry(MODE_TREE, 4),
        entry(0o100644, 8),
    ];
    let mut seen = SeenSet::new();
    seen.insert(&id(8));
    let mut out = vec![Count { id: id(8), entry_pack_location: PackLocation::NotLookedUp }];
    let mut statistics = Outcome { input_objects: 1, expanded_objects: 0, decoded_objects: 1 };
    let mut queue = vec![0];
    let mut buf = Vec::new();
    count_entries(&store(), &entries, &mut seen, &mut out, &mut statistics, &mut queue, &mut buf, true);
    assert_eq!(out.iter().map(|c| c.id).collect::<Vec<_>>(), vec![id(8), id(3), id(4), id(5)]);
    assert_eq!(statistics, Outcome { input_objects: 1, expanded_objects: 3, decoded_objects: 4 });
    assert_eq!(queue, vec![0, 2]);
    assert_eq!(out[2].entry_pack_location, PackLocation::NotLookedUp);
    assert_eq!(
        out[1].entry_pack_location,
        PackLocation::LookedUp(Some(Location { pack_id: 1, pack_offset: 3, entry_size: 3 }))
    );
    assert!(!seen.contains(&id(77)));
    count_entries(&store(), &entries, &mut seen, &mut out, &mut statistics, &mut queue, &mut buf, false);
    assert_eq!(out.len(), 4);
    assert_eq!(queue, vec![0, 2]);
}

#[test]
fn trees_are_framed_before_they_are_decoded() {
    assert!(is_well_framed(b""));
    assert!(is_well_framed(&tree(&[("100644", "a", 1), ("40000", "b", 2)]).1));
    assert!(is_well_framed(&tree(&[("", "", 1)]).1));
    assert!(!is_well_framed(b"100644"));
    assert!(!is_well_framed(b"100644 a"));
    assert!(!is_well_framed(b"100644 a\0too short"));
    assert!(!is_well_framed(b"10x644 a\0012345678901234567890"));
    let mut trailing = tree(&[("100644", "a", 1)]).1;
    trailing.extend_from_slice(b"7777");
    assert!(!is_well_framed(&trailing));
}

#[test]
fn parents_lead_the_tokens_of_a_commit() {
    let parents = |tokens: &[CommitToken]| leading_parents(&tokens.to_vec());
    assert_eq!(parents(&[]), Some(vec![]));
    assert_eq!(parents(&[CommitToken::Other]), Some(vec![]));
    assert_eq!(
        parents(&[CommitToken::Parent(id(1)), CommitToken::Parent(id(2)), CommitToken::Other, CommitToken::Parent(id(3))]),
        Some(vec![id(1), id(2)])
    );
    assert_eq!(parents(&[CommitToken::Parent(id(1)), CommitToken::Invalid]), None);
    assert_eq!(parents(&[CommitToken::Parent(id(1)), CommitToken::Other, CommitToken::Invalid]), Some(vec![id(1)]));
    assert_eq!(parents(&[CommitToken::Tree(id(9)), CommitToken::Parent(id(1))]), Some(vec![]));
}

#[test]
fn trees_are_found_for_a_comparison() {
    let mut buf = Vec::new();
    assert!(find_tree(&store(), &id(2).bytes, &mut buf, &mut ()));
    assert_eq!(buf, tree(&[("100644", "a.txt", 3), ("40000", "dir", 4)]).1);
    assert!(!find_tree(&store(), &id(3).bytes, &mut buf, &mut ()));
    assert!(!find_tree(&store(), &id(99).bytes, &mut buf, &mut ()));
    assert!(!find_tree(&store(), &[1, 2, 3], &mut buf, &mut ()));
    let broken = store_with(vec![(31, (Kind::Tree, b"100644".to_vec()))]);
    assert!(!find_tree(&broken, &id(31).bytes, &mut buf, &mut ()));
}

#[test]
fn counts_come_in_the_order_in_which_objects_are_met() {
    let mut seen = SeenSet::new();
    let (counts, _) = run(ObjectExpansion::TreeContents, &mut seen, vec![Ok(id(9)), Ok(id(6))], false).unwrap();
    let order: Vec<u8> = counts.iter().map(|c| c.id.bytes[0]).collect();
    assert_eq!(order, vec![9, 1, 2, 3, 4, 5, 6, 7, 8]);

    let mut seen = SeenSet::new();
    let (counts, outcome) =
        run(ObjectExpansion::TreeAdditionsComparedToAncestor, &mut seen, vec![Ok(id(6)), Ok(id(9))], false).unwrap();
    let order: Vec<u8> = counts.iter().map(|c| c.id.bytes[0]).collect();
    assert_eq!(order, vec![6, 7, 1, 2, 8, 9, 3, 4, 5]);
    assert_eq!(outcome, Outcome { input_objects: 2, expanded_objects: 7, decoded_objects: 9 });
}

#[test]
fn what_follows_from_the_answer_of_a_lookup_for_a_tree() {
    let framed = tree(&[("100644", "a.txt", 3)]).1;
    let tree_found: Result<Option<Object>, String> = Ok(Some(Object { kind: Kind::Tree, pack_location: None }));
    let blob_found: Result<Option<Object>, String> = Ok(Some(Object { kind: Kind::Blob, pack_location: None }));
    let missing: Result<Option<Object>, String> = Ok(None);
    let failed: Result<Option<Object>, String> = Err("broken".to_string());
    assert!(is_tree_answer(&tree_found, &framed));
    assert!(is_tree_answer(&tree_found, b""));
    assert!(!is_tree_answer(&tree_found, b"100644"));
    assert!(!is_tree_answer(&blob_found, &framed));
    assert!(!is_tree_answer(&missing, &framed));
    assert!(!is_tree_answer(&failed, &framed));
}

#[test]
fn a_hash_of_another_length_names_no_tree() {
    let mut buf = b"kept".to_vec();
    assert!(!find_tree(&store(), &[2; 19], &mut buf, &mut ()));
    assert_eq!(buf, b"kept".to_vec());
    assert!(!find_tree(&store(), &[2; 21], &mut buf, &mut ()));
    assert_eq!(buf, b"kept".to_vec());
    assert!(find_tree(&store(), &[2; 20], &mut buf, &mut ()));
}

#[test]
fn a_tree_that_lists_itself_is_walked_once() {
    let looped = store_with(vec![
        (40, tree(&[("40000", "again", 40), ("100644", "file", 3)])),
        (41, commit(40, &[])),
    ]);
    let (counts, outcome) = run_on(&looped, ObjectExpansion::TreeContents, 41).unwrap();
    assert_eq!(counts.iter().map(|c| c.id.bytes[0]).collect::<Vec<_>>(), vec![41, 40, 3]);
    assert_eq!(outcome, Outcome { input_objects: 1, expanded_objects: 2, decoded_objects: 3 });
}

#[test]
fn a_missing_object_is_named_by_the_error() {
    let mut seen = SeenSet::new();
    let result = run(ObjectExpansion::AsIs, &mut seen, vec![Ok(id(1)), Ok(id(77))], false);
    assert!(matches!(result, Err(Error::FindExisting(ExistingError::NotFound { id: missing })) if missing == id(77)));

    let dangling = store_with(vec![(50, commit(51, &[])), (52, tag(53)), (54, commit(2, &[55]))]);
    let result = run_on(&dangling, ObjectExpansion::TreeContents, 50);
    assert!(matches!(result, Err(Error::FindExisting(ExistingError::NotFound { id: missing })) if missing == id(51)));
    let result = run_on(&dangling, ObjectExpansion::TreeAdditionsComparedToAncestor, 52);
    assert!(matches!(result, Err(Error::FindExisting(ExistingError::NotFound { id: missing })) if missing == id(53)));
    let result = run_on(&dangling, ObjectExpansion::TreeAdditionsComparedToAncestor, 54);
    assert!(matches!(result, Err(Error::FindExisting(ExistingError::NotFound { id: missing })) if missing == id(55)));
}
