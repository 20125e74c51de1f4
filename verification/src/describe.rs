//! Naming a commit after the nearest named commit among its ancestors.
use vstd::prelude::*;
use std::collections::HashMap;
use std::hash::BuildHasherDefault;
use hash_hasher::HashHasher;
use crate::decode::{
    commit_tokens_after_tree, read_commit_tokens_after_tree, CommitToken, TokenModel,
};
use crate::find::{find, ExistingError, Find};
use crate::object::ObjectId;
use git_object::CommitRefIter;

verus! {

#[verifier::external_type_specification]
#[verifier::external_body]
pub struct ExHashHasher(HashHasher);

#[verifier::external_type_specification]
#[verifier::external_body]
#[verifier::reject_recursive_types(H)]
pub struct ExBuildHasherDefault<H>(BuildHasherDefault<H>);

/// The flags of commits, by their ids: a `HashedMap` of `hash_hasher`.
pub type FlagsMap = HashMap<[u8; 20], u32, BuildHasherDefault<HashHasher>>;

/// The time at which the commit in `data` was committed, in seconds since 1970, or zero
/// where the commit does not tell.
pub uninterp spec fn commit_time(data: Seq<u8>) -> u32;

/// `git_object::CommitRefIter::committer`: the time of the committer's signature, or
/// zero where the commit has none that decodes.
#[verifier::external_body]
fn read_commit_time(data: &[u8]) -> (seconds: u32)
    ensures
        seconds == commit_time(data@),
{
    CommitRefIter::from_bytes(data).committer().map(|committer| committer.time.seconds_since_unix_epoch).unwrap_or_default()
}

/// The flags of no commit.
pub open spec fn no_flags() -> Map<[u8; 20], u32> {
    Map::empty()
}

/// `HashedMap::default` of `hash_hasher`: a map that holds nothing.
#[verifier::external_body]
fn flags_new() -> (flags: FlagsMap)
    ensures
        flags@ == no_flags(),
{
    hash_hasher::HashedMap::default()
}

/// `HashMap::insert` on a `HashedMap` of `hash_hasher`: the key has the value afterwards,
/// and all other keys are as before.
#[verifier::external_body]
fn flags_insert(flags: &mut FlagsMap, key: [u8; 20], value: u32)
    ensures
        final(flags)@ == old(flags)@.insert(key, value),
{
    flags.insert(key, value);
}

/// `HashMap::get` on a `HashedMap` of `hash_hasher`: the value of the key, if it has one.
#[verifier::external_body]
fn flags_get(flags: &FlagsMap, key: &[u8; 20]) -> (value:
    Option<u32>)
    ensures
        value is Some <==> flags@.contains_key(*key),
        value matches Some(v) ==> v == flags@[*key],
{
    flags.get(key).copied()
}

/// Commits with their times, by their hashes.
pub open spec fn timed(parents: Seq<(ObjectId, u32)>) -> Seq<(Seq<u8>, u32)> {
    parents.map_values(|p: (ObjectId, u32)| (p.0@, p.1))
}

/// Commits with their times in the order from newest to oldest, where commits of the
/// same time keep their order.
pub uninterp spec fn newest_first(parents: Seq<(Seq<u8>, u32)>) -> Seq<(Seq<u8>, u32)>;

/// `slice::sort_by_key` of the standard library, by the time from newest to oldest: the
/// same commits, in descending order of their times. The sort is stable, so the order
/// that comes out depends on nothing but the order that went in.
#[verifier::external_body]
fn sort_newest_first(parents: &mut Vec<(ObjectId, u32)>)
    ensures
        timed(final(parents)@) == newest_first(timed(old(parents)@)),
        final(parents)@.to_multiset() == old(parents)@.to_multiset(),
        forall|i: int, j: int|
            0 <= i <= j < final(parents)@.len() ==> final(parents)@[i].1 >= final(parents)@[j].1,
{
    parents.sort_by_key(|parent| std::cmp::Reverse(parent.1))
}

/// The most names that are followed at once: one for each bit of the flags.
pub const MAX_CANDIDATES: usize = 32;

/// The names of commits, as pairs of the id of a commit and its name. Where an id
/// stands twice, its first name counts.
pub type Names = Vec<(ObjectId, Vec<u8>)>;

/// The position of the first name of `id` at or after `from`.
pub open spec fn name_at(names: Seq<(ObjectId, Vec<u8>)>, id: Seq<u8>, from: int) -> int
    decreases names.len() - from,
{
    if from < 0 || from >= names.len() || names[from].0@ == id {
        from
    } else {
        name_at(names, id, from + 1)
    }
}

/// The name of `id`, if it has one.
pub open spec fn name_of(names: Seq<(ObjectId, Vec<u8>)>, id: Seq<u8>) -> Option<Seq<u8>> {
    let at = name_at(names, id, 0);
    if 0 <= at < names.len() {
        Some(names[at].1@)
    } else {
        None
    }
}

/// Whether `name` is the name of some commit.
pub open spec fn is_name(names: Seq<(ObjectId, Vec<u8>)>, name: Seq<u8>) -> bool {
    exists|i: int| 0 <= i < names.len() && (#[trigger] names[i]).1@ == name
}

/// Looks up the name of `id`.
pub fn find_name<'a>(names: &'a Names, id: &ObjectId) -> (name: Option<&'a Vec<u8>>)
    ensures
        match name {
            Some(name) => name_of(names@, id@) == Some(name@) && is_name(names@, name@),
            None => name_of(names@, id@) is None,
        },
{
    let mut i: usize = 0;
    while i < names.len()
        invariant
            i <= names@.len(),
            name_at(names@, id@, 0) == name_at(names@, id@, i as int),
        decreases names@.len() - i,
    {
        if names[i].0 == *id {
            return Some(&names[i].1);
        }
        i += 1;
    }
    None
}

/// What a commit was named after.
#[derive(Debug, Clone)]
pub struct Outcome {
    /// The name of the nearest named ancestor, or nothing where only the id is left.
    pub name: Option<Vec<u8>>,
    /// The commit that was described.
    pub id: ObjectId,
    /// The number of commits between the commit and the named one.
    pub depth: u32,
    /// The names that were searched.
    pub name_by_oid: Names,
}

/// How to write a description.
#[derive(PartialEq, Eq, Debug, Hash, Ord, PartialOrd, Clone)]
pub struct Format {
    pub name: Option<Vec<u8>>,
    pub id: ObjectId,
    pub hex_len: usize,
    pub depth: u32,
    pub long: bool,
    pub dirty_suffix: Option<Vec<u8>>,
}

impl Outcome {
    /// The description, to be written with `hex_len` hex digits of the id.
    pub fn into_format(self, hex_len: usize) -> (format: Format)
        ensures
            format == (Format {
                name: self.name,
                id: self.id,
                hex_len,
                depth: self.depth,
                long: false,
                dirty_suffix: None,
            }),
    {
        Format { name: self.name, id: self.id, hex_len, depth: self.depth, long: false, dirty_suffix: None }
    }
}

/// The hex digit of a number below 16.
pub open spec fn hex_digit(nibble: u8) -> u8 {
    if nibble < 10 {
        (0x30 + nibble) as u8
    } else {
        (0x61 + nibble - 10) as u8
    }
}

/// The first `len` hex digits of `id`, or all forty where `len` is greater.
pub open spec fn hex(id: Seq<u8>, len: int) -> Seq<u8> {
    Seq::new(
        (if len < 2 * id.len() {
            len
        } else {
            2 * id.len() as int
        }) as nat,
        |i: int| if i % 2 == 0 {
            hex_digit(id[i / 2] / 16)
        } else {
            hex_digit(id[i / 2] % 16)
        },
    )
}

/// Writes the first `len` hex digits of `id`.
pub fn to_hex_with_len(id: &ObjectId, len: usize) -> (digits: Vec<u8>)
    ensures
        digits@ == hex(id@, len as int),
{
    let count: usize = if len < 40 {
        len
    } else {
        40
    };
    let mut digits: Vec<u8> = Vec::new();
    let mut i: usize = 0;
    while i < count
        invariant
            i <= count <= 40,
            digits@.len() == i,
            forall|j: int| 0 <= j < i ==> digits@[j] == hex(id@, len as int)[j],
            count == hex(id@, len as int).len(),
        decreases count - i,
    {
        let byte = id.bytes[i / 2];
        let nibble = if i % 2 == 0 {
            byte / 16
        } else {
            byte % 16
        };
        let digit = if nibble < 10 {
            0x30 + nibble
        } else {
            0x61 + nibble - 10
        };
        digits.push(digit);
        i += 1;
    }
    assert(digits@ =~= hex(id@, len as int));
    digits
}

/// The decimal digits of `n`.
pub open spec fn decimal(n: nat) -> Seq<u8>
    decreases n,
{
    if n < 10 {
        seq![(0x30 + n) as u8]
    } else {
        decimal(n / 10).push((0x30 + n % 10) as u8)
    }
}

/// Writes `n` in decimal digits.
pub fn decimal_of(n: u64) -> (digits: Vec<u8>)
    ensures
        digits@ == decimal(n as nat),
{
    let mut reversed: Vec<u8> = Vec::new();
    let mut rest = n;
    while rest >= 10
        invariant
            decimal(n as nat) == decimal(rest as nat) + reversed@.reverse(),
        decreases rest,
    {
        let ghost before = reversed@;
        reversed.push(0x30 + (rest % 10) as u8);
        proof {
            assert(reversed@.reverse() =~= seq![(0x30 + rest % 10) as u8] + before.reverse());
            assert(decimal(rest as nat) == decimal((rest / 10) as nat).push(
                (0x30 + rest % 10) as u8,
            ));
            assert(decimal((rest / 10) as nat).push((0x30 + rest % 10) as u8) + before.reverse()
                =~= decimal((rest / 10) as nat) + reversed@.reverse());
        }
        rest = rest / 10;
    }
    let mut digits: Vec<u8> = Vec::new();
    digits.push(0x30 + rest as u8);
    let ghost first = digits@;
    assert(first =~= decimal(rest as nat));
    let mut i: usize = reversed.len();
    while i > 0
        invariant
            i <= reversed@.len(),
            digits@ == first + reversed@.reverse().take(reversed@.len() - i),
        decreases i,
    {
        i -= 1;
        digits.push(reversed[i]);
        assert(digits@ =~= first + reversed@.reverse().take(reversed@.len() - i));
    }
    assert(reversed@.reverse().take(reversed@.len() as int) =~= reversed@.reverse());
    digits
}

/// Writes `n` in decimal digits.
pub fn to_decimal(n: u32) -> (digits: Vec<u8>)
    ensures
        digits@ == decimal(n as nat),
{
    decimal_of(n as u64)
}

impl Format {
    /// Whether the commit itself has the name.
    pub fn is_exact_match(&self) -> (exact: bool)
        ensures
            exact == (self.depth == 0),
    {
        self.depth == 0
    }

    /// Asks for the long form, which tells depth and id also of a commit that has the
    /// name itself.
    pub fn long(&mut self)
        ensures
            *final(self) == (Format { long: true, ..*old(self) }),
    {
        self.long = true;
    }

    /// Asks for the short form, which tells the name alone of a commit that has the
    /// name itself.
    pub fn short(&mut self)
        ensures
            *final(self) == (Format { long: false, ..*old(self) }),
    {
        self.long = false;
    }

    /// The description as it is written.
    pub open spec fn text(&self) -> Seq<u8> {
        let body = match self.name {
            Some(name) => if !self.long && self.depth == 0 {
                name@
            } else {
                name@ + seq![0x2du8] + decimal(self.depth as nat) + seq![0x2du8, 0x67] + hex(
                    self.id@,
                    self.hex_len as int,
                )
            },
            None => hex(self.id@, self.hex_len as int),
        };
        match self.dirty_suffix {
            Some(suffix) => body + seq![0x2du8] + suffix@,
            None => body,
        }
    }

    /// Writes the description: the name alone for a commit that has the name itself,
    /// unless the long form is asked for; else the name, the depth and `g` with the id
    /// in hex, with dashes between; the id in hex alone where there is no name. A
    /// suffix follows after a dash.
    pub fn to_bytes(&self) -> (out: Vec<u8>)
        ensures
            out@ == self.text(),
    {
        let mut out: Vec<u8> = Vec::new();
        match &self.name {
            Some(name) => {
                if !self.long && self.is_exact_match() {
                    crate::config::events::append(&mut out, name);
                    assert(out@ =~= name@);
                } else {
                    crate::config::events::append(&mut out, name);
                    out.push(0x2d);
                    let depth = to_decimal(self.depth);
                    crate::config::events::append(&mut out, &depth);
                    out.push(0x2d);
                    out.push(0x67);
                    let digits = to_hex_with_len(&self.id, self.hex_len);
                    crate::config::events::append(&mut out, &digits);
                    assert(out@ =~= name@ + seq![0x2du8] + decimal(self.depth as nat) + seq![
                        0x2du8,
                        0x67,
                    ] + hex(self.id@, self.hex_len as int));
                }
            },
            None => {
                let digits = to_hex_with_len(&self.id, self.hex_len);
                crate::config::events::append(&mut out, &digits);
                assert(out@ =~= hex(self.id@, self.hex_len as int));
            },
        }
        match &self.dirty_suffix {
            Some(suffix) => {
                let ghost body = out@;
                out.push(0x2d);
                crate::config::events::append(&mut out, suffix);
                assert(out@ =~= body + seq![0x2du8] + suffix@);
            },
            None => {},
        }
        out
    }
}

/// How to describe.
#[derive(Clone, Debug)]
pub struct Options {
    /// The names of commits.
    pub name_by_oid: Names,
    /// The number of names that are followed at once, which is at most 32.
    pub max_candidates: usize,
    /// Whether a commit without a named ancestor is described by its id alone.
    pub fallback_to_oid: bool,
}

impl Default for Options {
    fn default() -> (options: Options)
        ensures
            options.max_candidates == MAX_CANDIDATES,
            options.name_by_oid@.len() == 0,
            !options.fallback_to_oid,
    {
        Options { max_candidates: MAX_CANDIDATES, name_by_oid: Vec::new(), fallback_to_oid: false }
    }
}

/// Why a commit could not be described.
#[derive(Debug)]
pub enum Error<E> {
    /// A commit could not be had while the ancestors of `oid` were looked at.
    Find { err: ExistingError<E>, oid: ObjectId },
    /// The commit `oid` does not decode.
    Decode { oid: ObjectId },
}

/// A name that may come to describe the commit.
#[derive(Debug)]
pub struct Candidate {
    pub name: Vec<u8>,
    /// The number of commits that were seen and that the named commit does not reach.
    pub commits_in_its_future: u32,
    /// The bit that marks the commits that the named commit reaches.
    pub identity_bit: u32,
    /// The place of the candidate among all candidates, in the order they were found.
    pub order: usize,
}

/// Whether the candidate `a` is better than `b`: it has fewer commits in its future,
/// or as many and was found earlier.
pub open spec fn better(a: Candidate, b: Candidate) -> bool {
    a.commits_in_its_future < b.commits_in_its_future || (a.commits_in_its_future
        == b.commits_in_its_future && a.order <= b.order)
}

/// The place of the best candidate: no other has fewer commits in its future, and of
/// those with as many none was found earlier.
pub fn best_candidate(candidates: &Vec<Candidate>) -> (best: usize)
    requires
        candidates@.len() > 0,
    ensures
        best < candidates@.len(),
        forall|i: int| 0 <= i < candidates@.len() ==> better(candidates@[best as int], #[trigger] candidates@[i]),
{
    let mut best: usize = 0;
    let mut i: usize = 1;
    while i < candidates.len()
        invariant
            1 <= i <= candidates@.len(),
            best < i,
            forall|j: int| 0 <= j < i ==> better(candidates@[best as int], #[trigger] candidates@[j]),
        decreases candidates@.len() - i,
    {
        let a = &candidates[i];
        let b = &candidates[best];
        if a.commits_in_its_future < b.commits_in_its_future || (a.commits_in_its_future
            == b.commits_in_its_future && a.order < b.order) {
            best = i;
        }
        i += 1;
    }
    best
}

/// The flags that `seen` has for the key `id`, or none where it has not seen it.
pub open spec fn flags_in(seen: Map<[u8; 20], u32>, id: [u8; 20]) -> u32 {
    if seen.contains_key(id) {
        seen[id]
    } else {
        0
    }
}

/// The flags of `id`, or none where the commit was never seen.
fn flags_of(seen: &FlagsMap, id: &ObjectId) -> (flags: u32)
    ensures
        flags == flags_in(seen@, id.bytes),
{
    match flags_get(seen, &id.bytes) {
        Some(flags) => flags,
        None => 0,
    }
}

/// The key under which the flags of the commit with the hash `id` are kept.
pub open spec fn key_of(id: Seq<u8>) -> [u8; 20] {
    choose|key: [u8; 20]| key@ == id
}

/// The flags of a commit are kept under its hash.
pub proof fn lemma_key_of(id: ObjectId)
    ensures
        key_of(id@) == id.bytes,
{
    let key = key_of(id@);
    assert(id.bytes@ == id@);
    assert(key@ == id@);
    assert(key =~= id.bytes);
}

/// The hashes of a list of commits.
pub open spec fn hashes(ids: Seq<ObjectId>) -> Seq<Seq<u8>> {
    ids.map_values(|id: ObjectId| id@)
}

/// The position of the first token at or after `from` that ends the parents of a
/// commit: one that follows the parents, or one that does not decode.
pub open spec fn parents_stop(tokens: Seq<TokenModel>, from: int) -> int
    decreases tokens.len() - from,
{
    if from < 0 || from >= tokens.len() || tokens[from] is Other || tokens[from] is Invalid {
        from
    } else {
        parents_stop(tokens, from + 1)
    }
}

/// Whether the parents of a commit with these tokens can be read: what ends them is no
/// token that does not decode.
pub open spec fn parents_readable(tokens: Seq<TokenModel>) -> bool {
    !(parents_stop(tokens, 0) < tokens.len() && tokens[parents_stop(tokens, 0)] is Invalid)
}

/// The flags after the parents among the first `upto` tokens were looked at on behalf
/// of a commit with `flags`: a parent that was not seen has these flags, one that was
/// seen has them added to its own.
pub open spec fn marked(
    seen: Map<[u8; 20], u32>,
    tokens: Seq<TokenModel>,
    flags: u32,
    upto: int,
) -> Map<[u8; 20], u32>
    decreases upto,
{
    if upto <= 0 {
        seen
    } else {
        let before = marked(seen, tokens, flags, upto - 1);
        match tokens[upto - 1] {
            TokenModel::Parent(id) => before.insert(
                key_of(id),
                if before.contains_key(key_of(id)) {
                    before[key_of(id)] | flags
                } else {
                    flags
                },
            ),
            _ => before,
        }
    }
}

/// The parents among the first `upto` tokens that were not seen when they were looked
/// at, in their order, each with the time at which it was committed.
pub open spec fn fresh_parents<F: Find>(
    db: &F,
    seen: Map<[u8; 20], u32>,
    tokens: Seq<TokenModel>,
    flags: u32,
    upto: int,
) -> Seq<(Seq<u8>, u32)>
    decreases upto,
{
    if upto <= 0 {
        Seq::empty()
    } else {
        let before = fresh_parents(db, seen, tokens, flags, upto - 1);
        match tokens[upto - 1] {
            TokenModel::Parent(id) => if marked(seen, tokens, flags, upto - 1).contains_key(
                key_of(id),
            ) {
                before
            } else {
                before.push((id, commit_time(db.content(id).1)))
            },
            _ => before,
        }
    }
}

/// The commits that are still to be looked at, in their order, beside the flags of all
/// commits that were seen.
pub struct Trail {
    pub queue: Seq<Seq<u8>>,
    pub flags: Map<[u8; 20], u32>,
}

/// The trail after the parents of `commit` were looked at on behalf of a commit with
/// `flags`: the flags are marked, and the parents that were not seen are queued, the
/// newest first.
pub open spec fn with_parents<F: Find>(db: &F, trail: Trail, commit: Seq<u8>, flags: u32) -> Trail {
    let tokens = commit_tokens_after_tree(db.content(commit).1);
    let stop = parents_stop(tokens, 0);
    Trail {
        queue: trail.queue + newest_first(
            fresh_parents(db, trail.flags, tokens, flags, stop),
        ).map_values(|p: (Seq<u8>, u32)| p.0),
        flags: marked(trail.flags, tokens, flags, stop),
    }
}

/// Whether one of the first `upto` tokens names the parent `id`.
pub open spec fn token_before(tokens: Seq<TokenModel>, upto: int, id: Seq<u8>) -> bool {
    exists|t: int| 0 <= t < upto && #[trigger] tokens[t] == TokenModel::Parent(id)
}

/// Whether the commit `parent` is a parent of the commit `id`, as far as the parents of
/// `id` are read.
pub open spec fn is_parent<F: Find>(db: &F, id: Seq<u8>, parent: Seq<u8>) -> bool {
    token_before(
        commit_tokens_after_tree(db.content(id).1),
        parents_stop(commit_tokens_after_tree(db.content(id).1), 0),
        parent,
    )
}

/// Whether `id` is reached from `start` in `hops` steps from a commit to a parent.
pub open spec fn reaches_in<F: Find>(db: &F, start: Seq<u8>, id: Seq<u8>, hops: nat) -> bool
    decreases hops,
{
    if hops == 0 {
        id == start
    } else {
        exists|via: Seq<u8>|
            reaches_in(db, start, via, (hops - 1) as nat) && #[trigger] is_parent(db, via, id)
    }
}

/// Whether `id` is `start` or one of its ancestors.
pub open spec fn reaches<F: Find>(db: &F, start: Seq<u8>, id: Seq<u8>) -> bool {
    exists|hops: nat| reaches_in(db, start, id, hops)
}

/// Whether `name` is the name of `start` or of one of its ancestors.
pub open spec fn names_ancestor<F: Find>(
    db: &F,
    names: Seq<(ObjectId, Vec<u8>)>,
    start: Seq<u8>,
    name: Seq<u8>,
) -> bool {
    exists|id: Seq<u8>| #[trigger] reaches(db, start, id) && name_of(names, id) == Some(name)
}

/// The parents of an ancestor are ancestors.
pub proof fn lemma_reaches_parent<F: Find>(db: &F, start: Seq<u8>, via: Seq<u8>, id: Seq<u8>)
    requires
        reaches(db, start, via),
        is_parent(db, via, id),
    ensures
        reaches(db, start, id),
{
    let hops = choose|hops: nat| reaches_in(db, start, via, hops);
    let more: nat = hops + 1;
    assert((more - 1) as nat == hops);
    assert(reaches_in(db, start, via, (more - 1) as nat) && is_parent(db, via, id));
    assert(reaches_in(db, start, id, more));
}

/// Whether `queue` holds from `from` on the commit whose flags are kept under `key`.
pub open spec fn queued_from(queue: Seq<ObjectId>, from: int, key: [u8; 20]) -> bool {
    exists|k: int| from <= k < queue.len() && (#[trigger] queue[k]).bytes == key
}

/// Whether the commit with the hash `id` was seen.
pub open spec fn seen_as(seen: Map<[u8; 20], u32>, id: Seq<u8>) -> bool {
    exists|key: [u8; 20]| key@ == id && #[trigger] seen.contains_key(key)
}

/// Whether the parents among `list` are held by `keys`.
pub open spec fn paired_in(list: Seq<(ObjectId, u32)>, key: [u8; 20]) -> bool {
    exists|j: int| 0 <= j < list.len() && (#[trigger] list[j]).0.bytes == key
}

/// Looks at the parents of `commit`: a parent that was not seen gets the flags of the
/// commit and is queued, the newest first; a parent that was seen gets the flags added
/// to its own.
///
/// On success queue and flags are what [`with_parents`] gives. A failure leaves the
/// queue as it was; it names `commit`, and says that the commit does not decode only
/// where its parents cannot be read.
fn parents_by_date_onto_queue_and_track_names<F: Find>(
    db: &F,
    cache: &mut F::Cache,
    buf: &mut Vec<u8>,
    parent_buf: &mut Vec<u8>,
    queue: &mut Vec<ObjectId>,
    seen: &mut FlagsMap,
    commit: &ObjectId,
    commit_flags: u32,
) -> (done: Result<(), Error<F::Error>>)
    ensures
        old(queue)@.len() <= final(queue)@.len(),
        forall|i: int| 0 <= i < old(queue)@.len() ==> final(queue)@[i] == old(queue)@[i],
        done is Ok ==> (Trail { queue: hashes(final(queue)@), flags: final(seen)@ }) == with_parents(
            db,
            Trail { queue: hashes(old(queue)@), flags: old(seen)@ },
            commit@,
            commit_flags,
        ) && parents_readable(commit_tokens_after_tree(db.content(commit@).1)),
        done is Err ==> final(queue)@ == old(queue)@,
        forall|k: int|
            old(queue)@.len() <= k < final(queue)@.len() ==> is_parent(
                db,
                commit@,
                (#[trigger] final(queue)@[k])@,
            ),
        forall|key: [u8; 20]|
            old(seen)@.contains_key(key) ==> #[trigger] final(seen)@.contains_key(key),
        forall|k: int|
            old(queue)@.len() <= k < final(queue)@.len() ==> final(seen)@.contains_key(
                (#[trigger] final(queue)@[k]).bytes,
            ),
        done is Ok ==> forall|key: [u8; 20]| #[trigger]
            final(seen)@.contains_key(key) ==> old(seen)@.contains_key(key) || queued_from(
                final(queue)@,
                old(queue)@.len() as int,
                key,
            ),
        done is Ok ==> forall|parent: Seq<u8>| #[trigger]
            is_parent(db, commit@, parent) ==> seen_as(final(seen)@, parent),
        done matches Err(Error::Find { oid, .. }) ==> oid == *commit,
        done matches Err(Error::Decode { oid }) ==> oid == *commit && !parents_readable(
            commit_tokens_after_tree(db.content(commit@).1),
        ),
{
    let ghost seen0 = seen@;
    match find(db, commit, buf, cache) {
        Ok(_) => {},
        Err(err) => {
            return Err(Error::Find { err, oid: *commit });
        },
    }
    let tokens = read_commit_tokens_after_tree(buf.as_slice());
    let ghost models = tokens@.map_values(|t: CommitToken| t@);
    let mut parents: Vec<(ObjectId, u32)> = Vec::new();
    let mut i: usize = 0;
    let mut more = true;
    while more && i < tokens.len()
        invariant
            i <= tokens@.len(),
            models == tokens@.map_values(|t: CommitToken| t@),
            models == commit_tokens_after_tree(db.content(commit@).1),
            parents_stop(models, 0) == parents_stop(models, i as int),
            !more ==> i < tokens@.len() && models[i as int] is Other,
            seen@ == marked(seen0, models, commit_flags, i as int),
            timed(parents@) == fresh_parents(db, seen0, models, commit_flags, i as int),
            forall|j: int|
                0 <= j < parents@.len() ==> token_before(models, i as int, (#[trigger] parents@[j]).0@),
            seen0 == old(seen)@,
            forall|key: [u8; 20]| seen0.contains_key(key) ==> #[trigger] seen@.contains_key(key),
            forall|key: [u8; 20]| #[trigger]
                seen@.contains_key(key) ==> seen0.contains_key(key) || paired_in(parents@, key),
            forall|t: int|
                0 <= t < i && (#[trigger] models[t]) is Parent ==> seen_as(
                    seen@,
                    models[t]->Parent_0,
                ),
            forall|j: int| 0 <= j < parents@.len() ==> seen@.contains_key((#[trigger] parents@[j]).0.bytes),
            queue@ == old(queue)@,
        decreases tokens@.len() - i + (if more { 1int } else { 0int }),
    {
        let ghost seen_then = seen@;
        let ghost parents_then = parents@;
        assert(models[i as int] == tokens@[i as int]@);
        match tokens[i] {
            CommitToken::Tree(_) => {},
            CommitToken::Parent(parent_id) => {
                proof {
                    lemma_key_of(parent_id);
                }
                match flags_get(seen, &parent_id.bytes) {
                    None => {
                        match find(db, &parent_id, parent_buf, cache) {
                            Ok(_) => {},
                            Err(err) => {
                                return Err(Error::Find { err, oid: *commit });
                            },
                        }
                        let parent_commit_date = read_commit_time(parent_buf.as_slice());
                        flags_insert(seen, parent_id.bytes, commit_flags);
                        parents.push((parent_id, parent_commit_date));
                        assert(timed(parents@) =~= timed(parents_then).push(
                            (parent_id@, parent_commit_date),
                        ));
                    },
                    Some(flags) => {
                        flags_insert(seen, parent_id.bytes, flags | commit_flags);
                    },
                }
            },
            CommitToken::Other => {
                more = false;
            },
            CommitToken::Invalid => {
                assert(parents_stop(models, i as int) == i);
                return Err(Error::Decode { oid: *commit });
            },
        }
        proof {
            assert forall|key: [u8; 20]| #[trigger] seen@.contains_key(key) implies seen0.contains_key(
                key,
            ) || paired_in(parents@, key) by {
                if seen_then.contains_key(key) {
                    if !seen0.contains_key(key) {
                        let j = choose|j: int|
                            0 <= j < parents_then.len() && (#[trigger] parents_then[j]).0.bytes == key;
                        assert(parents@[j] == parents_then[j]);
                    }
                } else {
                    assert(parents@.len() == parents_then.len() + 1);
                    assert(parents@[parents_then.len() as int].0.bytes == key);
                }
            }
            assert forall|t: int| 0 <= t < i + 1 && (#[trigger] models[t]) is Parent implies seen_as(
                seen@,
                models[t]->Parent_0,
            ) by {
                if t < i {
                    let key = choose|key: [u8; 20]|
                        key@ == models[t]->Parent_0 && #[trigger] seen_then.contains_key(key);
                    assert(seen@.contains_key(key));
                } else {
                    let id = tokens@[i as int]->Parent_0;
                    assert(id.bytes@ == models[t]->Parent_0);
                    assert(seen@.contains_key(id.bytes));
                }
            }
            assert forall|j: int| 0 <= j < parents@.len() implies seen@.contains_key(
                (#[trigger] parents@[j]).0.bytes,
            ) by {
                if j < parents_then.len() {
                    assert(parents@[j] == parents_then[j]);
                    assert(seen_then.contains_key(parents_then[j].0.bytes));
                }
            }
            assert forall|j: int| 0 <= j < parents@.len() implies token_before(
                models,
                i + 1,
                (#[trigger] parents@[j]).0@,
            ) by {
                if j < parents_then.len() {
                    assert(parents@[j] == parents_then[j]);
                    let t = choose|t: int|
                        0 <= t < i && #[trigger] models[t] == TokenModel::Parent(parents_then[j].0@);
                    assert(models[t] == TokenModel::Parent(parents@[j].0@));
                } else {
                    assert(models[i as int] == TokenModel::Parent(parents@[j].0@));
                }
            }
        }
        if more {
            i += 1;
        }
    }
    assert(parents_stop(models, i as int) == i);
    let ghost fresh = timed(parents@);
    let ghost unsorted = parents@;
    sort_newest_first(&mut parents);
    proof {
        unsorted.to_multiset_ensures();
        parents@.to_multiset_ensures();
        assert forall|k: int| 0 <= k < parents@.len() implies is_parent(
            db,
            commit@,
            (#[trigger] parents@[k]).0@,
        ) by {
            assert(parents@.contains(parents@[k]));
            assert(parents@.to_multiset().count(parents@[k]) > 0);
            assert(unsorted.to_multiset().count(parents@[k]) > 0);
            assert(unsorted.contains(parents@[k]));
            let j = choose|j: int| 0 <= j < unsorted.len() && unsorted[j] == parents@[k];
            assert(token_before(models, i as int, unsorted[j].0@));
        }
        assert forall|k: int| 0 <= k < parents@.len() implies seen@.contains_key(
            (#[trigger] parents@[k]).0.bytes,
        ) by {
            assert(parents@.contains(parents@[k]));
            assert(parents@.to_multiset().count(parents@[k]) > 0);
            assert(unsorted.to_multiset().count(parents@[k]) > 0);
            assert(unsorted.contains(parents@[k]));
            let j = choose|j: int| 0 <= j < unsorted.len() && unsorted[j] == parents@[k];
            assert(seen@.contains_key(unsorted[j].0.bytes));
        }
        assert forall|key: [u8; 20]| #[trigger] seen@.contains_key(key) implies seen0.contains_key(
            key,
        ) || paired_in(parents@, key) by {
            if !seen0.contains_key(key) {
                let j = choose|j: int| 0 <= j < unsorted.len() && (#[trigger] unsorted[j]).0.bytes == key;
                assert(unsorted.contains(unsorted[j]));
                assert(unsorted.to_multiset().count(unsorted[j]) > 0);
                assert(parents@.to_multiset().count(unsorted[j]) > 0);
                assert(parents@.contains(unsorted[j]));
                let k = choose|k: int| 0 <= k < parents@.len() && parents@[k] == unsorted[j];
                assert(parents@[k].0.bytes == key);
            }
        }
        assert forall|parent: Seq<u8>| #[trigger] is_parent(db, commit@, parent) implies seen_as(
            seen@,
            parent,
        ) by {
            let t = choose|t: int| 0 <= t < i && #[trigger] models[t] == TokenModel::Parent(parent);
            assert(models[t] is Parent);
        }
    }
    let ghost seen_end = seen@;
    let ghost sorted = newest_first(fresh).map_values(|p: (Seq<u8>, u32)| p.0);
    assert(sorted.len() == parents@.len()) by {
        assert(timed(parents@).len() == parents@.len());
    }
    let mut k: usize = 0;
    proof {
        assert(hashes(queue@) =~= hashes(old(queue)@) + sorted.take(0));
    }
    while k < parents.len()
        invariant
            k <= parents@.len(),
            sorted.len() == parents@.len(),
            timed(parents@) == newest_first(fresh),
            sorted == newest_first(fresh).map_values(|p: (Seq<u8>, u32)| p.0),
            old(queue)@.len() <= queue@.len(),
            forall|i: int| 0 <= i < old(queue)@.len() ==> queue@[i] == old(queue)@[i],
            hashes(queue@) == hashes(old(queue)@) + sorted.take(k as int),
            forall|j: int| 0 <= j < parents@.len() ==> is_parent(db, commit@, (#[trigger] parents@[j]).0@),
            forall|j: int|
                old(queue)@.len() <= j < queue@.len() ==> is_parent(
                    db,
                    commit@,
                    (#[trigger] queue@[j])@,
                ),
            seen@ == seen_end,
            queue@.len() == old(queue)@.len() + k,
            forall|j: int| 0 <= j < k ==> (#[trigger] queue@[old(queue)@.len() + j]) == parents@[j].0,
            forall|j: int| 0 <= j < parents@.len() ==> seen@.contains_key((#[trigger] parents@[j]).0.bytes),
        decreases parents@.len() - k,
    {
        let ghost queue_then = queue@;
        queue.push(parents[k].0);
        proof {
            assert forall|j: int| old(queue)@.len() <= j < queue@.len() implies is_parent(
                db,
                commit@,
                (#[trigger] queue@[j])@,
            ) by {
                if j < queue_then.len() {
                    assert(queue@[j] == queue_then[j]);
                } else {
                    assert(queue@[j] == parents@[k as int].0);
                }
            }
        }
        proof {
            assert(timed(parents@)[k as int] == (parents@[k as int].0@, parents@[k as int].1));
            assert(sorted[k as int] == parents@[k as int].0@);
            assert(hashes(queue@) =~= hashes(queue_then).push(parents@[k as int].0@));
            assert(sorted.take(k + 1) =~= sorted.take(k as int).push(sorted[k as int]));
        }
        k += 1;
    }
    proof {
        assert(sorted.take(k as int) =~= sorted);
        assert forall|key: [u8; 20]| #[trigger] seen@.contains_key(key) implies seen0.contains_key(
            key,
        ) || queued_from(queue@, old(queue)@.len() as int, key) by {
            if !seen0.contains_key(key) {
                let j = choose|j: int| 0 <= j < parents@.len() && (#[trigger] parents@[j]).0.bytes == key;
                assert(queue@[old(queue)@.len() + j].bytes == key);
            }
        }
        assert forall|j: int| old(queue)@.len() <= j < queue@.len() implies seen@.contains_key(
            (#[trigger] queue@[j]).bytes,
        ) by {
            assert(queue@[old(queue)@.len() + (j - old(queue)@.len())] == parents@[j - old(
                queue,
            )@.len()].0);
        }
    }
    Ok(())
}

/// Whether the commit `id` is one that the name with the bit `bit` reaches.
pub open spec fn reached(flags: Map<[u8; 20], u32>, id: Seq<u8>, bit: u32) -> bool {
    flags_in(flags, key_of(id)) & bit == bit
}

/// Whether the name with the bit `bit` reaches all commits that are queued from `from`
/// on.
pub open spec fn all_reached(trail: Trail, from: int, bit: u32) -> bool {
    forall|k: int|
        from <= k < trail.queue.len() ==> reached(trail.flags, #[trigger] trail.queue[k], bit)
}

/// Where the count of the commits between a commit and a name stands: the trail, the
/// place of the next commit in its queue, the count, and whether it is final.
pub struct Tally {
    pub trail: Trail,
    pub head: int,
    pub depth: u32,
    pub done: bool,
}

/// The tally after the next queued commit was looked at for the name with the bit
/// `bit`. The count is final where nothing is queued, or where the name reaches the
/// commit and all that is queued after it. Else a commit that the name does not reach
/// is counted, up to the greatest number, and the parents of the commit are looked at.
pub open spec fn tally_step<F: Find>(db: &F, tally: Tally, bit: u32) -> Tally {
    if tally.done {
        tally
    } else if tally.head < 0 || tally.head >= tally.trail.queue.len() {
        Tally { trail: tally.trail, head: tally.head, depth: tally.depth, done: true }
    } else {
        let commit = tally.trail.queue[tally.head];
        let flags = flags_in(tally.trail.flags, key_of(commit));
        if flags & bit == bit && all_reached(tally.trail, tally.head + 1, bit) {
            Tally { trail: tally.trail, head: tally.head + 1, depth: tally.depth, done: true }
        } else {
            Tally {
                trail: with_parents(db, tally.trail, commit, flags),
                head: tally.head + 1,
                depth: if flags & bit == bit || tally.depth == u32::MAX {
                    tally.depth
                } else {
                    (tally.depth + 1) as u32
                },
                done: false,
            }
        }
    }
}

/// The tally after `steps` steps.
pub open spec fn tally_after<F: Find>(db: &F, start: Tally, bit: u32, steps: nat) -> Tally
    decreases steps,
{
    if steps == 0 {
        start
    } else {
        tally_step(db, tally_after(db, start, bit, (steps - 1) as nat), bit)
    }
}

/// The count at which the tally ends.
pub open spec fn final_depth<F: Find>(db: &F, start: Tally, bit: u32) -> u32 {
    tally_after(db, start, bit, choose|steps: nat| tally_after(db, start, bit, steps).done).depth
}

/// A tally that is final stays as it is.
pub proof fn lemma_tally_stays<F: Find>(db: &F, start: Tally, bit: u32, done: nat, later: nat)
    requires
        tally_after(db, start, bit, done).done,
        done <= later,
    ensures
        tally_after(db, start, bit, later) == tally_after(db, start, bit, done),
    decreases later,
{
    if later > done {
        lemma_tally_stays(db, start, bit, done, (later - 1) as nat);
    }
}

/// The count at which the tally ends is the count of any tally that is final.
pub proof fn lemma_tally_ends<F: Find>(db: &F, start: Tally, bit: u32, steps: nat)
    requires
        tally_after(db, start, bit, steps).done,
    ensures
        final_depth(db, start, bit) == tally_after(db, start, bit, steps).depth,
{
    let chosen = choose|n: nat| tally_after(db, start, bit, n).done;
    if chosen <= steps {
        lemma_tally_stays(db, start, bit, chosen, steps);
    } else {
        lemma_tally_stays(db, start, bit, steps, chosen);
    }
}

/// Counts how many more commits lie between the commit and the best candidate: the
/// commits that are still queued and that the candidate does not reach, until all
/// that is queued is reached by it.
///
/// On success the count of the candidate is the one at which the tally ends that starts
/// with the queue from `head` on, the flags and the count so far; nothing else of the
/// candidate changes. Where nothing is queued the database is not asked, and the count
/// stays. A commit that is said not to decode is one whose parents cannot be read.
fn finish_depth_computation<F: Find>(
    queue: Vec<ObjectId>,
    head: usize,
    db: &F,
    cache: &mut F::Cache,
    best_candidate: &mut Candidate,
    seen: FlagsMap,
    buf: &mut Vec<u8>,
    parent_buf: &mut Vec<u8>,
) -> (done: Result<(), Error<F::Error>>)
    requires
        head <= queue@.len(),
    ensures
        final(best_candidate).name == old(best_candidate).name,
        final(best_candidate).identity_bit == old(best_candidate).identity_bit,
        final(best_candidate).order == old(best_candidate).order,
        done is Ok ==> final(best_candidate).commits_in_its_future == final_depth(
            db,
            Tally {
                trail: Trail { queue: hashes(queue@), flags: seen@ },
                head: head as int,
                depth: old(best_candidate).commits_in_its_future,
                done: false,
            },
            old(best_candidate).identity_bit,
        ),
        head == queue@.len() ==> done is Ok && final(best_candidate).commits_in_its_future == old(
            best_candidate,
        ).commits_in_its_future,
        done matches Err(Error::Decode { oid }) ==> !parents_readable(
            commit_tokens_after_tree(db.content(oid@).1),
        ),
{
    let ghost start = Tally {
        trail: Trail { queue: hashes(queue@), flags: seen@ },
        head: head as int,
        depth: best_candidate.commits_in_its_future,
        done: false,
    };
    let ghost mut steps: nat = 0;
    let bit = best_candidate.identity_bit;
    let mut pending = queue;
    let mut flags_now = seen;
    let mut at = head;
    let mut finished = false;
    while !finished && at < pending.len()
        invariant
            at <= pending@.len(),
            best_candidate.name == old(best_candidate).name,
            best_candidate.identity_bit == old(best_candidate).identity_bit,
            best_candidate.order == old(best_candidate).order,
            bit == old(best_candidate).identity_bit,
            steps == 0 ==> best_candidate.commits_in_its_future == old(
                best_candidate,
            ).commits_in_its_future,
            start == (Tally {
                trail: Trail { queue: hashes(queue@), flags: seen@ },
                head: head as int,
                depth: old(best_candidate).commits_in_its_future,
                done: false,
            }),
            steps == 0 ==> at == head && pending@ == queue@,
            steps > 0 ==> head < queue@.len(),
            finished ==> tally_after(db, start, bit, steps).done && tally_after(
                db,
                start,
                bit,
                steps,
            ).depth == best_candidate.commits_in_its_future,
            !finished ==> tally_after(db, start, bit, steps) == (Tally {
                trail: Trail { queue: hashes(pending@), flags: flags_now@ },
                head: at as int,
                depth: best_candidate.commits_in_its_future,
                done: false,
            }),
        decreases usize::MAX - at,
    {
        let ghost tally = tally_after(db, start, bit, steps);
        let commit = pending[at];
        proof {
            lemma_key_of(commit);
            assert(hashes(pending@)[at as int] == commit@);
            assert(tally_after(db, start, bit, steps + 1) == tally_step(db, tally, bit));
        }
        at += 1;
        let flags = flags_of(&flags_now, &commit);
        let mut goes_on = true;
        if (flags & bit) == bit {
            let mut all = true;
            let mut k: usize = at;
            let ghost mut missed: int = 0;
            while all && k < pending.len()
                invariant
                    at <= k <= pending@.len(),
                    all ==> forall|j: int|
                        at <= j < k ==> reached(flags_now@, #[trigger] hashes(pending@)[j], bit),
                    !all ==> at <= missed < pending@.len() && !reached(
                        flags_now@,
                        hashes(pending@)[missed],
                        bit,
                    ),
                decreases pending@.len() - k + (if all { 1int } else { 0int }),
            {
                proof {
                    lemma_key_of(pending@[k as int]);
                    assert(hashes(pending@)[k as int] == pending@[k as int]@);
                }
                if (flags_of(&flags_now, &pending[k]) & bit) != bit {
                    all = false;
                    proof {
                        missed = k as int;
                    }
                } else {
                    k += 1;
                }
            }
            if all {
                goes_on = false;
                assert(all_reached(tally.trail, at as int, bit));
            } else {
                assert(!all_reached(tally.trail, at as int, bit));
            }
        } else {
            if best_candidate.commits_in_its_future < u32::MAX {
                best_candidate.commits_in_its_future += 1;
            }
        }
        if goes_on {
            match parents_by_date_onto_queue_and_track_names(
                db,
                cache,
                buf,
                parent_buf,
                &mut pending,
                &mut flags_now,
                &commit,
                flags,
            ) {
                Ok(()) => {},
                Err(err) => {
                    return Err(err);
                },
            }
        } else {
            finished = true;
        }
        proof {
            steps = steps + 1;
        }
    }
    proof {
        if finished {
            lemma_tally_ends(db, start, bit, steps);
        } else {
            assert(tally_after(db, start, bit, steps + 1) == tally_step(
                db,
                tally_after(db, start, bit, steps),
                bit,
            ));
            lemma_tally_ends(db, start, bit, steps + 1);
        }
    }
    Ok(())
}

/// A candidate, as plain values.
pub struct Found {
    pub name: Seq<u8>,
    pub future: u32,
    pub bit: u32,
    pub order: int,
}

/// What a candidate holds.
pub open spec fn found_of(candidate: Candidate) -> Found {
    Found {
        name: candidate.name@,
        future: candidate.commits_in_its_future,
        bit: candidate.identity_bit,
        order: candidate.order as int,
    }
}

/// What candidates hold.
pub open spec fn found_all(candidates: Seq<Candidate>) -> Seq<Found> {
    candidates.map_values(|c: Candidate| found_of(c))
}

/// One more than `n`, up to the greatest number.
pub open spec fn next_count(n: u32) -> u32 {
    if n < u32::MAX {
        (n + 1) as u32
    } else {
        n
    }
}

/// The bit of the candidate that is found as the `order`th.
pub open spec fn bit_of(order: int) -> u32 {
    1u32 << (order as u32)
}

/// The candidate after a commit with `flags` was looked at: a commit that the candidate
/// does not reach lies in its future.
pub open spec fn passed_by(found: Found, flags: u32) -> Found {
    if flags & found.bit != found.bit {
        Found { name: found.name, future: next_count(found.future), bit: found.bit, order: found.order }
    } else {
        found
    }
}

/// The candidates after a commit with `flags` was looked at.
pub open spec fn all_passed_by(found: Seq<Found>, flags: u32) -> Seq<Found> {
    found.map_values(|f: Found| passed_by(f, flags))
}

/// Where the search for names stands: the trail, the place of the next commit in its
/// queue, the candidates found, the number of commits looked at, and whether the search
/// was given up because a name was found that could not be followed any more.
pub struct Search {
    pub trail: Trail,
    pub head: int,
    pub found: Seq<Found>,
    pub seen_commits: u32,
    pub gave_up: bool,
}

/// Whether the search is over.
pub open spec fn search_done(search: Search) -> bool {
    search.gave_up || search.head < 0 || search.head >= search.trail.queue.len()
}

/// The search before its first step: the commit is queued and seen.
pub open spec fn search_start(start: Seq<u8>) -> Search {
    Search {
        trail: Trail { queue: seq![start], flags: no_flags().insert(key_of(start), 0) },
        head: 0,
        found: Seq::empty(),
        seen_commits: 0,
        gave_up: false,
    }
}

/// The search after the next queued commit was looked at, where at most `max` names
/// are followed. A commit with a name becomes a candidate with a bit of its own, unless
/// `max` candidates are there: then the search is given up. Else the commit lies in the
/// future of each candidate that does not reach it, and its parents are looked at.
pub open spec fn search_step<F: Find>(
    db: &F,
    names: Seq<(ObjectId, Vec<u8>)>,
    max: int,
    search: Search,
) -> Search {
    if search_done(search) {
        search
    } else {
        let current = search.trail.queue[search.head];
        let key = key_of(current);
        let seen_commits = next_count(search.seen_commits);
        let named = name_of(names, current);
        if named is Some && search.found.len() >= max {
            Search {
                trail: search.trail,
                head: search.head + 1,
                found: search.found,
                seen_commits,
                gave_up: true,
            }
        } else {
            let bit = bit_of(search.found.len() as int);
            let found = match named {
                Some(name) => search.found.push(
                    Found {
                        name,
                        future: if seen_commits > 0 {
                            (seen_commits - 1) as u32
                        } else {
                            0
                        },
                        bit,
                        order: search.found.len() as int,
                    },
                ),
                None => search.found,
            };
            let marked = match named {
                Some(_) => search.trail.flags.insert(key, flags_in(search.trail.flags, key) | bit),
                None => search.trail.flags,
            };
            let flags = flags_in(marked, key);
            Search {
                trail: with_parents(
                    db,
                    Trail { queue: search.trail.queue, flags: marked },
                    current,
                    flags,
                ),
                head: search.head + 1,
                found: all_passed_by(found, flags),
                seen_commits,
                gave_up: false,
            }
        }
    }
}

/// The search after `steps` steps.
pub open spec fn search_after<F: Find>(
    db: &F,
    names: Seq<(ObjectId, Vec<u8>)>,
    max: int,
    start: Search,
    steps: nat,
) -> Search
    decreases steps,
{
    if steps == 0 {
        start
    } else {
        search_step(db, names, max, search_after(db, names, max, start, (steps - 1) as nat))
    }
}

/// The search from `start` when it is over.
pub open spec fn search_end<F: Find>(
    db: &F,
    names: Seq<(ObjectId, Vec<u8>)>,
    max: int,
    start: Seq<u8>,
) -> Search {
    search_after(
        db,
        names,
        max,
        search_start(start),
        choose|steps: nat| search_done(search_after(db, names, max, search_start(start), steps)),
    )
}

/// A search that is over stays as it is.
pub proof fn lemma_search_stays<F: Find>(
    db: &F,
    names: Seq<(ObjectId, Vec<u8>)>,
    max: int,
    start: Search,
    done: nat,
    later: nat,
)
    requires
        search_done(search_after(db, names, max, start, done)),
        done <= later,
    ensures
        search_after(db, names, max, start, later) == search_after(db, names, max, start, done),
    decreases later,
{
    if later > done {
        lemma_search_stays(db, names, max, start, done, (later - 1) as nat);
    }
}

/// The search when it is over is any search that is over.
pub proof fn lemma_search_ends<F: Find>(
    db: &F,
    names: Seq<(ObjectId, Vec<u8>)>,
    max: int,
    start: Seq<u8>,
    steps: nat,
)
    requires
        search_done(search_after(db, names, max, search_start(start), steps)),
    ensures
        search_end(db, names, max, start) == search_after(db, names, max, search_start(start), steps),
{
    let chosen = choose|n: nat| search_done(search_after(db, names, max, search_start(start), n));
    if chosen <= steps {
        lemma_search_stays(db, names, max, search_start(start), chosen, steps);
    } else {
        lemma_search_stays(db, names, max, search_start(start), steps, chosen);
    }
}

/// Whether the candidate `a` is better than `b`: it has fewer commits in its future,
/// or as many and was found earlier.
pub open spec fn better_found(a: Found, b: Found) -> bool {
    a.future < b.future || (a.future == b.future && a.order <= b.order)
}

/// Whether the commit `start`, which has no name, is described by `name` at `depth`:
/// the name is that of the best of the candidates that the search found, and the depth
/// is the count at which the tally for that candidate ends, which goes on from where
/// the search ended.
pub open spec fn described_as<F: Find>(
    db: &F,
    names: Seq<(ObjectId, Vec<u8>)>,
    max: int,
    start: Seq<u8>,
    name: Seq<u8>,
    depth: u32,
) -> bool {
    let end = search_end(db, names, max, start);
    exists|best: int|
        0 <= best < end.found.len() && (forall|i: int|
            0 <= i < end.found.len() ==> better_found(end.found[best], #[trigger] end.found[i]))
            && (#[trigger] end.found[best]).name == name && depth == final_depth(
            db,
            Tally {
                trail: end.trail,
                head: if end.gave_up {
                    end.head - 1
                } else {
                    end.head
                },
                depth: end.found[best].future,
                done: false,
            },
            end.found[best].bit,
        )
}

/// The number of names that are followed at once where `asked` are asked for.
pub open spec fn followed_names(asked: usize) -> int {
    if asked < MAX_CANDIDATES {
        asked as int
    } else {
        MAX_CANDIDATES as int
    }
}

/// Whether no commit among `start` and its ancestors has a name.
pub open spec fn no_named_ancestor<F: Find>(
    db: &F,
    names: Seq<(ObjectId, Vec<u8>)>,
    start: Seq<u8>,
) -> bool {
    forall|id: Seq<u8>| #[trigger] reaches(db, start, id) ==> name_of(names, id) is None
}

/// Whether every commit that was seen is queued.
pub open spec fn all_queued(queue: Seq<ObjectId>, seen: Map<[u8; 20], u32>) -> bool {
    forall|key: [u8; 20]| #[trigger] seen.contains_key(key) ==> queued_from(queue, 0, key)
}

/// Whether the parents of the first `head` queued commits were seen.
pub open spec fn closed_upto<F: Find>(
    db: &F,
    queue: Seq<ObjectId>,
    seen: Map<[u8; 20], u32>,
    head: int,
) -> bool {
    forall|k: int, parent: Seq<u8>|
        0 <= k < head && k < queue.len() && #[trigger] is_parent(db, queue[k]@, parent) ==> seen_as(
            seen,
            parent,
        )
}

/// Whether none of the first `head` queued commits has a name.
pub open spec fn unnamed_upto(names: Seq<(ObjectId, Vec<u8>)>, queue: Seq<ObjectId>, head: int) -> bool {
    forall|k: int| 0 <= k < head && k < queue.len() ==> name_of(names, (#[trigger] queue[k])@) is None
}

/// Whether every queued commit is `start` or one of its ancestors.
pub open spec fn all_reached_from<F: Find>(db: &F, start: Seq<u8>, queue: Seq<ObjectId>) -> bool {
    forall|k: int| 0 <= k < queue.len() ==> reaches(db, start, (#[trigger] queue[k])@)
}

/// Whether every candidate is named after `start` or one of its ancestors.
pub open spec fn candidates_reached<F: Find>(
    db: &F,
    names: Seq<(ObjectId, Vec<u8>)>,
    start: Seq<u8>,
    candidates: Seq<Candidate>,
) -> bool {
    forall|i: int|
        0 <= i < candidates.len() ==> names_ancestor(db, names, start, (#[trigger] candidates[i]).name@)
}

/// Where the queue starts with a commit, holds all that was seen, and the parents of
/// all queued commits were seen, every ancestor of the commit is queued.
pub proof fn lemma_all_queued<F: Find>(
    db: &F,
    start: Seq<u8>,
    queue: Seq<ObjectId>,
    seen: Map<[u8; 20], u32>,
    hops: nat,
    id: Seq<u8>,
)
    requires
        queue.len() > 0,
        queue[0]@ == start,
        all_queued(queue, seen),
        closed_upto(db, queue, seen, queue.len() as int),
        reaches_in(db, start, id, hops),
    ensures
        exists|k: int| 0 <= k < queue.len() && (#[trigger] queue[k])@ == id,
    decreases hops,
{
    if hops == 0 {
        assert(queue[0]@ == id);
    } else {
        let via = choose|via: Seq<u8>|
            reaches_in(db, start, via, (hops - 1) as nat) && #[trigger] is_parent(db, via, id);
        lemma_all_queued(db, start, queue, seen, (hops - 1) as nat, via);
        let k = choose|k: int| 0 <= k < queue.len() && (#[trigger] queue[k])@ == via;
        assert(is_parent(db, queue[k]@, id));
        assert(seen_as(seen, id));
        let key = choose|key: [u8; 20]| key@ == id && #[trigger] seen.contains_key(key);
        assert(queued_from(queue, 0, key));
        let at = choose|at: int| 0 <= at < queue.len() && (#[trigger] queue[at]).bytes == key;
        assert(queue[at]@ == id);
    }
}

/// Describes `commit` by the name of the nearest named commit among its ancestors and
/// itself, with the number of commits between the two.
///
/// A commit that has a name is described by it, with depth zero, and the database is
/// not asked. Whatever the database answers else: a description is of `commit`; its
/// name is the name of `commit` or of one of its ancestors; and it is without a name
/// only where the id alone is asked for, else there is no description then. Where
/// names are followed at all, there is no name or no description only where neither
/// `commit` nor any of its ancestors has a name. The name of a description is that of
/// the best of the candidates that the search finds, and its depth the count at which
/// the tally for that candidate ends, as [`described_as`] says.
pub fn describe<F: Find>(commit: &ObjectId, db: &F, cache: &mut F::Cache, options: Options) -> (described:
    Result<Option<Outcome>, Error<F::Error>>)
    ensures
        name_of(options.name_by_oid@, commit@) matches Some(name) ==> (described matches Ok(
            Some(outcome),
        ) && outcome.name matches Some(n) && n@ == name && outcome.depth == 0 && outcome.id
            == *commit && outcome.name_by_oid == options.name_by_oid),
        described matches Ok(Some(outcome)) ==> outcome.id == *commit && outcome.name_by_oid
            == options.name_by_oid && (match outcome.name {
            Some(name) => is_name(options.name_by_oid@, name@) && names_ancestor(
                db,
                options.name_by_oid@,
                commit@,
                name@,
            ) && (name_of(options.name_by_oid@, commit@) is None ==> described_as(
                db,
                options.name_by_oid@,
                followed_names(options.max_candidates),
                commit@,
                name@,
                outcome.depth,
            )),
            None => options.fallback_to_oid && outcome.depth == 0 && search_end(
                db,
                options.name_by_oid@,
                followed_names(options.max_candidates),
                commit@,
            ).found.len() == 0 && (options.max_candidates > 0 ==> no_named_ancestor(
                db,
                options.name_by_oid@,
                commit@,
            )),
        }),
        described matches Ok(None) ==> !options.fallback_to_oid && name_of(
            options.name_by_oid@,
            commit@,
        ) is None && search_end(
            db,
            options.name_by_oid@,
            followed_names(options.max_candidates),
            commit@,
        ).found.len() == 0 && (options.max_candidates > 0 ==> no_named_ancestor(
            db,
            options.name_by_oid@,
            commit@,
        )),
{
    let name_by_oid = options.name_by_oid;
    let fallback_to_oid = options.fallback_to_oid;
    proof {
        assert(reaches_in(db, commit@, commit@, 0));
        assert(reaches(db, commit@, commit@));
    }
    if let Some(name) = find_name(&name_by_oid, commit) {
        let name = crate::config::events::copy_of(name);
        return Ok(Some(Outcome { name: Some(name), id: *commit, depth: 0, name_by_oid }));
    }
    let max_candidates = if options.max_candidates < MAX_CANDIDATES {
        options.max_candidates
    } else {
        MAX_CANDIDATES
    };
    let mut buf: Vec<u8> = Vec::new();
    let mut parent_buf: Vec<u8> = Vec::new();
    let mut queue: Vec<ObjectId> = Vec::new();
    queue.push(*commit);
    let mut head: usize = 0;
    let mut candidates: Vec<Candidate> = Vec::new();
    let mut seen_commits: u32 = 0;
    let mut gave_up = false;
    let mut seen = flags_new();
    flags_insert(&mut seen, commit.bytes, 0);
    let ghost start = search_start(commit@);
    let ghost mut steps: nat = 0;
    let ghost max = max_candidates as int;
    proof {
        assert forall|key: [u8; 20]| #[trigger] seen@.contains_key(key) implies queued_from(
            queue@,
            0,
            key,
        ) by {
            assert(queue@[0].bytes == key);
        }
        lemma_key_of(*commit);
        assert(hashes(queue@) =~= seq![commit@]);
        assert(found_all(candidates@) =~= Seq::<Found>::empty());
    }
    while !gave_up && head < queue.len()
        invariant
            start == search_start(commit@),
            max == max_candidates,
            max == followed_names(options.max_candidates),
            search_after(db, name_by_oid@, max, start, steps) == (Search {
                trail: Trail { queue: hashes(queue@), flags: seen@ },
                head: head as int,
                found: found_all(candidates@),
                seen_commits,
                gave_up,
            }),
            head <= queue@.len(),
            max_candidates <= 32,
            (max_candidates > 0) == (options.max_candidates > 0),
            name_of(name_by_oid@, commit@) is None,
            name_by_oid == options.name_by_oid,
            candidates@.len() <= max_candidates,
            forall|i: int|
                0 <= i < candidates@.len() ==> is_name(name_by_oid@, (#[trigger] candidates@[i]).name@),
            gave_up ==> head > 0 && candidates@.len() >= max_candidates,
            queue@.len() > 0,
            queue@[0] == *commit,
            all_queued(queue@, seen@),
            all_reached_from(db, commit@, queue@),
            candidates_reached(db, name_by_oid@, commit@, candidates@),
            candidates@.len() == 0 && max_candidates > 0 ==> closed_upto(
                db,
                queue@,
                seen@,
                head as int,
            ) && unnamed_upto(name_by_oid@, queue@, head as int),
        decreases usize::MAX - head + (if gave_up { 0int } else { 1int }),
    {
        let ghost queue_then = queue@;
        let ghost seen_start = seen@;
        let ghost head_then = head as int;
        let ghost were_none = candidates@.len() == 0;
        let ghost search = search_after(db, name_by_oid@, max, start, steps);
        let ghost found_then = found_all(candidates@);
        let current = queue[head];
        head += 1;
        if seen_commits < u32::MAX {
            seen_commits += 1;
        }
        proof {
            assert(reaches(db, commit@, current@));
            lemma_key_of(current);
            assert(hashes(queue@)[head_then] == current@);
            assert(search_after(db, name_by_oid@, max, start, steps + 1) == search_step(
                db,
                name_by_oid@,
                max,
                search,
            ));
            assert(!search_done(search));
        }
        if let Some(name) = find_name(&name_by_oid, &current) {
            if candidates.len() < max_candidates {
                let order = candidates.len();
                let identity_bit: u32 = 1u32 << (order as u32);
                let name = crate::config::events::copy_of(name);
                let ghost before = candidates@;
                candidates.push(
                    Candidate {
                        name,
                        commits_in_its_future: if seen_commits > 0 {
                            seen_commits - 1
                        } else {
                            0
                        },
                        identity_bit,
                        order,
                    },
                );
                proof {
                    assert(identity_bit == bit_of(order as int));
                    assert(found_all(candidates@) =~= found_then.push(
                        found_of(candidates@[order as int]),
                    ));
                    assert(names_ancestor(db, name_by_oid@, commit@, name@));
                    assert forall|i: int| 0 <= i < candidates@.len() implies names_ancestor(
                        db,
                        name_by_oid@,
                        commit@,
                        (#[trigger] candidates@[i]).name@,
                    ) by {
                        if i < before.len() {
                            assert(candidates@[i] == before[i]);
                        }
                    }
                }
                let flags = flags_of(&seen, &current);
                flags_insert(&mut seen, current.bytes, flags | identity_bit);
                proof {
                    assert forall|key: [u8; 20]| #[trigger] seen@.contains_key(key) implies queued_from(
                        queue@,
                        0,
                        key,
                    ) by {
                        if key == current.bytes {
                            assert(queue@[head_then].bytes == key);
                        } else {
                            assert(seen_start.contains_key(key));
                        }
                    }
                }
            } else {
                gave_up = true;
            }
        }
        if !gave_up {
            let flags = flags_of(&seen, &current);
            let mut c: usize = 0;
            let ghost followed = candidates@.len();
            let ghost found_now = found_all(candidates@);
            assert(followed == 0 && max_candidates > 0 ==> name_of(name_by_oid@, current@) is None);
            while c < candidates.len()
                invariant
                    c <= candidates@.len(),
                    candidates@.len() == followed,
                    found_now.len() == followed,
                    forall|i: int|
                        0 <= i < c ==> found_of(#[trigger] candidates@[i]) == passed_by(
                            found_now[i],
                            flags,
                        ),
                    forall|i: int|
                        c <= i < candidates@.len() ==> found_of(#[trigger] candidates@[i])
                            == found_now[i],
                    candidates@.len() <= max_candidates,
                    forall|i: int|
                        0 <= i < candidates@.len() ==> is_name(
                            name_by_oid@,
                            (#[trigger] candidates@[i]).name@,
                        ),
                    candidates_reached(db, name_by_oid@, commit@, candidates@),
                decreases candidates@.len() - c,
            {
                let bit = candidates[c].identity_bit;
                let ghost unchanged = candidates@;
                if (flags & bit) != bit {
                    let ghost before = candidates@;
                    let candidate = candidates.remove(c);
                    let future = if candidate.commits_in_its_future < u32::MAX {
                        candidate.commits_in_its_future + 1
                    } else {
                        candidate.commits_in_its_future
                    };
                    candidates.insert(
                        c,
                        Candidate {
                            name: candidate.name,
                            commits_in_its_future: future,
                            identity_bit: candidate.identity_bit,
                            order: candidate.order,
                        },
                    );
                    proof {
                        assert forall|i: int| 0 <= i < candidates@.len() implies is_name(
                            name_by_oid@,
                            (#[trigger] candidates@[i]).name@,
                        ) && names_ancestor(db, name_by_oid@, commit@, candidates@[i].name@) by {
                            assert(is_name(name_by_oid@, before[i].name@));
                            assert(names_ancestor(db, name_by_oid@, commit@, before[i].name@));
                            assert(candidates@[i].name@ == before[i].name@);
                        }
                    }
                }
                proof {
                    assert forall|i: int| 0 <= i < c + 1 implies found_of(
                        #[trigger] candidates@[i],
                    ) == passed_by(found_now[i], flags) by {
                        if i < c {
                            assert(found_of(unchanged[i]) == passed_by(found_now[i], flags));
                            assert(found_of(candidates@[i]) == found_of(unchanged[i]));
                        } else {
                            assert(found_of(unchanged[i]) == found_now[i]);
                        }
                    }
                    assert forall|i: int| c + 1 <= i < candidates@.len() implies found_of(
                        #[trigger] candidates@[i],
                    ) == found_now[i] by {
                        assert(found_of(unchanged[i]) == found_now[i]);
                        assert(found_of(candidates@[i]) == found_of(unchanged[i]));
                    }
                }
                c += 1;
            }
            proof {
                assert(found_all(candidates@) =~= all_passed_by(found_now, flags));
            }
            let ghost seen_then = seen@;
            match parents_by_date_onto_queue_and_track_names(
                db,
                cache,
                &mut buf,
                &mut parent_buf,
                &mut queue,
                &mut seen,
                &current,
                flags,
            ) {
                Ok(()) => {},
                Err(err) => {
                    return Err(err);
                },
            }
            proof {
                assert forall|key: [u8; 20]| #[trigger] seen@.contains_key(key) implies queued_from(
                    queue@,
                    0,
                    key,
                ) by {
                    if seen_then.contains_key(key) {
                        assert(queued_from(queue_then, 0, key));
                        let k = choose|k: int|
                            0 <= k < queue_then.len() && (#[trigger] queue_then[k]).bytes == key;
                        assert(queue@[k] == queue_then[k]);
                    } else {
                        assert(queued_from(queue@, queue_then.len() as int, key));
                        let k = choose|k: int|
                            queue_then.len() <= k < queue@.len() && (#[trigger] queue@[k]).bytes == key;
                        assert(queue@[k].bytes == key);
                    }
                }
                assert forall|k: int| 0 <= k < queue@.len() implies reaches(
                    db,
                    commit@,
                    (#[trigger] queue@[k])@,
                ) by {
                    if k < queue_then.len() {
                        assert(queue@[k] == queue_then[k]);
                        assert(reaches(db, commit@, queue_then[k]@));
                    } else {
                        assert(is_parent(db, current@, queue@[k]@));
                        lemma_reaches_parent(db, commit@, current@, queue@[k]@);
                    }
                }
                if candidates@.len() == 0 && max_candidates > 0 {
                    assert(were_none);
                    assert(name_of(name_by_oid@, current@) is None);
                    assert forall|k: int| 0 <= k < head && k < queue@.len() implies name_of(
                        name_by_oid@,
                        (#[trigger] queue@[k])@,
                    ) is None by {
                        assert(queue@[k] == queue_then[k]);
                    }
                    assert forall|k: int, parent: Seq<u8>|
                        0 <= k < head && k < queue@.len() && #[trigger] is_parent(
                            db,
                            queue@[k]@,
                            parent,
                        ) implies seen_as(seen@, parent) by {
                        assert(queue@[k] == queue_then[k]);
                        if k < head_then {
                            assert(is_parent(db, queue_then[k]@, parent));
                            assert(seen_as(seen_start, parent));
                            let key = choose|key: [u8; 20]|
                                key@ == parent && #[trigger] seen_start.contains_key(key);
                            assert(seen_then.contains_key(key));
                            assert(seen@.contains_key(key));
                        } else {
                            assert(is_parent(db, current@, parent));
                        }
                    }
                }
            }
        }
        proof {
            steps = steps + 1;
        }
    }
    proof {
        lemma_search_ends(db, name_by_oid@, max, commit@, steps);
    }
    if candidates.len() == 0 {
        proof {
            if max_candidates > 0 {
                assert(!gave_up);
                assert(head == queue@.len());
                assert forall|id: Seq<u8>| #[trigger] reaches(db, commit@, id) implies name_of(
                    name_by_oid@,
                    id,
                ) is None by {
                    let hops = choose|hops: nat| reaches_in(db, commit@, id, hops);
                    lemma_all_queued(db, commit@, queue@, seen@, hops, id);
                    let k = choose|k: int| 0 <= k < queue@.len() && (#[trigger] queue@[k])@ == id;
                }
            }
        }
        return if fallback_to_oid {
            Ok(Some(Outcome { id: *commit, name: None, name_by_oid, depth: 0 }))
        } else {
            Ok(None)
        };
    }
    let best = best_candidate(&candidates);
    if gave_up {
        // The commit that could not become a candidate is looked at again.
        head -= 1;
    }
    let ghost all = candidates@;
    let ghost end = search_end(db, name_by_oid@, max, commit@);
    let mut chosen = candidates.swap_remove(best);
    assert(chosen == all[best as int]);
    proof {
        assert(end.found == found_all(all));
        assert forall|i: int| 0 <= i < end.found.len() implies better_found(
            end.found[best as int],
            #[trigger] end.found[i],
        ) by {
            assert(better(all[best as int], all[i]));
        }
    }
    let ghost tally = Tally {
        trail: end.trail,
        head: if end.gave_up {
            end.head - 1
        } else {
            end.head
        },
        depth: end.found[best as int].future,
        done: false,
    };
    proof {
        assert(end.found[best as int] == found_of(all[best as int]));
        assert(tally == (Tally {
            trail: Trail { queue: hashes(queue@), flags: seen@ },
            head: head as int,
            depth: chosen.commits_in_its_future,
            done: false,
        }));
    }
    assert(names_ancestor(db, name_by_oid@, commit@, chosen.name@));
    match finish_depth_computation(
        queue,
        head,
        db,
        cache,
        &mut chosen,
        seen,
        &mut buf,
        &mut parent_buf,
    ) {
        Ok(()) => {},
        Err(err) => {
            return Err(err);
        },
    }
    proof {
        assert(chosen.commits_in_its_future == final_depth(db, tally, end.found[best as int].bit));
        assert(end.found[best as int].name == chosen.name@);
        assert(described_as(
            db,
            name_by_oid@,
            max,
            commit@,
            chosen.name@,
            chosen.commits_in_its_future,
        ));
    }
    Ok(
        Some(
            Outcome {
                name: Some(chosen.name),
                id: *commit,
                depth: chosen.commits_in_its_future,
                name_by_oid,
            },
        ),
    )
}

} // verus!
