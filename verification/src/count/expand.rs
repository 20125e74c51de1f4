//! Expanding starting ids into counts.
use vstd::prelude::*;
use std::sync::atomic::AtomicBool;
use git_diff::tree::{changes, recorder::Change, Changes, Recorder, State};
use git_object::TreeRefIter;
use crate::count::types::{
    counted, fresh, ids_of, tallied, Count, Error, ObjectExpansion, Outcome, PackLocation,
    TreeChangesError, TreeTraverseError,
};
use crate::decode::{
    commit_tokens_after_tree, commit_tree, entries_model, is_well_framed, leading_parents,
    leading_parents_of, read_commit_tokens_after_tree, read_commit_tree, read_tag_target,
    read_tree_entries, tree_entries, well_framed, MODE_COMMIT, MODE_TREE, TreeEntry,
};
use crate::find::{find, ExistingError, Find, Object};
use crate::interrupt::is_set;
use crate::object::{Kind, ObjectId};
use crate::seen::SeenSet;
use crate::count::model::{
    additions_one, after_changes, after_entries, after_parents, after_walk, chain,
    commit_additions, contents, contents_one, count, decodes, ends_hops, expanded, hop,
    hops_to_end, lemma_after_entries_goes_on, lemma_after_parents_step, lemma_hops_end_once,
    leads_to, lemma_then_nothing, lemma_walk_ends, lemma_walk_stays, listing, near_commit,
    not_a_commit, not_a_tag, some_leads_to,
    nothing, one, parent_step, reads_at, resolved, then, tree_changes, trees_nest, walk_done,
    walk_reads, walk_start, walked, ChangeKind, Gain, Walk,
};

verus! {

/// Adding an id that was not held keeps the list of added ids exact.
pub proof fn lemma_fresh_push(
    before: Set<Seq<u8>>,
    ids: Seq<Seq<u8>>,
    after: Set<Seq<u8>>,
    id: Seq<u8>,
)
    requires
        fresh(before, ids, after),
        !after.contains(id),
    ensures
        fresh(before, ids.push(id), after.insert(id)),
{
    let ids2 = ids.push(id);
    assert(!ids.contains(id)) by {
        if ids.contains(id) {
            assert(ids.to_set().contains(id));
        }
    }
    assert(ids2.no_duplicates());
    assert forall|i: int| 0 <= i < ids2.len() implies !before.contains(#[trigger] ids2[i]) by {
        if i < ids.len() {
            assert(ids2[i] == ids[i]);
        }
    }
    assert(after.insert(id) =~= before.union(ids2.to_set())) by {
        assert forall|x: Seq<u8>| ids2.to_set().contains(x) <==> (ids.to_set().contains(x) || x
            == id) by {
            if ids2.contains(x) {
                let i = choose|i: int| 0 <= i < ids2.len() && ids2[i] == x;
                if i < ids.len() {
                    assert(ids[i] == x);
                }
            }
            if ids.contains(x) {
                let i = choose|i: int| 0 <= i < ids.len() && ids[i] == x;
                assert(ids2[i] == x);
            }
            if x == id {
                assert(ids2[ids.len() as int] == x);
            }
        }
    }
}

/// What was added in two steps was added, each id once.
pub proof fn lemma_fresh_concat(
    before: Set<Seq<u8>>,
    a: Seq<Seq<u8>>,
    between: Set<Seq<u8>>,
    b: Seq<Seq<u8>>,
    after: Set<Seq<u8>>,
)
    requires
        fresh(before, a, between),
        fresh(between, b, after),
    ensures
        fresh(before, a + b, after),
    decreases b.len(),
{
    if b.len() == 0 {
        assert(a + b =~= a);
        assert(after =~= between);
    } else {
        let rest = b.drop_last();
        let last = b.last();
        let mid = between.union(rest.to_set());
        assert(fresh(between, rest, mid)) by {
            assert forall|i: int| 0 <= i < rest.len() implies !between.contains(
                #[trigger] rest[i],
            ) by {
                assert(rest[i] == b[i]);
            }
            assert forall|i: int, j: int|
                0 <= i < rest.len() && 0 <= j < rest.len() && i != j implies rest[i] != rest[j] by {
                assert(rest[i] == b[i] && rest[j] == b[j]);
            }
        }
        lemma_fresh_concat(before, a, between, rest, mid);
        assert(!mid.contains(last)) by {
            assert(b[b.len() - 1] == last);
            if rest.contains(last) {
                let i = choose|i: int| 0 <= i < rest.len() && rest[i] == last;
                assert(b[i] == last);
            }
        }
        lemma_fresh_push(before, a + rest, mid, last);
        assert((a + rest).push(last) =~= a + b);
        assert(mid.insert(last) =~= after) by {
            assert forall|x: Seq<u8>| b.to_set().contains(x) <==> (rest.to_set().contains(x) || x
                == last) by {
                if b.contains(x) {
                    let i = choose|i: int| 0 <= i < b.len() && b[i] == x;
                    if i < rest.len() {
                        assert(rest[i] == x);
                    }
                }
                if rest.contains(x) {
                    let i = choose|i: int| 0 <= i < rest.len() && rest[i] == x;
                    assert(b[i] == x);
                }
                if x == last {
                    assert(b[b.len() - 1] == x);
                }
            }
        }
    }
}

/// The ids of a list of counts that grew by one are the old ids and the new one.
proof fn lemma_ids_push(counts: Seq<Count>, count: Count)
    ensures
        ids_of(counts.push(count)) == ids_of(counts).push(count.id@),
{
    assert(ids_of(counts.push(count)) =~= ids_of(counts).push(count.id@));
}

/// Whether counting went on from the counts `out0` and the totals `stats0` to the
/// counts `out1`, the totals `stats1` and the seen ids `seen1` by gaining `gain`.
pub open spec fn gained(
    out0: Seq<Count>,
    stats0: Outcome,
    out1: Seq<Count>,
    stats1: Outcome,
    seen1: Set<Seq<u8>>,
    gain: Gain,
) -> bool {
    &&& seen1 == gain.seen
    &&& out1.len() == out0.len() + gain.added.len()
    &&& ids_of(out1) == ids_of(out0) + gain.added
    &&& stats1.input_objects == stats0.input_objects
    &&& stats1.expanded_objects + gain.roots == stats0.expanded_objects + gain.added.len()
}

/// Whether the counts `out` and the totals `outcome` are what `gain` says: the counts
/// name what it counted, in that order, and all of them but the starting ids were
/// tallied as expanded.
pub open spec fn gives(out: Seq<Count>, outcome: Outcome, gain: Gain) -> bool {
    &&& ids_of(out) == gain.added
    &&& outcome.expanded_objects + gain.roots == gain.added.len()
    &&& outcome.decoded_objects == gain.added.len()
}

/// Counting in two steps gains what the steps gain one after the other.
pub proof fn lemma_gained_then(
    out0: Seq<Count>,
    stats0: Outcome,
    out1: Seq<Count>,
    stats1: Outcome,
    seen1: Set<Seq<u8>>,
    first: Gain,
    out2: Seq<Count>,
    stats2: Outcome,
    seen2: Set<Seq<u8>>,
    second: Gain,
)
    requires
        gained(out0, stats0, out1, stats1, seen1, first),
        gained(out1, stats1, out2, stats2, seen2, second),
    ensures
        gained(out0, stats0, out2, stats2, seen2, then(first, second)),
{
    assert(ids_of(out0) + (first.added + second.added) =~= (ids_of(out0) + first.added)
        + second.added);
}

/// The ids of the counts that `queue` points at.
pub open spec fn queue_ids(out: Seq<Count>, queue: Seq<usize>) -> Seq<Seq<u8>> {
    queue.map_values(|at: usize| out[at as int].id@)
}

/// Counts one object unless it was counted before.
fn push_obj_count_unique(
    out: &mut Vec<Count>,
    all_seen: &mut SeenSet,
    id: &ObjectId,
    obj: &Object,
    statistics: &mut Outcome,
    count_expanded: bool,
    Ghost(before): Ghost<Set<Seq<u8>>>,
)
    requires
        counted(before, old(out)@, old(all_seen)@),
        tallied(old(out)@.len() as int, *old(statistics)),
        !count_expanded ==> old(out)@.len() < old(statistics).input_objects + old(
            statistics,
        ).expanded_objects,
    ensures
        counted(before, final(out)@, final(all_seen)@),
        tallied(final(out)@.len() as int, *final(statistics)),
        final(statistics).input_objects == old(statistics).input_objects,
        final(all_seen)@ == old(all_seen)@.insert(id@),
        old(all_seen)@.contains(id@) ==> final(out)@ == old(out)@ && *final(statistics) == *old(
            statistics,
        ),
        !old(all_seen)@.contains(id@) ==> final(out)@ == old(out)@.push(
            Count { id: *id, entry_pack_location: PackLocation::LookedUp(obj.pack_location) },
        ) && final(statistics).expanded_objects == old(statistics).expanded_objects + (
        if count_expanded {
            1int
        } else {
            0int
        }),
        gained(
            old(out)@,
            *old(statistics),
            final(out)@,
            *final(statistics),
            final(all_seen)@,
            count(old(all_seen)@, id@, !count_expanded),
        ),
        !old(all_seen)@.contains(id@) ==> final(out)@.len() == old(out)@.len() + 1
            && final(out)@.drop_last() == old(out)@
            && final(out)@.last().entry_pack_location is LookedUp,
{
    proof {
        assert(ids_of(out@) + Seq::<Seq<u8>>::empty() =~= ids_of(out@));
    }
    let inserted = all_seen.insert(id);
    if inserted {
        let count = Count::from_data(id, obj);
        proof {
            lemma_fresh_push(before, ids_of(out@), old(all_seen)@, id@);
            lemma_ids_push(out@, count);
        }
        out.push(count);
        statistics.decoded_objects = out.len();
        if count_expanded {
            statistics.expanded_objects += 1;
        }
        assert(ids_of(out@) =~= ids_of(old(out)@) + seq![id@]);
        assert(out@.drop_last() =~= old(out)@);
    } else {
        assert(old(all_seen)@.insert(id@) =~= old(all_seen)@);
    }
}

/// What is known of the place in a pack of the object `id` that was counted from a
/// listing: where lookups are allowed, the place that the database tells for it.
pub open spec fn listed_place<F: Find>(db: &F, id: Seq<u8>, allow_pack_lookups: bool) -> PackLocation {
    if allow_pack_lookups {
        PackLocation::LookedUp(db.place(id))
    } else {
        PackLocation::NotLookedUp
    }
}

/// Whether `count` tells of the place of its object what is to be told: an object that
/// was looked up itself has the place that the lookup gave, and one that was counted
/// from a listing has the place that the database tells where lookups are allowed, and
/// none else.
pub open spec fn well_placed<F: Find>(db: &F, count: Count, listed: bool, allow_pack_lookups: bool) -> bool {
    if listed {
        count.entry_pack_location == listed_place(db, count.id@, allow_pack_lookups)
    } else {
        count.entry_pack_location is LookedUp
    }
}

/// Whether counting went on from the counts `out0` to the counts `out1` with new counts
/// that are placed as `listed` says, one after the other, and left the counts before
/// them as they were.
pub open spec fn placed<F: Find>(
    db: &F,
    out0: Seq<Count>,
    out1: Seq<Count>,
    listed: Seq<bool>,
    allow_pack_lookups: bool,
) -> bool {
    &&& out1.len() == out0.len() + listed.len()
    &&& out1.take(out0.len() as int) == out0
    &&& forall|i: int|
        0 <= i < listed.len() ==> well_placed(
            db,
            #[trigger] out1[out0.len() + i],
            listed[i],
            allow_pack_lookups,
        )
}

/// Counts that are placed in two steps are placed as the steps say, one after the other.
pub proof fn lemma_placed_then<F: Find>(
    db: &F,
    out0: Seq<Count>,
    out1: Seq<Count>,
    first: Seq<bool>,
    out2: Seq<Count>,
    second: Seq<bool>,
    allow_pack_lookups: bool,
)
    requires
        placed(db, out0, out1, first, allow_pack_lookups),
        placed(db, out1, out2, second, allow_pack_lookups),
    ensures
        placed(db, out0, out2, first + second, allow_pack_lookups),
{
    assert(out2.take(out0.len() as int) =~= out0) by {
        assert forall|i: int| 0 <= i < out0.len() implies out2[i] == out0[i] by {
            assert(out2.take(out1.len() as int)[i] == out2[i]);
            assert(out1.take(out0.len() as int)[i] == out1[i]);
        }
    }
    assert forall|i: int| 0 <= i < (first + second).len() implies well_placed(
        db,
        #[trigger] out2[out0.len() + i],
        (first + second)[i],
        allow_pack_lookups,
    ) by {
        if i < first.len() {
            assert(out2.take(out1.len() as int)[out0.len() + i] == out2[out0.len() + i]);
            assert(well_placed(db, out1[out0.len() + i], first[i], allow_pack_lookups));
        } else {
            assert(well_placed(
                db,
                out2[out1.len() + (i - first.len())],
                second[i - first.len()],
                allow_pack_lookups,
            ));
        }
    }
}

/// An object that was looked up and counted unless it was seen is well placed.
pub proof fn lemma_placed_found<F: Find>(
    db: &F,
    out0: Seq<Count>,
    out1: Seq<Count>,
    seen: Set<Seq<u8>>,
    id: Seq<u8>,
    root: bool,
    allow_pack_lookups: bool,
)
    requires
        seen.contains(id) ==> out1 == out0,
        !seen.contains(id) ==> out1.len() == out0.len() + 1 && out1.drop_last() == out0
            && out1.last().entry_pack_location is LookedUp,
    ensures
        placed(db, out0, out1, count(seen, id, root).listed, allow_pack_lookups),
{
    assert(out1.take(out0.len() as int) =~= out0);
}

/// Counts that are well placed stay so behind other counts.
pub proof fn lemma_placed_behind<F: Find>(
    db: &F,
    earlier: Seq<Count>,
    out: Seq<Count>,
    listed: Seq<bool>,
    allow_pack_lookups: bool,
)
    requires
        placed(db, Seq::empty(), out, listed, allow_pack_lookups),
    ensures
        placed(db, earlier, earlier + out, listed, allow_pack_lookups),
{
    assert((earlier + out).take(earlier.len() as int) =~= earlier);
    assert forall|i: int| 0 <= i < listed.len() implies well_placed(
        db,
        #[trigger] (earlier + out)[earlier.len() + i],
        listed[i],
        allow_pack_lookups,
    ) by {
        assert(well_placed(db, out[0 + i], listed[i], allow_pack_lookups));
    }
}

/// Where nothing is counted, all is placed.
pub proof fn lemma_placed_nothing<F: Find>(db: &F, out: Seq<Count>, allow_pack_lookups: bool)
    ensures
        placed(db, out, out, Seq::<bool>::empty(), allow_pack_lookups),
{
    assert(out.take(out.len() as int) =~= out);
}

/// The count of an object that a tree led to, with its place in a pack where lookups
/// are allowed.
fn id_to_count<F: Find>(db: &F, buf: &mut Vec<u8>, id: &ObjectId, allow_pack_lookups: bool) -> (count:
    Count)
    ensures
        count.id == *id,
        count.entry_pack_location == listed_place(db, id@, allow_pack_lookups),
{
    Count {
        id: *id,
        entry_pack_location: if allow_pack_lookups {
            PackLocation::LookedUp(db.location_by_oid(id, buf))
        } else {
            PackLocation::NotLookedUp
        },
    }
}

/// The hashes of the objects that `entries` name and that are counted: all but the
/// commits of submodules.
pub open spec fn countable(entries: Seq<(u16, Seq<u8>)>) -> Seq<Seq<u8>>
    decreases entries.len(),
{
    if entries.len() == 0 {
        Seq::empty()
    } else if entries.last().0 == MODE_COMMIT {
        countable(entries.drop_last())
    } else {
        countable(entries.drop_last()).push(entries.last().1)
    }
}

/// Whether the counts from `from` on are placed as a listing places them: the place of
/// a tree that is still to be read is left open, that of any other object is what the
/// database tells where lookups are allowed.
pub open spec fn listing_placed<F: Find>(
    db: &F,
    out: Seq<Count>,
    from: int,
    listed: Seq<bool>,
    allow_pack_lookups: bool,
) -> bool {
    forall|i: int|
        0 <= i < listed.len() ==> (#[trigger] out[from + i]).entry_pack_location == (if listed[i] {
            listed_place(db, out[from + i].id@, allow_pack_lookups)
        } else {
            PackLocation::NotLookedUp
        })
}

/// Whether each of the counts from `from` on that is not marked in `listed` is one that
/// `queue` points at from `queued` on.
pub open spec fn unread_queued(from: int, listed: Seq<bool>, queue: Seq<usize>, queued: int) -> bool {
    forall|i: int|
        0 <= i < listed.len() && !#[trigger] listed[i] ==> exists|j: int|
            queued <= j < queue.len() && #[trigger] queue[j] == from + i
}

/// Whether `queue` points from `queued` on at counts from `from` on that are not marked
/// in `listed`.
pub open spec fn queue_unread(from: int, listed: Seq<bool>, queue: Seq<usize>, queued: int) -> bool {
    forall|j: int|
        queued <= j < queue.len() ==> from <= (#[trigger] queue[j]) < from + listed.len()
            && !listed[queue[j] - from]
}

/// Whether the counts from `from` on are placed as a walk places them that has read the
/// first `head` trees of `queue`: a tree that was read has the place that the lookup
/// gave, one that is still to be read has none yet, and any other object has the place
/// of a listed object.
pub open spec fn walk_placed<F: Find>(
    db: &F,
    out: Seq<Count>,
    from: int,
    listed: Seq<bool>,
    queue: Seq<usize>,
    head: int,
    allow_pack_lookups: bool,
) -> bool {
    forall|i: int|
        0 <= i < listed.len() ==> if listed[i] {
            (#[trigger] out[from + i]).entry_pack_location == listed_place(
                db,
                out[from + i].id@,
                allow_pack_lookups,
            )
        } else {
            out[from + i].entry_pack_location is LookedUp || (out[from + i].entry_pack_location
                == PackLocation::NotLookedUp && exists|j: int|
                head <= j < queue.len() && #[trigger] queue[j] == from + i)
        }
}

/// Counts what one tree lists, given the entries that were read from it: each object
/// that was not counted before, at its first occurrence, but no submodule commit. The
/// new counts are added after those in `out`, and the places in `out` of the new trees
/// are added to `queue`, as their contents are still to be read. The place in a pack of
/// a tree is left open, that of any other object is looked up where lookups are allowed.
pub fn count_entries<F: Find>(
    db: &F,
    entries: &Vec<TreeEntry>,
    all_seen: &mut SeenSet,
    out: &mut Vec<Count>,
    statistics: &mut Outcome,
    queue: &mut Vec<usize>,
    buf: &mut Vec<u8>,
    allow_pack_lookups: bool,
)
    requires
        old(statistics).expanded_objects <= old(out)@.len(),
    ensures
        final(out)@.len() >= old(out)@.len(),
        final(out)@.take(old(out)@.len() as int) == old(out)@,
        ids_of(final(out)@.skip(old(out)@.len() as int)) == first_unseen(
            old(all_seen)@,
            countable(entries_model(entries@)),
        ),
        final(all_seen)@ == old(all_seen)@.union(countable(entries_model(entries@)).to_set()),
        final(statistics).input_objects == old(statistics).input_objects,
        final(statistics).decoded_objects == final(out)@.len(),
        final(statistics).expanded_objects == old(statistics).expanded_objects + (final(out)@.len()
            - old(out)@.len()),
        final(queue)@.len() >= old(queue)@.len(),
        final(queue)@.take(old(queue)@.len() as int) == old(queue)@,
        forall|k: int|
            old(queue)@.len() <= k < final(queue)@.len() ==> old(out)@.len() <= (
            #[trigger] final(queue)@[k]) < final(out)@.len(),
        !allow_pack_lookups ==> forall|k: int|
            old(out)@.len() <= k < final(out)@.len() ==> (#[trigger] final(out)@[k]).entry_pack_location
                == PackLocation::NotLookedUp,
        after_entries(
            Walk { gain: nothing(old(all_seen)@), queue: Seq::empty() },
            entries_model(entries@),
        ).gain.listed.len() == final(out)@.len() - old(out)@.len(),
        listing_placed(
            db,
            final(out)@,
            old(out)@.len() as int,
            after_entries(
                Walk { gain: nothing(old(all_seen)@), queue: Seq::empty() },
                entries_model(entries@),
            ).gain.listed,
            allow_pack_lookups,
        ),
        unread_queued(
            old(out)@.len() as int,
            after_entries(
                Walk { gain: nothing(old(all_seen)@), queue: Seq::empty() },
                entries_model(entries@),
            ).gain.listed,
            final(queue)@,
            old(queue)@.len() as int,
        ),
        queue_unread(
            old(out)@.len() as int,
            after_entries(
                Walk { gain: nothing(old(all_seen)@), queue: Seq::empty() },
                entries_model(entries@),
            ).gain.listed,
            final(queue)@,
            old(queue)@.len() as int,
        ),
        gained(
            old(out)@,
            *old(statistics),
            final(out)@,
            *final(statistics),
            final(all_seen)@,
            after_entries(
                Walk { gain: nothing(old(all_seen)@), queue: Seq::empty() },
                entries_model(entries@),
            ).gain,
        ),
        queue_ids(final(out)@, final(queue)@.skip(old(queue)@.len() as int)) == after_entries(
            Walk { gain: nothing(old(all_seen)@), queue: Seq::empty() },
            entries_model(entries@),
        ).queue,
{
    let ghost seen0 = all_seen@;
    let ghost models = entries_model(entries@);
    let ghost fresh_walk = Walk { gain: nothing(seen0), queue: Seq::empty() };
    let start = out.len();
    let queue_start = queue.len();
    proof {
        assert(ids_of(out@) + Seq::<Seq<u8>>::empty() =~= ids_of(out@));
        assert(queue_ids(out@, queue@.skip(queue_start as int)) =~= Seq::<Seq<u8>>::empty());
    }
    let mut i: usize = 0;
    proof {
        assert(after_entries(fresh_walk, models.take(0)).gain.listed =~= Seq::<bool>::empty());
        assert(models.take(0) =~= Seq::<(u16, Seq<u8>)>::empty());
        assert(ids_of(out@.skip(start as int)) =~= Seq::<Seq<u8>>::empty());
        assert(seen0.union(countable(models.take(0)).to_set()) =~= seen0);
        assert(out@.take(start as int) =~= old(out)@);
        assert(queue@.take(old(queue)@.len() as int) =~= old(queue)@);
    }
    while i < entries.len()
        invariant
            i <= entries@.len(),
            start == old(out)@.len(),
            seen0 == old(all_seen)@,
            models == entries_model(entries@),
            out@.len() >= start,
            out@.take(start as int) == old(out)@,
            ids_of(out@.skip(start as int)) == first_unseen(seen0, countable(models.take(i as int))),
            all_seen@ == seen0.union(countable(models.take(i as int)).to_set()),
            statistics.input_objects == old(statistics).input_objects,
            statistics.expanded_objects == old(statistics).expanded_objects + (out@.len() - start),
            old(statistics).expanded_objects <= start,
            queue@.len() >= old(queue)@.len(),
            queue@.take(old(queue)@.len() as int) == old(queue)@,
            forall|k: int|
                old(queue)@.len() <= k < queue@.len() ==> start <= (#[trigger] queue@[k]) < out@.len(),
            !allow_pack_lookups ==> forall|k: int|
                start <= k < out@.len() ==> (#[trigger] out@[k]).entry_pack_location
                    == PackLocation::NotLookedUp,
            fresh_walk == (Walk { gain: nothing(seen0), queue: Seq::empty() }),
            queue_start == old(queue)@.len(),
            after_entries(fresh_walk, models.take(i as int)).gain.listed.len() == out@.len() - start,
            listing_placed(
                db,
                out@,
                start as int,
                after_entries(fresh_walk, models.take(i as int)).gain.listed,
                allow_pack_lookups,
            ),
            unread_queued(
                start as int,
                after_entries(fresh_walk, models.take(i as int)).gain.listed,
                queue@,
                queue_start as int,
            ),
            queue_unread(
                start as int,
                after_entries(fresh_walk, models.take(i as int)).gain.listed,
                queue@,
                queue_start as int,
            ),
            gained(
                old(out)@,
                *old(statistics),
                out@,
                *statistics,
                all_seen@,
                after_entries(fresh_walk, models.take(i as int)).gain,
            ),
            queue_ids(out@, queue@.skip(queue_start as int)) == after_entries(
                fresh_walk,
                models.take(i as int),
            ).queue,
        decreases entries@.len() - i,
    {
        let entry = entries[i];
        let ghost walk_then = after_entries(fresh_walk, models.take(i as int));
        let ghost queue_then = queue@;
        let ghost stats_then = *statistics;
        let ghost prefix = countable(models.take(i as int));
        let ghost seen_then = all_seen@;
        let ghost out_then = out@;
        proof {
            assert(models.take(i as int + 1).drop_last() =~= models.take(i as int));
            assert(models.take(i as int + 1).last() == (entry.mode, entry.id@));
        }
        if entry.mode != MODE_COMMIT {
            let is_tree = entry.mode == MODE_TREE;
            let inserted = all_seen.insert(&entry.id);
            proof {
                let longer = prefix.push(entry.id@);
                assert(countable(models.take(i as int + 1)) == longer);
                assert(seen_then.contains(entry.id@) <==> (seen0.contains(entry.id@)
                    || prefix.contains(entry.id@)));
                assert(all_seen@ =~= seen0.union(longer.to_set())) by {
                    assert forall|x: Seq<u8>| longer.to_set().contains(x) <==> (
                    prefix.to_set().contains(x) || x == entry.id@) by {
                        if longer.contains(x) {
                            let j = choose|j: int| 0 <= j < longer.len() && longer[j] == x;
                            if j < prefix.len() {
                                assert(prefix[j] == x);
                            }
                        }
                        if prefix.contains(x) {
                            let j = choose|j: int| 0 <= j < prefix.len() && prefix[j] == x;
                            assert(longer[j] == x);
                        }
                        if x == entry.id@ {
                            assert(longer[prefix.len() as int] == x);
                        }
                    }
                }
                assert(longer.drop_last() =~= prefix);
            }
            if inserted {
                let count = if is_tree {
                    Count { id: entry.id, entry_pack_location: PackLocation::NotLookedUp }
                } else {
                    id_to_count(db, buf, &entry.id, allow_pack_lookups)
                };
                out.push(count);
                statistics.decoded_objects = out.len();
                statistics.expanded_objects += 1;
                if is_tree {
                    queue.push(out.len() - 1);
                    assert(queue@.take(old(queue)@.len() as int) =~= old(queue)@);
                }
                proof {
                    assert(out@.take(start as int) =~= old(out)@);
                    assert(ids_of(out@.skip(start as int)) =~= ids_of(
                        out_then.skip(start as int),
                    ).push(entry.id@));
                    assert(ids_of(out@) =~= ids_of(out_then).push(entry.id@));
                    assert(ids_of(old(out)@) + (walk_then.gain.added + seq![entry.id@]) =~= (
                    ids_of(old(out)@) + walk_then.gain.added).push(entry.id@));
                }
            }
            proof {
                // The ids that the queue points at are those that were queued.
                assert(queue_ids(out@, queue@.skip(queue_start as int)) =~= (if inserted
                    && is_tree {
                    walk_then.queue.push(entry.id@)
                } else {
                    walk_then.queue
                })) by {
                    let now = queue_ids(out@, queue@.skip(queue_start as int));
                    let then_ids = queue_ids(out_then, queue_then.skip(queue_start as int));
                    assert forall|k: int| 0 <= k < then_ids.len() implies now[k] == then_ids[k] by {
                        let at = queue_then[queue_start + k];
                        assert(queue_then.skip(queue_start as int)[k] == at);
                        assert(queue@.skip(queue_start as int)[k] == at);
                        assert(start <= at < out_then.len());
                        assert(out@[at as int] == out_then[at as int]);
                    }
                }
            }
        } else {
            proof {
                assert(after_entries(fresh_walk, models.take(i as int + 1)) == walk_then);
            }
        }
        proof {
            let walk_now = after_entries(fresh_walk, models.take(i as int + 1));
            let marks_then = walk_then.gain.listed;
            let marks = walk_now.gain.listed;
            if entry.mode != MODE_COMMIT && !seen_then.contains(entry.id@) {
                assert(marks =~= marks_then.push(entry.mode != MODE_TREE));
            } else {
                assert(marks =~= marks_then);
            }
            assert forall|k: int| 0 <= k < marks.len() implies (#[trigger] out@[start + k]).entry_pack_location
                == (if marks[k] {
                listed_place(db, out@[start + k].id@, allow_pack_lookups)
            } else {
                PackLocation::NotLookedUp
            }) by {
                if k < marks_then.len() {
                    assert(out@[start + k] == out_then[start + k]);
                }
            }
            assert forall|k: int| 0 <= k < marks.len() && !#[trigger] marks[k] implies exists|j: int|
                queue_start <= j < queue@.len() && #[trigger] queue@[j] == start + k by {
                if k < marks_then.len() {
                    let j = choose|j: int|
                        queue_start <= j < queue_then.len() && #[trigger] queue_then[j] == start + k;
                    assert(queue@[j] == start + k);
                } else {
                    assert(queue@[queue@.len() - 1] == start + k);
                }
            }
            assert forall|j: int| queue_start <= j < queue@.len() implies start <= (
            #[trigger] queue@[j]) < start + marks.len() && !marks[queue@[j] - start] by {
                if j < queue_then.len() {
                    assert(queue@[j] == queue_then[j]);
                }
            }
            assert(all_seen@ == walk_now.gain.seen);
            assert(out@.len() == old(out)@.len() + walk_now.gain.added.len());
            assert(ids_of(out@) == ids_of(old(out)@) + walk_now.gain.added);
            assert(statistics.expanded_objects + walk_now.gain.roots == old(
                statistics,
            ).expanded_objects + walk_now.gain.added.len());
        }
        i += 1;
    }
    proof {
        assert(models.take(entries@.len() as int) =~= models);
    }
    statistics.decoded_objects = out.len();
}

/// Replacing a count by another of the same object leaves the counted objects as they are.
proof fn lemma_ids_update(counts: Seq<Count>, at: int, count: Count)
    requires
        0 <= at < counts.len(),
        counts[at].id == count.id,
    ensures
        ids_of(counts.update(at, count)) == ids_of(counts),
{
    assert(ids_of(counts.update(at, count)) =~= ids_of(counts));
}

/// The ids that the queue points at, before and after a position.
proof fn lemma_queue_ids_split(out: Seq<Count>, queue: Seq<usize>, at: int)
    requires
        0 <= at <= queue.len(),
    ensures
        queue_ids(out, queue) == queue_ids(out, queue.take(at)) + queue_ids(out, queue.skip(at)),
{
    assert(queue_ids(out, queue) =~= queue_ids(out, queue.take(at)) + queue_ids(
        out,
        queue.skip(at),
    ));
}

/// The ids that the queue points at stay where the counts it points at keep their ids.
proof fn lemma_queue_ids_kept(a: Seq<Count>, b: Seq<Count>, queue: Seq<usize>)
    requires
        a.len() <= b.len(),
        forall|k: int| 0 <= k < queue.len() ==> (#[trigger] queue[k]) < a.len(),
        forall|i: int| 0 <= i < a.len() ==> (#[trigger] b[i]).id == a[i].id,
    ensures
        queue_ids(b, queue) == queue_ids(a, queue),
{
    assert(queue_ids(b, queue) =~= queue_ids(a, queue));
}

/// Counts all that the tree `root`, whose data `data` holds, leads to and that was not
/// counted before: breadth first, each tree read once, trees that were counted before
/// not entered.
fn walk_tree<F: Find>(
    db: &F,
    root: &ObjectId,
    data: &mut Vec<u8>,
    scratch: &mut Vec<u8>,
    cache: &mut F::Cache,
    all_seen: &mut SeenSet,
    out: &mut Vec<Count>,
    statistics: &mut Outcome,
    allow_pack_lookups: bool,
    Ghost(before): Ghost<Set<Seq<u8>>>,
) -> (walked_all: Result<(), TreeTraverseError>)
    requires
        counted(before, old(out)@, old(all_seen)@),
        tallied(old(out)@.len() as int, *old(statistics)),
    ensures
        old(all_seen)@.subset_of(final(all_seen)@),
        final(statistics).input_objects == old(statistics).input_objects,
        walked_all is Ok ==> counted(before, final(out)@, final(all_seen)@) && tallied(
            final(out)@.len() as int,
            *final(statistics),
        ) && gained(
            old(out)@,
            *old(statistics),
            final(out)@,
            *final(statistics),
            final(all_seen)@,
            after_walk(db, old(all_seen)@, old(data)@),
        ),
        walked_all is Ok ==> placed(
            db,
            old(out)@,
            final(out)@,
            after_walk(db, old(all_seen)@, old(data)@).listed,
            allow_pack_lookups,
        ),
        !decodes(old(data)@) ==> (walked_all matches Err(TreeTraverseError::ObjectDecode { id })
            && id == *root),
        decodes(old(data)@) && walk_start(old(all_seen)@, old(data)@).queue.len() == 0
            ==> walked_all is Ok,
        walked_all matches Err(TreeTraverseError::ObjectDecode { id }) ==> (id == *root && !decodes(
            old(data)@,
        )) || (walk_reads(db, walk_start(old(all_seen)@, old(data)@), id@) && db.content(id@).0
            == Kind::Tree && !decodes(db.content(id@).1)),
        walked_all matches Err(TreeTraverseError::NotFound { id }) ==> decodes(old(data)@)
            && walk_reads(db, walk_start(old(all_seen)@, old(data)@), id@),
{
    let ghost seen0 = all_seen@;
    let ghost out0 = out@;
    let ghost stats0 = *statistics;
    if !is_well_framed(data.as_slice()) {
        return Err(TreeTraverseError::ObjectDecode { id: *root });
    }
    let entries = match read_tree_entries(data.as_slice()) {
        Some(entries) => entries,
        None => {
            return Err(TreeTraverseError::ObjectDecode { id: *root });
        },
    };
    let ghost start = after_entries(
        Walk { gain: nothing(seen0), queue: Seq::empty() },
        entries_model(entries@),
    );
    let mut queue: Vec<usize> = Vec::new();
    count_entries(db, &entries, all_seen, out, statistics, &mut queue, scratch, allow_pack_lookups);
    proof {
        lemma_counted_grown(
            before,
            out0,
            seen0,
            out@,
            all_seen@,
            countable(entries_model(entries@)),
        );
        assert(queue@.skip(0) =~= queue@);
        assert(walked(db, start, 0) == start);
    }
    let mut head: usize = 0;
    while head < queue.len()
        invariant
            counted(before, out@, all_seen@),
            tallied(out@.len() as int, *statistics),
            statistics.input_objects == old(statistics).input_objects,
            old(all_seen)@.subset_of(all_seen@),
            seen0 == old(all_seen)@,
            out0 == old(out)@,
            stats0 == *old(statistics),
            decodes(old(data)@),
            tree_entries(old(data)@) is Some,
            start == walk_start(seen0, old(data)@),
            start == after_entries(
                Walk { gain: nothing(seen0), queue: Seq::empty() },
                tree_entries(old(data)@)->Some_0,
            ),
            head <= queue@.len(),
            forall|k: int| 0 <= k < queue@.len() ==> (#[trigger] queue@[k]) < out@.len(),
            out@.len() >= out0.len(),
            out@.take(out0.len() as int) == out0,
            walked(db, start, head as nat).gain.listed.len() == out@.len() - out0.len(),
            queue_unread(out0.len() as int, walked(db, start, head as nat).gain.listed, queue@, 0),
            walk_placed(
                db,
                out@,
                out0.len() as int,
                walked(db, start, head as nat).gain.listed,
                queue@,
                head as int,
                allow_pack_lookups,
            ),
            gained(out0, stats0, out@, *statistics, all_seen@, walked(db, start, head as nat).gain),
            queue_ids(out@, queue@) == walked(db, start, head as nat).queue,
        decreases usize::MAX - head,
    {
        let at = queue[head];
        let id = out[at].id;
        let ghost walk_then = walked(db, start, head as nat);
        proof {
            assert(queue_ids(out@, queue@)[head as int] == id@);
            assert(reads_at(db, start, head as nat, id@));
            if start.queue.len() == 0 {
                assert(walked(db, start, 0) == start);
                lemma_walk_stays(db, start, 0, head as nat);
            }
        }
        match db.try_find(&id, data, cache) {
            Ok(Some(obj)) => {
                if obj.kind != Kind::Tree {
                    return Err(TreeTraverseError::NotFound { id });
                }
                let count = Count::from_data(&id, &obj);
                let ghost out_before = out@;
                proof {
                    lemma_ids_update(out@, at as int, count);
                    lemma_queue_ids_kept(out@, out@.update(at as int, count), queue@);
                }
                out.set(at, count);
                proof {
                    let marks = walk_then.gain.listed;
                    assert(out@.take(out0.len() as int) =~= out0) by {
                        assert forall|k: int| 0 <= k < out0.len() implies out@[k] == out0[k] by {
                            assert(out_before.take(out0.len() as int)[k] == out_before[k]);
                        }
                    }
                    assert forall|i: int| 0 <= i < marks.len() implies if marks[i] {
                        (#[trigger] out@[out0.len() + i]).entry_pack_location == listed_place(
                            db,
                            out@[out0.len() + i].id@,
                            allow_pack_lookups,
                        )
                    } else {
                        out@[out0.len() + i].entry_pack_location is LookedUp || (out@[out0.len()
                            + i].entry_pack_location == PackLocation::NotLookedUp && exists|j: int|
                            head + 1 <= j < queue@.len() && #[trigger] queue@[j] == out0.len() + i)
                    } by {
                        let c = out_before[out0.len() + i];
                        if out0.len() + i != at {
                            assert(out@[out0.len() + i] == c);
                            if !marks[i] && !(c.entry_pack_location is LookedUp) {
                                let j = choose|j: int|
                                    head <= j < queue@.len() && #[trigger] queue@[j] == out0.len() + i;
                                assert(j != head);
                            }
                        }
                    }
                }
            },
            _ => {
                return Err(TreeTraverseError::NotFound { id });
            },
        }
        if !is_well_framed(data.as_slice()) {
            return Err(TreeTraverseError::ObjectDecode { id });
        }
        let entries = match read_tree_entries(data.as_slice()) {
            Some(entries) => entries,
            None => {
                return Err(TreeTraverseError::ObjectDecode { id });
            },
        };
        let ghost out_then = out@;
        let ghost seen_then = all_seen@;
        let ghost stats_then = *statistics;
        let ghost queue_then = queue@;
        count_entries(db, &entries, all_seen, out, statistics, &mut queue, scratch, allow_pack_lookups);
        proof {
            let listed = entries_model(entries@);
            assert(listing(db, id@) == listed);
            lemma_counted_grown(before, out_then, seen_then, out@, all_seen@, countable(listed));
            assert forall|k: int| 0 <= k < queue@.len() implies (#[trigger] queue@[k]) < out@.len() by {
                if k < queue_then.len() {
                    assert(queue@.take(queue_then.len() as int)[k] == queue@[k]);
                }
            }
            // One more tree was read.
            let fresh_walk = Walk { gain: nothing(seen_then), queue: Seq::empty() };
            let delta = after_entries(fresh_walk, listed);
            lemma_after_entries_goes_on(walk_then, listed);
            assert(walked(db, start, (head + 1) as nat) == after_entries(walk_then, listed));
            let marks_then = walk_then.gain.listed;
            let marks = walked(db, start, (head + 1) as nat).gain.listed;
            assert(marks == marks_then + delta.gain.listed);
            assert(out@.take(out0.len() as int) =~= out0) by {
                assert forall|k: int| 0 <= k < out0.len() implies out@[k] == out0[k] by {
                    assert(out@.take(out_then.len() as int)[k] == out@[k]);
                    assert(out_then.take(out0.len() as int)[k] == out_then[k]);
                }
            }
            assert forall|j: int| 0 <= j < queue@.len() implies out0.len() <= (
            #[trigger] queue@[j]) < out0.len() + marks.len() && !marks[queue@[j] - out0.len()] by {
                if j < queue_then.len() {
                    assert(queue@.take(queue_then.len() as int)[j] == queue@[j]);
                    assert(!marks_then[queue_then[j] - out0.len()]);
                } else {
                    assert(!delta.gain.listed[queue@[j] - out_then.len()]);
                }
            }
            assert forall|i: int| 0 <= i < marks.len() implies if marks[i] {
                (#[trigger] out@[out0.len() + i]).entry_pack_location == listed_place(
                    db,
                    out@[out0.len() + i].id@,
                    allow_pack_lookups,
                )
            } else {
                out@[out0.len() + i].entry_pack_location is LookedUp || (out@[out0.len()
                    + i].entry_pack_location == PackLocation::NotLookedUp && exists|j: int|
                    head + 1 <= j < queue@.len() && #[trigger] queue@[j] == out0.len() + i)
            } by {
                if i < marks_then.len() {
                    assert(out@.take(out_then.len() as int)[out0.len() + i] == out@[out0.len() + i]);
                    let c = out_then[out0.len() + i];
                    if !marks_then[i] && !(c.entry_pack_location is LookedUp) {
                        let j = choose|j: int|
                            head + 1 <= j < queue_then.len() && #[trigger] queue_then[j]
                                == out0.len() + i;
                        assert(queue@.take(queue_then.len() as int)[j] == queue@[j]);
                    }
                } else {
                    let d = i - marks_then.len();
                    assert(out_then.len() + d == out0.len() + i);
                    if !delta.gain.listed[d] {
                        let j = choose|j: int|
                            queue_then.len() <= j < queue@.len() && #[trigger] queue@[j]
                                == out_then.len() + d;
                        assert(queue@[j] == out0.len() + i);
                    }
                }
            }
            lemma_gained_then(
                out0,
                stats0,
                out_then,
                stats_then,
                seen_then,
                walk_then.gain,
                out@,
                *statistics,
                all_seen@,
                delta.gain,
            );
            lemma_queue_ids_split(out@, queue@, queue_then.len() as int);
            assert(queue@.take(queue_then.len() as int) == queue_then);
            assert forall|i: int| 0 <= i < out_then.len() implies (#[trigger] out@[i]).id
                == out_then[i].id by {
                assert(out@.take(out_then.len() as int)[i] == out@[i]);
            }
            lemma_queue_ids_kept(out_then, out@, queue_then);
        }
        head += 1;
    }
    proof {
        assert(walk_done(db, start, head as nat));
        lemma_walk_ends(db, start, head as nat);
        let marks = walked(db, start, head as nat).gain.listed;
        assert forall|i: int| 0 <= i < marks.len() implies well_placed(
            db,
            #[trigger] out@[out0.len() + i],
            marks[i],
            allow_pack_lookups,
        ) by {
            if !marks[i] && !(out@[out0.len() + i].entry_pack_location is LookedUp) {
                let j = choose|j: int|
                    head <= j < queue@.len() && #[trigger] queue@[j] == out0.len() + i;
            }
        }
    }
    Ok(())
}

/// One difference between two trees: the entry's mode bits and object where it was
/// added or modified, and those it had where it was deleted.
#[derive(Clone, Copy, Debug)]
pub struct TreeChange {
    pub kind: ChangeKind,
    pub mode: u16,
    pub id: ObjectId,
}

/// Whether the answer of a lookup is a tree whose data, which `data` holds, is framed as
/// one.
pub fn is_tree_answer<E>(answer: &Result<Option<Object>, E>, data: &[u8]) -> (yes: bool)
    ensures
        yes == (answer matches Ok(Some(obj)) && obj.kind == Kind::Tree && well_framed(data@)),
{
    match answer {
        Ok(Some(obj)) => obj.kind == Kind::Tree && is_well_framed(data),
        _ => false,
    }
}

/// Looks up the tree named by the hash `id` for a comparison of trees, and places its
/// data into `buffer`. Tells whether the tree was found; if so, its data is framed as a
/// tree. A hash that is not twenty bytes long names no tree, and the database is not
/// asked for it. Whether a tree of twenty bytes is found is for the database to say:
/// [`is_tree_answer`] tells what follows from each of its answers.
pub fn find_tree<F: Find>(db: &F, id: &[u8], buffer: &mut Vec<u8>, cache: &mut F::Cache) -> (found:
    bool)
    ensures
        found ==> id@.len() == 20 && well_framed(final(buffer)@) && db.content(id@) == (
            Kind::Tree,
            final(buffer)@,
        ),
        id@.len() != 20 ==> !found && final(buffer)@ == old(buffer)@,
{
    let id = match ObjectId::try_from_slice(id) {
        Some(id) => id,
        None => {
            return false;
        },
    };
    let answer = db.try_find(&id, buffer, cache);
    is_tree_answer(&answer, buffer.as_slice())
}

#[verifier::external_type_specification]
#[verifier::external_body]
pub struct ExRecorder(Recorder);

/// The changes that a recorder holds, in the order in which they were reported: for
/// each its kind, the mode bits and the hash of the entry.
pub uninterp spec fn recorded(recorder: Recorder) -> Seq<(ChangeKind, u16, Seq<u8>)>;

/// `git_diff::tree::Changes::needed_to_obtain` with a `git_diff::tree::Recorder` as its
/// delegate: the recorder that took the changes that turn the tree in `from` into the
/// tree in `to`, or why the comparison failed. The trees below the two are looked up in
/// `db`, which may fail at any time; a comparison that succeeds has seen of every tree
/// the content that its id names, and so recorded the changes that these contents give.
/// The comparison reads every tree that it finds added and looks out for no tree that
/// holds itself, so that it ends only where the trees of the database nest to a bounded
/// depth: a database in which they do not is left out.
#[verifier::external_body]
fn compare_trees<F: Find>(db: &F, cache: &mut F::Cache, from: &[u8], to: &[u8]) -> (changes:
    Result<Recorder, TreeChangesError>)
    requires
        well_framed(from@),
        well_framed(to@),
        trees_nest(db),
    ensures
        changes matches Ok(recorder) ==> recorded(recorder) == tree_changes(
            contents(db),
            from@,
            to@,
        ),
{
    let mut recorder = Recorder::default();
    let done = Changes::from(Some(TreeRefIter::from_bytes(from))).needed_to_obtain(
        TreeRefIter::from_bytes(to),
        State::default(),
        |oid, buf| if find_tree(db, oid.as_bytes(), buf, cache) { Ok(TreeRefIter::from_bytes(buf)) } else { Err(std::fmt::Error) },
        &mut recorder,
    );
    match done {
        Ok(()) => Ok(recorder),
        Err(changes::Error::FindExisting { oid, .. }) => Err(TreeChangesError::FindExisting { id: ObjectId { bytes: oid.as_slice().try_into().unwrap_or_default() } }),
        Err(changes::Error::Cancelled) => Err(TreeChangesError::Cancelled),
        Err(changes::Error::EntriesDecode(_)) => Err(TreeChangesError::EntriesDecode),
    }
}

/// The field `records` of `git_diff::tree::Recorder`: how many changes it holds.
#[verifier::external_body]
fn recorded_len(recorder: &Recorder) -> (len: usize)
    ensures
        len == recorded(*recorder).len(),
{
    recorder.records.len()
}

/// The field `records` of `git_diff::tree::Recorder`: the change at `at`, with the mode
/// bits and object of the entry as the second tree has it, or as the first had it where
/// the entry was deleted.
#[verifier::external_body]
fn recorded_at(recorder: &Recorder, at: usize) -> (change: TreeChange)
    requires
        at < recorded(*recorder).len(),
    ensures
        (change.kind, change.mode, change.id@) == recorded(*recorder)[at as int],
{
    let (kind, mode, oid) = match &recorder.records[at] {
        Change::Addition { entry_mode, oid, .. } => (ChangeKind::Addition, entry_mode, oid),
        Change::Deletion { entry_mode, oid, .. } => (ChangeKind::Deletion, entry_mode, oid),
        Change::Modification { entry_mode, oid, .. } => (ChangeKind::Modification, entry_mode, oid),
    };
    TreeChange { kind, mode: *mode as u16, id: ObjectId { bytes: oid.as_slice().try_into().unwrap_or_default() } }
}

/// The hashes of the objects that `changes` add: those of additions and modifications,
/// but no submodule commits.
pub open spec fn added_by(changes: Seq<(ChangeKind, u16, Seq<u8>)>) -> Seq<Seq<u8>>
    decreases changes.len(),
{
    if changes.len() == 0 {
        Seq::empty()
    } else if changes.last().0 == ChangeKind::Deletion || changes.last().1 == MODE_COMMIT {
        added_by(changes.drop_last())
    } else {
        added_by(changes.drop_last()).push(changes.last().2)
    }
}

/// Counts what the recorded changes between two trees add: the object of each addition
/// and modification that was not counted before, at its first occurrence, but no
/// submodule commit. The new counts are added after those in `out`.
pub fn count_changes<F: Find>(
    db: &F,
    changes: &Recorder,
    all_seen: &mut SeenSet,
    out: &mut Vec<Count>,
    statistics: &mut Outcome,
    buf: &mut Vec<u8>,
    allow_pack_lookups: bool,
)
    requires
        old(statistics).expanded_objects <= old(out)@.len(),
    ensures
        final(out)@.len() >= old(out)@.len(),
        final(out)@.take(old(out)@.len() as int) == old(out)@,
        ids_of(final(out)@.skip(old(out)@.len() as int)) == first_unseen(
            old(all_seen)@,
            added_by(recorded(*changes)),
        ),
        final(all_seen)@ == old(all_seen)@.union(added_by(recorded(*changes)).to_set()),
        final(statistics).input_objects == old(statistics).input_objects,
        final(statistics).decoded_objects == final(out)@.len(),
        final(statistics).expanded_objects == old(statistics).expanded_objects + (final(out)@.len()
            - old(out)@.len()),
        !allow_pack_lookups ==> forall|k: int|
            old(out)@.len() <= k < final(out)@.len() ==> (#[trigger] final(out)@[k]).entry_pack_location
                == PackLocation::NotLookedUp,
        gained(
            old(out)@,
            *old(statistics),
            final(out)@,
            *final(statistics),
            final(all_seen)@,
            after_changes(nothing(old(all_seen)@), recorded(*changes)),
        ),
        placed(
            db,
            old(out)@,
            final(out)@,
            after_changes(nothing(old(all_seen)@), recorded(*changes)).listed,
            allow_pack_lookups,
        ),
{
    let ghost seen0 = all_seen@;
    let ghost all = recorded(*changes);
    proof {
        assert(ids_of(out@) + Seq::<Seq<u8>>::empty() =~= ids_of(out@));
    }
    let start = out.len();
    let len = recorded_len(changes);
    let mut i: usize = 0;
    proof {
        assert(after_changes(nothing(seen0), all.take(0)).listed =~= Seq::<bool>::empty());
        assert(all.take(0) =~= Seq::<(ChangeKind, u16, Seq<u8>)>::empty());
        assert(ids_of(out@.skip(start as int)) =~= Seq::<Seq<u8>>::empty());
        assert(seen0.union(added_by(all.take(0)).to_set()) =~= seen0);
        assert(out@.take(start as int) =~= old(out)@);
    }
    while i < len
        invariant
            i <= len,
            len == all.len(),
            all == recorded(*changes),
            start == old(out)@.len(),
            seen0 == old(all_seen)@,
            out@.len() >= start,
            out@.take(start as int) == old(out)@,
            ids_of(out@.skip(start as int)) == first_unseen(seen0, added_by(all.take(i as int))),
            all_seen@ == seen0.union(added_by(all.take(i as int)).to_set()),
            statistics.input_objects == old(statistics).input_objects,
            statistics.expanded_objects == old(statistics).expanded_objects + (out@.len() - start),
            old(statistics).expanded_objects <= start,
            !allow_pack_lookups ==> forall|k: int|
                start <= k < out@.len() ==> (#[trigger] out@[k]).entry_pack_location
                    == PackLocation::NotLookedUp,
            gained(
                old(out)@,
                *old(statistics),
                out@,
                *statistics,
                all_seen@,
                after_changes(nothing(seen0), all.take(i as int)),
            ),
            placed(
                db,
                old(out)@,
                out@,
                after_changes(nothing(seen0), all.take(i as int)).listed,
                allow_pack_lookups,
            ),
        decreases len - i,
    {
        let change = recorded_at(changes, i);
        let ghost gain_then = after_changes(nothing(seen0), all.take(i as int));
        let ghost prefix = added_by(all.take(i as int));
        let ghost seen_then = all_seen@;
        let ghost out_then = out@;
        proof {
            assert(all.take(i as int + 1).drop_last() =~= all.take(i as int));
            assert(all.take(i as int + 1).last() == (change.kind, change.mode, change.id@));
        }
        if change.kind != ChangeKind::Deletion && change.mode != MODE_COMMIT {
            let inserted = all_seen.insert(&change.id);
            proof {
                let longer = prefix.push(change.id@);
                assert(added_by(all.take(i as int + 1)) == longer);
                assert(seen_then.contains(change.id@) <==> (seen0.contains(change.id@)
                    || prefix.contains(change.id@)));
                assert(all_seen@ =~= seen0.union(longer.to_set())) by {
                    assert forall|x: Seq<u8>| longer.to_set().contains(x) <==> (
                    prefix.to_set().contains(x) || x == change.id@) by {
                        if longer.contains(x) {
                            let j = choose|j: int| 0 <= j < longer.len() && longer[j] == x;
                            if j < prefix.len() {
                                assert(prefix[j] == x);
                            }
                        }
                        if prefix.contains(x) {
                            let j = choose|j: int| 0 <= j < prefix.len() && prefix[j] == x;
                            assert(longer[j] == x);
                        }
                        if x == change.id@ {
                            assert(longer[prefix.len() as int] == x);
                        }
                    }
                }
                assert(longer.drop_last() =~= prefix);
            }
            if inserted {
                let count = id_to_count(db, buf, &change.id, allow_pack_lookups);
                out.push(count);
                statistics.decoded_objects = out.len();
                statistics.expanded_objects += 1;
                proof {
                    assert(out@.take(start as int) =~= old(out)@);
                    assert(ids_of(out@.skip(start as int)) =~= ids_of(
                        out_then.skip(start as int),
                    ).push(change.id@));
                    assert(ids_of(out@) =~= ids_of(out_then).push(change.id@));
                    assert(ids_of(old(out)@) + (gain_then.added + seq![change.id@]) =~= (ids_of(
                        old(out)@,
                    ) + gain_then.added).push(change.id@));
                }
            }
        } else {
            proof {
                assert(after_changes(nothing(seen0), all.take(i as int + 1)) == gain_then);
            }
        }
        proof {
            let gain_now = after_changes(nothing(seen0), all.take(i as int + 1));
            let marks_then = gain_then.listed;
            let marks = gain_now.listed;
            if change.kind != ChangeKind::Deletion && change.mode != MODE_COMMIT
                && !seen_then.contains(change.id@) {
                assert(marks =~= marks_then.push(true));
            } else {
                assert(marks =~= marks_then);
            }
            assert forall|k: int| 0 <= k < marks.len() implies well_placed(
                db,
                #[trigger] out@[start + k],
                marks[k],
                allow_pack_lookups,
            ) by {
                if k < marks_then.len() {
                    assert(out@[start + k] == out_then[start + k]);
                    assert(well_placed(db, out_then[start + k], marks_then[k], allow_pack_lookups));
                }
            }
            assert(all_seen@ == gain_now.seen);
            assert(out@.len() == old(out)@.len() + gain_now.added.len());
            assert(ids_of(out@) == ids_of(old(out)@) + gain_now.added);
            assert(statistics.expanded_objects + gain_now.roots == old(
                statistics,
            ).expanded_objects + gain_now.added.len());
        }
        i += 1;
    }
    proof {
        assert(all.take(len as int) =~= all);
    }
    statistics.decoded_objects = out.len();
}

/// Counts that grew by what was not seen stay exact.
proof fn lemma_counted_grown(
    before: Set<Seq<u8>>,
    a: Seq<Count>,
    seen: Set<Seq<u8>>,
    b: Seq<Count>,
    later: Set<Seq<u8>>,
    reached: Seq<Seq<u8>>,
)
    requires
        counted(before, a, seen),
        b.len() >= a.len(),
        b.take(a.len() as int) == a,
        ids_of(b.skip(a.len() as int)) == first_unseen(seen, reached),
        later == seen.union(reached.to_set()),
    ensures
        counted(before, b, later),
{
    lemma_first_unseen_fresh(seen, reached);
    lemma_fresh_concat(before, ids_of(a), seen, first_unseen(seen, reached), later);
    assert(ids_of(b) =~= ids_of(a) + ids_of(b.skip(a.len() as int))) by {
        assert forall|i: int| 0 <= i < b.len() implies ids_of(b)[i] == (ids_of(a) + ids_of(
            b.skip(a.len() as int),
        ))[i] by {
            if i < a.len() {
                assert(b.take(a.len() as int)[i] == b[i]);
            } else {
                assert(b.skip(a.len() as int)[i - a.len()] == b[i]);
            }
        }
    }
}

/// Counts the starting object `id`, found as `obj` with its data in `buf1`, and the
/// trees and tree contents it leads to: a tag leads to its target, a commit to its tree.
fn expand_tree_contents<F: Find, IterErr>(
    db: &F,
    all_seen: &mut SeenSet,
    out: &mut Vec<Count>,
    statistics: &mut Outcome,
    id: ObjectId,
    obj: Object,
    buf1: &mut Vec<u8>,
    buf2: &mut Vec<u8>,
    cache: &mut F::Cache,
    allow_pack_lookups: bool,
    Ghost(before): Ghost<Set<Seq<u8>>>,
) -> (done: Result<(), Error<F::Error, IterErr>>)
    requires
        counted(before, old(out)@, old(all_seen)@),
        tallied(old(out)@.len() as int, *old(statistics)),
        old(out)@.len() < old(statistics).input_objects + old(statistics).expanded_objects,
        db.content(id@) == (obj.kind, old(buf1)@),
    ensures
        final(all_seen)@.contains(id@),
        old(all_seen)@.subset_of(final(all_seen)@),
        final(statistics).input_objects == old(statistics).input_objects,
        done is Ok ==> counted(before, final(out)@, final(all_seen)@) && tallied(
            final(out)@.len() as int,
            *final(statistics),
        ) && gained(
            old(out)@,
            *old(statistics),
            final(out)@,
            *final(statistics),
            final(all_seen)@,
            contents_one(db, old(all_seen)@, id@),
        ) && placed(db, old(out)@, final(out)@, (contents_one(db, old(all_seen)@, id@)).listed, allow_pack_lookups),
        done matches Err(err) ==> !(err is InputIteration) && !(err is Interrupted),
        done matches Err(Error::CommitDecode { id }) ==> not_a_commit(db, id@),
        done matches Err(Error::TagDecode { id }) ==> not_a_tag(db, id@),
        done matches Err(Error::FindExisting(ExistingError::NotFound { id: missing })) ==> leads_to(
            db,
            ObjectExpansion::TreeContents,
            id@,
            missing@,
        ),
{
    let ghost root = id@;
    let ghost seen0 = all_seen@;
    let ghost out0 = out@;
    let ghost stats0 = *statistics;
    let mut current = id;
    let mut obj = obj;
    let mut resolved_ids: Vec<ObjectId> = Vec::new();
    let mut depth: usize = 0;
    proof {
        assert(ids_of(out@) + Seq::<Seq<u8>>::empty() =~= ids_of(out@));
        lemma_placed_nothing(db, out@, allow_pack_lookups);
    }
    loop
        invariant
            counted(before, out@, all_seen@),
            tallied(out@.len() as int, *statistics),
            depth > 0 ==> all_seen@.contains(root),
            root == id@,
            seen0 == old(all_seen)@,
            out0 == old(out)@,
            stats0 == *old(statistics),
            depth == resolved_ids@.len(),
            depth == 0 ==> out@.len() < statistics.input_objects + statistics.expanded_objects,
            statistics.input_objects == old(statistics).input_objects,
            old(all_seen)@.subset_of(all_seen@),
            current@ == resolved(db, root, depth as nat),
            db.content(current@) == (obj.kind, buf1@),
            forall|j: nat| j < depth ==> !ends_hops(db, #[trigger] resolved(db, root, j), true),
            gained(
                out0,
                stats0,
                out@,
                *statistics,
                all_seen@,
                if depth == 0 {
                    nothing(seen0)
                } else {
                    chain(db, seen0, root, (depth - 1) as nat)
                },
            ),
            placed(db, out0, out@, (if depth == 0 {
                    nothing(seen0)
                } else {
                    chain(db, seen0, root, (depth - 1) as nat)
                }).listed, allow_pack_lookups),
        decreases usize::MAX - depth,
    {
        let ghost out_then = out@;
        let ghost stats_then = *statistics;
        let ghost seen_then = all_seen@;
        let ghost gain_then = if depth == 0 {
            nothing(seen0)
        } else {
            chain(db, seen0, root, (depth - 1) as nat)
        };
        push_obj_count_unique(out, all_seen, &current, &obj, statistics, depth > 0, Ghost(before));
        proof {
            lemma_placed_found(
                db,
                out_then,
                out@,
                seen_then,
                current@,
                depth == 0,
                allow_pack_lookups,
            );
        }
        proof {
            lemma_gained_then(
                out0,
                stats0,
                out_then,
                stats_then,
                seen_then,
                gain_then,
                out@,
                *statistics,
                all_seen@,
                count(seen_then, current@, depth == 0),
            );
            lemma_placed_then(
                db,
                out0,
                out_then,
                (gain_then).listed,
                out@,
                (count(seen_then, current@, depth == 0)).listed,
                allow_pack_lookups,
            );
            if depth == 0 {
                lemma_then_nothing(count(seen0, root, true));
            }
            assert(gained(out0, stats0, out@, *statistics, all_seen@, chain(db, seen0, root, depth as nat)));
        }
        let next = match obj.kind {
            Kind::Tree => {
                let ghost out_counted = out@;
                let ghost stats_counted = *statistics;
                let ghost seen_counted = all_seen@;
                let walked_all = walk_tree(
                    db,
                    &current,
                    buf1,
                    buf2,
                    cache,
                    all_seen,
                    out,
                    statistics,
                    allow_pack_lookups,
                    Ghost(before),
                );
                return match walked_all {
                    Ok(()) => {
                        proof {
                            assert(hops_to_end(db, root, true, depth as nat));
                            lemma_hops_end_once(db, root, true, depth as nat);
                            lemma_gained_then(
                                out0,
                                stats0,
                                out_counted,
                                stats_counted,
                                seen_counted,
                                chain(db, seen0, root, depth as nat),
                                out@,
                                *statistics,
                                all_seen@,
                                after_walk(db, seen_counted, db.content(current@).1),
                            );
                            lemma_placed_then(
                                db,
                                out0,
                                out_counted,
                                (chain(db, seen0, root, depth as nat)).listed,
                                out@,
                                (after_walk(db, seen_counted, db.content(current@).1)).listed,
                                allow_pack_lookups,
                            );
                        }
                        Ok(())
                    },
                    Err(err) => Err(Error::TreeTraverse(err)),
                };
            },
            Kind::Blob => {
                proof {
                    assert(hops_to_end(db, root, true, depth as nat));
                    lemma_hops_end_once(db, root, true, depth as nat);
                }
                return Ok(());
            },
            Kind::Commit => match read_commit_tree(buf1.as_slice()) {
                Some(tree) => tree,
                None => {
                    return Err(Error::CommitDecode { id: current });
                },
            },
            Kind::Tag => match read_tag_target(buf1.as_slice()) {
                Some(target) => target,
                None => {
                    return Err(Error::TagDecode { id: current });
                },
            },
        };
        proof {
            assert(next@ == hop(db, current@));
            assert(resolved(db, root, (depth + 1) as nat) == hop(db, resolved(db, root, depth as nat)));
            assert(!ends_hops(db, resolved(db, root, depth as nat), true));
        }
        resolved_ids.push(current);
        depth = resolved_ids.len();
        current = next;
        obj = match find(db, &current, buf1, cache) {
            Ok(obj) => obj,
            Err(err) => {
                assert(resolved(db, root, depth as nat) == current@);
                return Err(Error::FindExisting(err));
            },
        };
    }
}

/// Counts the parent commit `parent` of a commit whose tree's data `current` holds, the
/// parent's tree, and what the commit's tree adds to the parent's.
fn expand_parent_additions<F: Find, IterErr>(
    db: &F,
    all_seen: &mut SeenSet,
    out: &mut Vec<Count>,
    statistics: &mut Outcome,
    parent: &ObjectId,
    current: &Vec<u8>,
    buf2: &mut Vec<u8>,
    cache: &mut F::Cache,
    allow_pack_lookups: bool,
    Ghost(before): Ghost<Set<Seq<u8>>>,
    Ghost(tree): Ghost<Seq<u8>>,
) -> (done: Result<(), Error<F::Error, IterErr>>)
    requires
        trees_nest(db),
        counted(before, old(out)@, old(all_seen)@),
        tallied(old(out)@.len() as int, *old(statistics)),
        db.content(tree).1 == current@,
    ensures
        old(all_seen)@.subset_of(final(all_seen)@),
        final(statistics).input_objects == old(statistics).input_objects,
        done is Ok ==> counted(before, final(out)@, final(all_seen)@) && tallied(
            final(out)@.len() as int,
            *final(statistics),
        ) && gained(
            old(out)@,
            *old(statistics),
            final(out)@,
            *final(statistics),
            final(all_seen)@,
            parent_step(db, old(all_seen)@, tree, parent@),
        ) && placed(db, old(out)@, final(out)@, (parent_step(db, old(all_seen)@, tree, parent@)).listed, allow_pack_lookups),
        done matches Err(err) ==> !(err is InputIteration) && !(err is Interrupted),
        done matches Err(Error::CommitDecode { id }) ==> not_a_commit(db, id@),
        done matches Err(Error::TagDecode { id }) ==> not_a_tag(db, id@),
        done matches Err(Error::FindExisting(ExistingError::NotFound { id: missing })) ==> (missing@
            == parent@ || missing@ == commit_tree(db.content(parent@).1)->Some_0),
{
    let ghost out0 = out@;
    let ghost stats0 = *statistics;
    let ghost seen0 = all_seen@;
    let parent_obj = match find(db, parent, buf2, cache) {
        Ok(obj) => obj,
        Err(err) => {
            return Err(Error::FindExisting(err));
        },
    };
    push_obj_count_unique(out, all_seen, parent, &parent_obj, statistics, true, Ghost(before));
    proof {
        lemma_placed_found(db, out0, out@, seen0, parent@, false, allow_pack_lookups);
    }
    let ghost out1 = out@;
    let ghost stats1 = *statistics;
    let ghost seen1 = all_seen@;
    let parent_tree = match read_commit_tree(buf2.as_slice()) {
        Some(tree) => tree,
        None => {
            return Err(Error::CommitDecode { id: *parent });
        },
    };
    let parent_tree_obj = match find(db, &parent_tree, buf2, cache) {
        Ok(obj) => obj,
        Err(err) => {
            return Err(Error::FindExisting(err));
        },
    };
    push_obj_count_unique(
        out,
        all_seen,
        &parent_tree,
        &parent_tree_obj,
        statistics,
        true,
        Ghost(before),
    );
    proof {
        lemma_placed_found(db, out1, out@, seen1, parent_tree@, false, allow_pack_lookups);
    }
    let ghost out2 = out@;
    let ghost stats2 = *statistics;
    let ghost seen2 = all_seen@;
    if !is_well_framed(buf2.as_slice()) || !is_well_framed(current.as_slice()) {
        return Err(Error::TreeChanges(TreeChangesError::EntriesDecode));
    }
    let changes = match compare_trees(db, cache, buf2.as_slice(), current.as_slice()) {
        Ok(changes) => changes,
        Err(err) => {
            return Err(Error::TreeChanges(err));
        },
    };
    count_changes(db, &changes, all_seen, out, statistics, buf2, allow_pack_lookups);
    proof {
        lemma_counted_grown(before, out2, seen2, out@, all_seen@, added_by(recorded(changes)));
        let with_parent = count(seen0, parent@, false);
        let with_tree = count(seen1, parent_tree@, false);
        lemma_gained_then(
            out0,
            stats0,
            out1,
            stats1,
            seen1,
            with_parent,
            out2,
            stats2,
            seen2,
            with_tree,
        );
        lemma_placed_then(
            db,
            out0,
            out1,
            (with_parent).listed,
            out2,
            (with_tree).listed,
            allow_pack_lookups,
        );
        lemma_gained_then(
            out0,
            stats0,
            out2,
            stats2,
            seen2,
            then(with_parent, with_tree),
            out@,
            *statistics,
            all_seen@,
            after_changes(nothing(seen2), recorded(changes)),
        );
        lemma_placed_then(
            db,
            out0,
            out2,
            (then(with_parent, with_tree)).listed,
            out@,
            (after_changes(nothing(seen2), recorded(changes))).listed,
            allow_pack_lookups,
        );
    }
    Ok(())
}

/// Counts the commit `id`, whose data `buf1` holds, with its tree: all that the tree
/// holds where the commit has no parent, else the parents, their trees and what the
/// commit's tree adds to each of them.
fn expand_commit_additions<F: Find, IterErr>(
    db: &F,
    all_seen: &mut SeenSet,
    out: &mut Vec<Count>,
    statistics: &mut Outcome,
    id: ObjectId,
    buf1: &mut Vec<u8>,
    buf2: &mut Vec<u8>,
    cache: &mut F::Cache,
    allow_pack_lookups: bool,
    Ghost(before): Ghost<Set<Seq<u8>>>,
) -> (done: Result<(), Error<F::Error, IterErr>>)
    requires
        trees_nest(db),
        counted(before, old(out)@, old(all_seen)@),
        tallied(old(out)@.len() as int, *old(statistics)),
        db.content(id@).1 == old(buf1)@,
    ensures
        old(all_seen)@.subset_of(final(all_seen)@),
        final(statistics).input_objects == old(statistics).input_objects,
        done is Ok ==> counted(before, final(out)@, final(all_seen)@) && tallied(
            final(out)@.len() as int,
            *final(statistics),
        ) && gained(
            old(out)@,
            *old(statistics),
            final(out)@,
            *final(statistics),
            final(all_seen)@,
            commit_additions(db, old(all_seen)@, id@),
        ) && placed(db, old(out)@, final(out)@, (commit_additions(db, old(all_seen)@, id@)).listed, allow_pack_lookups),
        done matches Err(err) ==> !(err is InputIteration) && !(err is Interrupted),
        done matches Err(Error::CommitDecode { id }) ==> not_a_commit(db, id@),
        done matches Err(Error::TagDecode { id }) ==> not_a_tag(db, id@),
        done matches Err(Error::FindExisting(ExistingError::NotFound { id: missing })) ==> near_commit(
            db,
            id@,
            missing@,
        ),
{
    let ghost out0 = out@;
    let ghost stats0 = *statistics;
    let ghost seen0 = all_seen@;
    let tree_id = match read_commit_tree(buf1.as_slice()) {
        Some(tree) => tree,
        None => {
            return Err(Error::CommitDecode { id });
        },
    };
    let tokens = read_commit_tokens_after_tree(buf1.as_slice());
    let parents = match leading_parents(&tokens) {
        Some(parents) => parents,
        None => {
            return Err(Error::CommitDecode { id });
        },
    };
    let ghost parent_ids = parents@.map_values(|id: ObjectId| id@);
    let tree_obj = match find(db, &tree_id, buf1, cache) {
        Ok(obj) => obj,
        Err(err) => {
            return Err(Error::FindExisting(err));
        },
    };
    push_obj_count_unique(out, all_seen, &tree_id, &tree_obj, statistics, true, Ghost(before));
    proof {
        lemma_placed_found(db, out0, out@, seen0, tree_id@, false, allow_pack_lookups);
    }
    let ghost with_tree = count(seen0, tree_id@, false);
    let ghost out1 = out@;
    let ghost stats1 = *statistics;
    let ghost seen1 = all_seen@;
    if parents.len() == 0 {
        let walked_all = walk_tree(
            db,
            &tree_id,
            buf1,
            buf2,
            cache,
            all_seen,
            out,
            statistics,
            allow_pack_lookups,
            Ghost(before),
        );
        return match walked_all {
            Ok(()) => {
                proof {
                    lemma_gained_then(
                        out0,
                        stats0,
                        out1,
                        stats1,
                        seen1,
                        with_tree,
                        out@,
                        *statistics,
                        all_seen@,
                        after_walk(db, seen1, db.content(tree_id@).1),
                    );
                    lemma_placed_then(
                        db,
                        out0,
                        out1,
                        (with_tree).listed,
                        out@,
                        (after_walk(db, seen1, db.content(tree_id@).1)).listed,
                        allow_pack_lookups,
                    );
                }
                Ok(())
            },
            Err(err) => Err(Error::TreeTraverse(err)),
        };
    }
    let mut i: usize = 0;
    while i < parents.len()
        invariant
            trees_nest(db),
            i <= parents.len(),
            counted(before, out@, all_seen@),
            tallied(out@.len() as int, *statistics),
            statistics.input_objects == old(statistics).input_objects,
            old(all_seen)@.subset_of(all_seen@),
            db.content(tree_id@).1 == buf1@,
            parent_ids == parents@.map_values(|id: ObjectId| id@),
            parent_ids == leading_parents_of(commit_tokens_after_tree(db.content(id@).1))->Some_0,
            gained(
                out0,
                stats0,
                out@,
                *statistics,
                all_seen@,
                after_parents(db, with_tree, tree_id@, parent_ids, i as nat),
            ),
            placed(db, out0, out@, (after_parents(db, with_tree, tree_id@, parent_ids, i as nat)).listed, allow_pack_lookups),
        decreases parents.len() - i,
    {
        let ghost out_then = out@;
        let ghost stats_then = *statistics;
        let ghost seen_then = all_seen@;
        match expand_parent_additions::<F, IterErr>(
            db,
            all_seen,
            out,
            statistics,
            &parents[i],
            buf1,
            buf2,
            cache,
            allow_pack_lookups,
            Ghost(before),
            Ghost(tree_id@),
        ) {
            Ok(()) => {},
            Err(err) => {
                proof {
                    assert(parent_ids[i as int] == parents@[i as int]@);
                    if let Error::FindExisting(ExistingError::NotFound { id: missing }) = err {
                        assert(missing@ == parent_ids[i as int] || missing@ == commit_tree(
                            db.content(parent_ids[i as int]).1,
                        )->Some_0);
                    }
                }
                return Err(err);
            },
        }
        proof {
            assert(parent_ids[i as int] == parents@[i as int]@);
            lemma_after_parents_step(db, with_tree, tree_id@, parent_ids, (i + 1) as nat);
            lemma_gained_then(
                out0,
                stats0,
                out_then,
                stats_then,
                seen_then,
                after_parents(db, with_tree, tree_id@, parent_ids, i as nat),
                out@,
                *statistics,
                all_seen@,
                parent_step(db, seen_then, tree_id@, parent_ids[i as int]),
            );
            lemma_placed_then(
                db,
                out0,
                out_then,
                (after_parents(db, with_tree, tree_id@, parent_ids, i as nat)).listed,
                out@,
                (parent_step(db, seen_then, tree_id@, parent_ids[i as int])).listed,
                allow_pack_lookups,
            );
        }
        i += 1;
    }
    Ok(())
}

/// Counts the starting object `id`, found as `obj` with its data in `buf1`: a tag with
/// its target, a commit with its tree and what the tree adds to those of the parents.
fn expand_tree_additions<F: Find, IterErr>(
    db: &F,
    all_seen: &mut SeenSet,
    out: &mut Vec<Count>,
    statistics: &mut Outcome,
    id: ObjectId,
    obj: Object,
    buf1: &mut Vec<u8>,
    buf2: &mut Vec<u8>,
    cache: &mut F::Cache,
    allow_pack_lookups: bool,
    Ghost(before): Ghost<Set<Seq<u8>>>,
) -> (done: Result<(), Error<F::Error, IterErr>>)
    requires
        trees_nest(db),
        counted(before, old(out)@, old(all_seen)@),
        tallied(old(out)@.len() as int, *old(statistics)),
        old(out)@.len() < old(statistics).input_objects + old(statistics).expanded_objects,
        db.content(id@) == (obj.kind, old(buf1)@),
    ensures
        final(all_seen)@.contains(id@),
        old(all_seen)@.subset_of(final(all_seen)@),
        final(statistics).input_objects == old(statistics).input_objects,
        done is Ok ==> counted(before, final(out)@, final(all_seen)@) && tallied(
            final(out)@.len() as int,
            *final(statistics),
        ) && gained(
            old(out)@,
            *old(statistics),
            final(out)@,
            *final(statistics),
            final(all_seen)@,
            additions_one(db, old(all_seen)@, id@),
        ) && placed(db, old(out)@, final(out)@, (additions_one(db, old(all_seen)@, id@)).listed, allow_pack_lookups),
        done matches Err(err) ==> !(err is InputIteration) && !(err is Interrupted),
        done matches Err(Error::CommitDecode { id }) ==> not_a_commit(db, id@),
        done matches Err(Error::TagDecode { id }) ==> not_a_tag(db, id@),
        done matches Err(Error::FindExisting(ExistingError::NotFound { id: missing })) ==> leads_to(
            db,
            ObjectExpansion::TreeAdditionsComparedToAncestor,
            id@,
            missing@,
        ),
{
    let ghost root = id@;
    let ghost seen0 = all_seen@;
    let ghost out0 = out@;
    let ghost stats0 = *statistics;
    let mut current = id;
    let mut obj = obj;
    let mut resolved_ids: Vec<ObjectId> = Vec::new();
    let mut depth: usize = 0;
    proof {
        assert(ids_of(out@) + Seq::<Seq<u8>>::empty() =~= ids_of(out@));
        lemma_placed_nothing(db, out@, allow_pack_lookups);
    }
    loop
        invariant
            trees_nest(db),
            counted(before, out@, all_seen@),
            tallied(out@.len() as int, *statistics),
            depth > 0 ==> all_seen@.contains(root),
            root == id@,
            seen0 == old(all_seen)@,
            out0 == old(out)@,
            stats0 == *old(statistics),
            depth == resolved_ids@.len(),
            depth == 0 ==> out@.len() < statistics.input_objects + statistics.expanded_objects,
            statistics.input_objects == old(statistics).input_objects,
            old(all_seen)@.subset_of(all_seen@),
            current@ == resolved(db, root, depth as nat),
            db.content(current@) == (obj.kind, buf1@),
            forall|j: nat| j < depth ==> !ends_hops(db, #[trigger] resolved(db, root, j), false),
            gained(
                out0,
                stats0,
                out@,
                *statistics,
                all_seen@,
                if depth == 0 {
                    nothing(seen0)
                } else {
                    chain(db, seen0, root, (depth - 1) as nat)
                },
            ),
            placed(db, out0, out@, (if depth == 0 {
                    nothing(seen0)
                } else {
                    chain(db, seen0, root, (depth - 1) as nat)
                }).listed, allow_pack_lookups),
        decreases usize::MAX - depth,
    {
        let ghost out_then = out@;
        let ghost stats_then = *statistics;
        let ghost seen_then = all_seen@;
        let ghost gain_then = if depth == 0 {
            nothing(seen0)
        } else {
            chain(db, seen0, root, (depth - 1) as nat)
        };
        push_obj_count_unique(out, all_seen, &current, &obj, statistics, depth > 0, Ghost(before));
        proof {
            lemma_placed_found(
                db,
                out_then,
                out@,
                seen_then,
                current@,
                depth == 0,
                allow_pack_lookups,
            );
        }
        proof {
            lemma_gained_then(
                out0,
                stats0,
                out_then,
                stats_then,
                seen_then,
                gain_then,
                out@,
                *statistics,
                all_seen@,
                count(seen_then, current@, depth == 0),
            );
            lemma_placed_then(
                db,
                out0,
                out_then,
                (gain_then).listed,
                out@,
                (count(seen_then, current@, depth == 0)).listed,
                allow_pack_lookups,
            );
            if depth == 0 {
                lemma_then_nothing(count(seen0, root, true));
            }
            assert(gained(out0, stats0, out@, *statistics, all_seen@, chain(db, seen0, root, depth as nat)));
        }
        match obj.kind {
            Kind::Tree | Kind::Blob => {
                proof {
                    assert(hops_to_end(db, root, false, depth as nat));
                    lemma_hops_end_once(db, root, false, depth as nat);
                }
                return Ok(());
            },
            Kind::Commit => {
                let ghost out_counted = out@;
                let ghost stats_counted = *statistics;
                let ghost seen_counted = all_seen@;
                let added = expand_commit_additions::<F, IterErr>(
                    db,
                    all_seen,
                    out,
                    statistics,
                    current,
                    buf1,
                    buf2,
                    cache,
                    allow_pack_lookups,
                    Ghost(before),
                );
                proof {
                    if let Err(Error::FindExisting(ExistingError::NotFound { id: missing })) = added {
                        assert(near_commit(db, resolved(db, root, depth as nat), missing@));
                    }
                    if added is Ok {
                        assert(hops_to_end(db, root, false, depth as nat));
                        lemma_hops_end_once(db, root, false, depth as nat);
                        lemma_gained_then(
                            out0,
                            stats0,
                            out_counted,
                            stats_counted,
                            seen_counted,
                            chain(db, seen0, root, depth as nat),
                            out@,
                            *statistics,
                            all_seen@,
                            commit_additions(db, seen_counted, current@),
                        );
                        lemma_placed_then(
                            db,
                            out0,
                            out_counted,
                            (chain(db, seen0, root, depth as nat)).listed,
                            out@,
                            (commit_additions(db, seen_counted, current@)).listed,
                            allow_pack_lookups,
                        );
                    }
                }
                return added;
            },
            Kind::Tag => {},
        }
        let target = match read_tag_target(buf1.as_slice()) {
            Some(target) => target,
            None => {
                return Err(Error::TagDecode { id: current });
            },
        };
        proof {
            assert(target@ == hop(db, current@));
            assert(resolved(db, root, (depth + 1) as nat) == hop(db, resolved(db, root, depth as nat)));
            assert(!ends_hops(db, resolved(db, root, depth as nat), false));
        }
        resolved_ids.push(current);
        depth = resolved_ids.len();
        current = target;
        obj = match find(db, &current, buf1, cache) {
            Ok(obj) => obj,
            Err(err) => {
                assert(near_commit(db, resolved(db, root, depth as nat), current@));
                return Err(Error::FindExisting(err));
            },
        };
    }
}

/// The hash that an item of the input names; an item that is an error names none.
pub open spec fn input_id<IterErr>(item: Result<ObjectId, IterErr>) -> Seq<u8> {
    match item {
        Ok(id) => id@,
        Err(_) => Seq::empty(),
    }
}

/// The ids of `ids` that `seen` does not hold, each at its first occurrence.
pub open spec fn first_unseen(seen: Set<Seq<u8>>, ids: Seq<Seq<u8>>) -> Seq<Seq<u8>>
    decreases ids.len(),
{
    if ids.len() == 0 {
        Seq::empty()
    } else {
        let rest = first_unseen(seen, ids.drop_last());
        if seen.contains(ids.last()) || ids.drop_last().contains(ids.last()) {
            rest
        } else {
            rest.push(ids.last())
        }
    }
}

/// What `ids` add to `seen` are the ids themselves.
pub proof fn lemma_first_unseen_set(seen: Set<Seq<u8>>, ids: Seq<Seq<u8>>)
    ensures
        seen.union(first_unseen(seen, ids).to_set()) == seen.union(ids.to_set()),
        forall|i: int|
            0 <= i < first_unseen(seen, ids).len() ==> ids.contains(
                #[trigger] first_unseen(seen, ids)[i],
            ) && !seen.contains(first_unseen(seen, ids)[i]),
    decreases ids.len(),
{
    if ids.len() == 0 {
        assert(first_unseen(seen, ids).to_set() =~= ids.to_set());
    } else {
        let rest = ids.drop_last();
        let last = ids.last();
        lemma_first_unseen_set(seen, rest);
        let kept = first_unseen(seen, rest);
        let all = first_unseen(seen, ids);
        assert(ids[ids.len() - 1] == last);
        assert forall|x: Seq<u8>| ids.to_set().contains(x) <==> (rest.to_set().contains(x) || x
            == last) by {
            if ids.contains(x) {
                let i = choose|i: int| 0 <= i < ids.len() && ids[i] == x;
                if i < rest.len() {
                    assert(rest[i] == x);
                }
            }
            if rest.contains(x) {
                let i = choose|i: int| 0 <= i < rest.len() && rest[i] == x;
                assert(ids[i] == x);
            }
        }
        assert forall|i: int| 0 <= i < all.len() implies ids.contains(#[trigger] all[i])
            && !seen.contains(all[i]) by {
            if i < kept.len() {
                assert(all[i] == kept[i]);
                assert(rest.contains(kept[i]));
                let j = choose|j: int| 0 <= j < rest.len() && rest[j] == kept[i];
                assert(ids[j] == kept[i]);
            }
        }
        if seen.contains(last) || rest.contains(last) {
            assert(all == kept);
            assert(seen.union(all.to_set()) =~= seen.union(ids.to_set())) by {
                assert(seen.union(kept.to_set()) == seen.union(rest.to_set()));
                assert forall|x: Seq<u8>| seen.union(ids.to_set()).contains(x) implies seen.union(
                    rest.to_set(),
                ).contains(x) by {
                    if x == last && !seen.contains(last) {
                        assert(rest.to_set().contains(last));
                    }
                }
            }
        } else {
            assert(all == kept.push(last));
            assert forall|x: Seq<u8>| all.to_set().contains(x) <==> (kept.to_set().contains(x) || x
                == last) by {
                if all.contains(x) {
                    let i = choose|i: int| 0 <= i < all.len() && all[i] == x;
                    if i < kept.len() {
                        assert(kept[i] == x);
                    }
                }
                if kept.contains(x) {
                    let i = choose|i: int| 0 <= i < kept.len() && kept[i] == x;
                    assert(all[i] == x);
                }
                if x == last {
                    assert(all[kept.len() as int] == x);
                }
            }
            assert(seen.union(all.to_set()) =~= seen.union(ids.to_set())) by {
                assert(seen.union(kept.to_set()) == seen.union(rest.to_set()));
                assert forall|x: Seq<u8>| seen.union(all.to_set()).contains(x) <==> seen.union(
                    ids.to_set(),
                ).contains(x) by {
                    assert(seen.union(kept.to_set()).contains(x) == seen.union(
                        rest.to_set(),
                    ).contains(x));
                }
            }
        }
    }
}

/// What `ids` add to `seen` is added, each id once.
pub proof fn lemma_first_unseen_fresh(seen: Set<Seq<u8>>, ids: Seq<Seq<u8>>)
    ensures
        fresh(seen, first_unseen(seen, ids), seen.union(ids.to_set())),
    decreases ids.len(),
{
    lemma_first_unseen_set(seen, ids);
    let all = first_unseen(seen, ids);
    if ids.len() > 0 {
        let rest = ids.drop_last();
        let last = ids.last();
        lemma_first_unseen_fresh(seen, rest);
        lemma_first_unseen_set(seen, rest);
        let kept = first_unseen(seen, rest);
        if !(seen.contains(last) || rest.contains(last)) {
            assert(!kept.contains(last)) by {
                if kept.contains(last) {
                    let i = choose|i: int| 0 <= i < kept.len() && kept[i] == last;
                    assert(rest.contains(kept[i]));
                }
            }
            assert(all == kept.push(last));
            assert(all.no_duplicates());
        }
    }
    assert(seen.union(all.to_set()) == seen.union(ids.to_set()));
}

/// Counting the ids of two runs one after the other counts what counting them in one
/// run counts: the second run leaves out what the first has seen.
pub proof fn lemma_first_unseen_concat(seen: Set<Seq<u8>>, a: Seq<Seq<u8>>, b: Seq<Seq<u8>>)
    ensures
        first_unseen(seen, a + b) == first_unseen(seen, a) + first_unseen(
            seen.union(a.to_set()),
            b,
        ),
    decreases b.len(),
{
    let later = seen.union(a.to_set());
    if b.len() == 0 {
        assert(a + b =~= a);
        assert(first_unseen(seen, a) + first_unseen(later, b) =~= first_unseen(seen, a));
    } else {
        let rest = b.drop_last();
        let last = b.last();
        lemma_first_unseen_concat(seen, a, rest);
        assert((a + b).drop_last() =~= a + rest);
        assert((a + b).last() == last);
        assert((a + rest).contains(last) <==> (a.contains(last) || rest.contains(last))) by {
            if (a + rest).contains(last) {
                let i = choose|i: int| 0 <= i < (a + rest).len() && (a + rest)[i] == last;
                if i < a.len() {
                    assert(a[i] == last);
                } else {
                    assert(rest[i - a.len()] == last);
                }
            }
            if a.contains(last) {
                let i = choose|i: int| 0 <= i < a.len() && a[i] == last;
                assert((a + rest)[i] == last);
            }
            if rest.contains(last) {
                let i = choose|i: int| 0 <= i < rest.len() && rest[i] == last;
                assert((a + rest)[i + a.len()] == last);
            }
        }
        assert(later.contains(last) <==> (seen.contains(last) || a.contains(last)));
        if seen.contains(last) || (a + rest).contains(last) {
            assert(first_unseen(seen, a + b) == first_unseen(seen, a + rest));
            assert(first_unseen(later, b) == first_unseen(later, rest));
        } else {
            assert(first_unseen(seen, a + b) == first_unseen(seen, a + rest).push(last));
            assert(first_unseen(later, b) == first_unseen(later, rest).push(last));
            assert(first_unseen(seen, a + b) =~= first_unseen(seen, a) + first_unseen(later, b));
        }
    }
}

/// As many counts as ids come of ids that are all different and all unseen.
pub proof fn lemma_first_unseen_distinct(seen: Set<Seq<u8>>, ids: Seq<Seq<u8>>)
    requires
        ids.no_duplicates(),
        forall|i: int| 0 <= i < ids.len() ==> !seen.contains(#[trigger] ids[i]),
    ensures
        first_unseen(seen, ids) == ids,
    decreases ids.len(),
{
    if ids.len() > 0 {
        let rest = ids.drop_last();
        assert forall|i: int| 0 <= i < rest.len() implies !seen.contains(#[trigger] rest[i]) by {
            assert(rest[i] == ids[i]);
        }
        lemma_first_unseen_distinct(seen, rest);
        assert(ids[ids.len() - 1] == ids.last());
        assert(!rest.contains(ids.last())) by {
            if rest.contains(ids.last()) {
                let i = choose|i: int| 0 <= i < rest.len() && rest[i] == ids.last();
                assert(ids[i] == ids[ids.len() - 1]);
            }
        }
        assert(first_unseen(seen, ids) =~= ids);
    }
}

/// What becomes of one item of the input: with the flag found set, counting stops as
/// interrupted; an item that is an error ends counting with that error; any other item
/// names the next object to count.
pub fn next_input<FindErr, IterErr>(interrupted: bool, item: Result<ObjectId, IterErr>) -> (next:
    Result<ObjectId, Error<FindErr, IterErr>>)
    ensures
        interrupted ==> next is Err && next->Err_0 is Interrupted,
        !interrupted ==> match item {
            Ok(id) => next == Ok::<ObjectId, Error<FindErr, IterErr>>(id),
            Err(err) => next == Err::<ObjectId, Error<FindErr, IterErr>>(
                Error::InputIteration(err),
            ),
        },
{
    if interrupted {
        return Err(Error::Interrupted);
    }
    match item {
        Ok(id) => Ok(id),
        Err(err) => Err(Error::InputIteration(err)),
    }
}

/// Counts the objects that `oids` name, expanded as `input_object_expansion` says, and
/// leaves out every object that `seen_objs` holds already or that was counted earlier in
/// the same call. Before each starting id the flag `should_interrupt` is read.
///
/// Where trees are compared with those of parents, the trees of the database have to
/// nest to a bounded depth, as [`trees_nest`] says: the comparison ends on no other
/// database. Walks of trees end on any.
///
/// On success the counts hold each new object once, `seen_objs` has grown by exactly
/// these objects, and the totals fit the counts: counts, totals and `seen_objs` are what
/// [`expanded`] gives for the starting ids and the content that the database has for
/// each id. Each count tells the place of its object in a pack as [`well_placed`] says:
/// an object that was looked up has the place that the lookup gave; one that a tree or
/// a comparison listed has the place that the database tells for it where
/// `allow_pack_lookups` is set, and none else. With `AsIs` the counts are the starting ids that were not seen, in their
/// order. Whatever the database answers, an error means that there was input; an input
/// error is one of the errors in `oids`; a commit or a tag that is said not to decode
/// has content that does not read as one; and an object that is said to be missing is
/// one that a starting id leads to, as [`leads_to`] says.
pub fn this<F: Find, IterErr>(
    db: &F,
    input_object_expansion: ObjectExpansion,
    seen_objs: &mut SeenSet,
    oids: Vec<Result<ObjectId, IterErr>>,
    buf1: &mut Vec<u8>,
    buf2: &mut Vec<u8>,
    cache: &mut F::Cache,
    should_interrupt: &AtomicBool,
    allow_pack_lookups: bool,
) -> (counts: Result<(Vec<Count>, Outcome), Error<F::Error, IterErr>>)
    requires
        input_object_expansion == ObjectExpansion::TreeAdditionsComparedToAncestor ==> trees_nest(
            db,
        ),
    ensures
        old(seen_objs)@.subset_of(final(seen_objs)@),
        match counts {
            Ok((out, outcome)) => {
                &&& counted(old(seen_objs)@, out@, final(seen_objs)@)
                &&& tallied(out@.len() as int, outcome)
                &&& outcome.input_objects == oids@.len()
                &&& forall|i: int| 0 <= i < oids@.len() ==> (#[trigger] oids@[i]) is Ok
                &&& forall|i: int|
                    0 <= i < oids@.len() ==> final(seen_objs)@.contains(input_id(#[trigger] oids@[i]))
                &&& input_object_expansion == ObjectExpansion::AsIs ==> {
                    &&& outcome.expanded_objects == 0
                    &&& ids_of(out@) == first_unseen(
                        old(seen_objs)@,
                        oids@.map_values(|item: Result<ObjectId, IterErr>| input_id(item)),
                    )
                }
                &&& final(seen_objs)@ == expanded(
                    db,
                    input_object_expansion,
                    old(seen_objs)@,
                    oids@.map_values(|item: Result<ObjectId, IterErr>| input_id(item)),
                    oids@.len(),
                ).seen
                &&& gives(
                    out@,
                    outcome,
                    expanded(
                        db,
                        input_object_expansion,
                        old(seen_objs)@,
                        oids@.map_values(|item: Result<ObjectId, IterErr>| input_id(item)),
                        oids@.len(),
                    ),
                )
                &&& placed(
                    db,
                    Seq::empty(),
                    out@,
                    expanded(
                        db,
                        input_object_expansion,
                        old(seen_objs)@,
                        oids@.map_values(|item: Result<ObjectId, IterErr>| input_id(item)),
                        oids@.len(),
                    ).listed,
                    allow_pack_lookups,
                )
            },
            Err(Error::InputIteration(err)) => exists|i: int|
                0 <= i < oids@.len() && oids@[i] == Err::<ObjectId, IterErr>(err),
            Err(_) => oids@.len() > 0,
        },
        counts matches Err(Error::CommitDecode { id }) ==> not_a_commit(db, id@),
        counts matches Err(Error::TagDecode { id }) ==> not_a_tag(db, id@),
        counts matches Err(Error::FindExisting(ExistingError::NotFound { id })) ==> some_leads_to(
            db,
            input_object_expansion,
            oids@.map_values(|item: Result<ObjectId, IterErr>| input_id(item)),
            id@,
        ),
{
    let ghost before = seen_objs@;
    let ghost all = oids@;
    let ghost ids = all.map_values(|item: Result<ObjectId, IterErr>| input_id(item));
    let total = oids.len();
    let mut out: Vec<Count> = Vec::new();
    let mut outcome = Outcome::default();
    let as_is = input_object_expansion == ObjectExpansion::AsIs;
    proof {
        assert(out@ =~= Seq::<Count>::empty());
        lemma_placed_nothing(db, Seq::<Count>::empty(), allow_pack_lookups);
        assert(ids_of(out@) =~= Seq::<Seq<u8>>::empty());
        assert(before.union(ids_of(out@).to_set()) =~= before);
        assert(ids.take(0) =~= Seq::<Seq<u8>>::empty());
    }
    for item in it: oids
        invariant
            input_object_expansion == ObjectExpansion::TreeAdditionsComparedToAncestor
                ==> trees_nest(db),
            it.seq() == all,
            all.len() == total,
            ids == all.map_values(|item: Result<ObjectId, IterErr>| input_id(item)),
            before == old(seen_objs)@,
            as_is == (input_object_expansion == ObjectExpansion::AsIs),
            counted(before, out@, seen_objs@),
            tallied(out@.len() as int, outcome),
            outcome.input_objects == it.index(),
            before.subset_of(seen_objs@),
            forall|i: int| 0 <= i < it.index() ==> (#[trigger] all[i]) is Ok,
            forall|i: int| 0 <= i < it.index() ==> seen_objs@.contains(input_id(#[trigger] all[i])),
            as_is ==> outcome.expanded_objects == 0 && ids_of(out@) == first_unseen(
                before,
                ids.take(it.index() as int),
            ) && seen_objs@ == before.union(ids.take(it.index() as int).to_set()),
            seen_objs@ == expanded(db, input_object_expansion, before, ids, it.index() as nat).seen,
            gives(
                out@,
                outcome,
                expanded(db, input_object_expansion, before, ids, it.index() as nat),
            ),
            placed(
                db,
                Seq::empty(),
                out@,
                expanded(db, input_object_expansion, before, ids, it.index() as nat).listed,
                allow_pack_lookups,
            ),
    {
        let ghost n = outcome.input_objects as int;
        let ghost gain_then = expanded(db, input_object_expansion, before, ids, n as nat);
        let ghost out_start = out@;
        let ghost seen_start = seen_objs@;
        assert(item == all[n]);
        assert(ids[n] == input_id(item));
        assert(expanded(db, input_object_expansion, before, ids, (n + 1) as nat) == then(
            gain_then,
            one(db, input_object_expansion, gain_then.seen, ids[n]),
        ));
        let interrupted = is_set(should_interrupt);
        let id = match next_input::<F::Error, IterErr>(interrupted, item) {
            Ok(id) => id,
            Err(err) => {
                return Err(err);
            },
        };
        let obj = match find(db, &id, buf1, cache) {
            Ok(obj) => obj,
            Err(err) => {
                proof {
                    assert(resolved(db, id@, 0) == id@);
                    assert(near_commit(db, resolved(db, id@, 0), id@));
                    assert(leads_to(db, input_object_expansion, ids[n], id@));
                }
                return Err(Error::FindExisting(err));
            },
        };
        outcome.input_objects += 1;
        match input_object_expansion {
            ObjectExpansion::AsIs => {
                let ghost seen_then = seen_objs@;
                let ghost out_then = out@;
                push_obj_count_unique(
                    &mut out,
                    seen_objs,
                    &id,
                    &obj,
                    &mut outcome,
                    false,
                    Ghost(before),
                );
                proof {
                    let prefix = ids.take(n);
                    let longer = ids.take(n + 1);
                    assert(ids[n] == id@);
                    assert(longer.drop_last() =~= prefix);
                    assert(longer.last() == id@);
                    assert(seen_then.contains(id@) <==> (before.contains(id@) || prefix.contains(
                        id@,
                    )));
                    assert(seen_objs@ =~= before.union(longer.to_set())) by {
                        assert forall|x: Seq<u8>| longer.to_set().contains(x) <==> (
                        prefix.to_set().contains(x) || x == id@) by {
                            if longer.contains(x) {
                                let i = choose|i: int| 0 <= i < longer.len() && longer[i] == x;
                                if i < n {
                                    assert(prefix[i] == x);
                                }
                            }
                            if prefix.contains(x) {
                                let i = choose|i: int| 0 <= i < prefix.len() && prefix[i] == x;
                                assert(longer[i] == x);
                            }
                            if x == id@ {
                                assert(longer[n] == x);
                            }
                        }
                    }
                    if !seen_then.contains(id@) {
                        lemma_ids_push(
                            out_then,
                            Count {
                                id,
                                entry_pack_location: PackLocation::LookedUp(obj.pack_location),
                            },
                        );
                    }
                }
            },
            ObjectExpansion::TreeContents => {
                match expand_tree_contents::<F, IterErr>(
                    db,
                    seen_objs,
                    &mut out,
                    &mut outcome,
                    id,
                    obj,
                    buf1,
                    buf2,
                    cache,
                    allow_pack_lookups,
                    Ghost(before),
                ) {
                    Ok(()) => {},
                    Err(err) => {
                        proof {
                            if let Error::FindExisting(ExistingError::NotFound { id: missing }) = err {
                                assert(leads_to(db, input_object_expansion, ids[n], missing@));
                            }
                        }
                        return Err(err);
                    },
                }
            },
            ObjectExpansion::TreeAdditionsComparedToAncestor => {
                match expand_tree_additions::<F, IterErr>(
                    db,
                    seen_objs,
                    &mut out,
                    &mut outcome,
                    id,
                    obj,
                    buf1,
                    buf2,
                    cache,
                    allow_pack_lookups,
                    Ghost(before),
                ) {
                    Ok(()) => {},
                    Err(err) => {
                        proof {
                            if let Error::FindExisting(ExistingError::NotFound { id: missing }) = err {
                                assert(leads_to(db, input_object_expansion, ids[n], missing@));
                            }
                        }
                        return Err(err);
                    },
                }
            },
        }
        proof {
            let step = one(db, input_object_expansion, seen_start, ids[n]);
            assert(ids_of(out@) == ids_of(out_start) + step.added);
            assert(seen_objs@ == step.seen);
            if input_object_expansion == ObjectExpansion::AsIs {
                lemma_placed_found(
                    db,
                    out_start,
                    out@,
                    seen_start,
                    ids[n],
                    true,
                    allow_pack_lookups,
                );
            }
            lemma_placed_then(
                db,
                Seq::empty(),
                out_start,
                gain_then.listed,
                out@,
                step.listed,
                allow_pack_lookups,
            );
        }
    }
    proof {
        assert(ids.take(total as int) =~= ids);
    }
    Ok((out, outcome))
}

} // verus!
