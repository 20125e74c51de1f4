//! What a tree holds, and that a walk of the tree counts exactly that.
use vstd::prelude::*;
use crate::count::model::{
    after_entries, after_walk, chain, contents_one, count, hop, hops_to_end, ends_hops,
    lemma_after_entries_holds, lemma_hops_end_once, lemma_walk_ends, lemma_walk_grows,
    lemma_walk_holds_listed, listing, nothing, ranks_trees, resolved, then, trees_nest, walk_done,
    walk_start, walked, Walk,
};
use crate::decode::{commit_tree, tree_entries, MODE_COMMIT, MODE_TREE};
use crate::find::Find;
use crate::object::Kind;

verus! {

/// Whether `entries` list `id`, and not as the commit of a submodule.
pub open spec fn lists_in(entries: Seq<(u16, Seq<u8>)>, id: Seq<u8>) -> bool {
    exists|at: int|
        0 <= at < entries.len() && (#[trigger] entries[at]).0 != MODE_COMMIT && entries[at].1 == id
}

/// Whether the tree with the entries `root` holds `id` at `depth` trees below it: the
/// tree lists it, or a tree that it holds one tree higher does.
pub open spec fn held_at<F: Find>(
    db: &F,
    root: Seq<(u16, Seq<u8>)>,
    id: Seq<u8>,
    depth: nat,
) -> bool
    decreases depth,
{
    if depth == 0 {
        lists_in(root, id)
    } else {
        exists|via: Seq<u8>|
            held_at(db, root, via, (depth - 1) as nat) && db.content(via).0 == Kind::Tree
                && #[trigger] lists_in(listing(db, via), id)
    }
}

/// Whether the tree with the entries `root` holds `id`: as one of the objects that it
/// lists, or below one of the trees that it holds.
pub open spec fn held<F: Find>(db: &F, root: Seq<(u16, Seq<u8>)>, id: Seq<u8>) -> bool {
    exists|depth: nat| held_at(db, root, id, depth)
}

/// Whether `entries` list trees as trees and nothing else as a tree.
pub open spec fn modes_agree<F: Find>(db: &F, entries: Seq<(u16, Seq<u8>)>) -> bool {
    forall|at: int|
        0 <= at < entries.len() && (#[trigger] entries[at]).0 != MODE_COMMIT ==> ((entries[at].0
            == MODE_TREE) == (db.content(entries[at].1).0 == Kind::Tree))
}

/// Whether every tree of the database decodes and lists trees as trees and nothing
/// else as a tree.
pub open spec fn sound_trees<F: Find>(db: &F) -> bool {
    forall|tree: Seq<u8>|
        db.content(tree).0 == Kind::Tree ==> tree_entries(db.content(tree).1) is Some
            && modes_agree(db, #[trigger] listing(db, tree))
}

/// Whether a walk from the tree with the entries `root` that started with `seen` has
/// seen nothing but what was seen or what the tree holds, has queued only trees that
/// the tree holds, and has queued every tree that it came to see.
pub open spec fn walk_sound<F: Find>(
    db: &F,
    seen: Set<Seq<u8>>,
    root: Seq<(u16, Seq<u8>)>,
    walk: Walk,
) -> bool {
    &&& forall|id: Seq<u8>| #[trigger]
        walk.gain.seen.contains(id) ==> seen.contains(id) || held(db, root, id)
    &&& forall|k: int|
        0 <= k < walk.queue.len() ==> held(db, root, #[trigger] walk.queue[k]) && db.content(
            walk.queue[k],
        ).0 == Kind::Tree
    &&& forall|id: Seq<u8>| #[trigger]
        walk.gain.seen.contains(id) && !seen.contains(id) && db.content(id).0 == Kind::Tree
            ==> walk.queue.contains(id)
}

/// Counting what held entries list keeps a walk sound.
pub proof fn lemma_entries_keep_sound<F: Find>(
    db: &F,
    seen: Set<Seq<u8>>,
    root: Seq<(u16, Seq<u8>)>,
    walk: Walk,
    entries: Seq<(u16, Seq<u8>)>,
)
    requires
        walk_sound(db, seen, root, walk),
        modes_agree(db, entries),
        forall|at: int|
            0 <= at < entries.len() && (#[trigger] entries[at]).0 != MODE_COMMIT ==> held(
                db,
                root,
                entries[at].1,
            ),
    ensures
        walk_sound(db, seen, root, after_entries(walk, entries)),
    decreases entries.len(),
{
    if entries.len() > 0 {
        let shorter = entries.drop_last();
        assert forall|at: int| 0 <= at < shorter.len() implies #[trigger] shorter[at] == entries[at] by {}
        assert(modes_agree(db, shorter)) by {
            assert forall|at: int|
                0 <= at < shorter.len() && (#[trigger] shorter[at]).0 != MODE_COMMIT implies ((
                shorter[at].0 == MODE_TREE) == (db.content(shorter[at].1).0 == Kind::Tree)) by {
                assert(shorter[at] == entries[at]);
            }
        }
        assert forall|at: int|
            0 <= at < shorter.len() && (#[trigger] shorter[at]).0 != MODE_COMMIT implies held(
            db,
            root,
            shorter[at].1,
        ) by {
            assert(shorter[at] == entries[at]);
        }
        lemma_entries_keep_sound(db, seen, root, walk, shorter);
        let before = after_entries(walk, shorter);
        let after = after_entries(walk, entries);
        let (mode, id) = entries.last();
        assert(entries[entries.len() - 1] == (mode, id));
        if !(mode == MODE_COMMIT || before.gain.seen.contains(id)) {
            assert(held(db, root, id));
            assert(after.gain.seen == before.gain.seen.insert(id));
            assert forall|k: int| 0 <= k < after.queue.len() implies held(
                db,
                root,
                #[trigger] after.queue[k],
            ) && db.content(after.queue[k]).0 == Kind::Tree by {
                if k < before.queue.len() {
                    assert(after.queue[k] == before.queue[k]);
                }
            }
            assert forall|x: Seq<u8>| #[trigger]
                after.gain.seen.contains(x) && !seen.contains(x) && db.content(x).0
                    == Kind::Tree implies after.queue.contains(x) by {
                if x == id {
                    assert(mode == MODE_TREE);
                    assert(after.queue[after.queue.len() - 1] == id);
                } else {
                    assert(before.queue.contains(x));
                    let k = choose|k: int| 0 <= k < before.queue.len() && before.queue[k] == x;
                    assert(after.queue[k] == x);
                }
            }
        }
    }
}

/// What a tree lists that is held is held.
pub proof fn lemma_listed_is_held<F: Find>(
    db: &F,
    root: Seq<(u16, Seq<u8>)>,
    tree: Seq<u8>,
    id: Seq<u8>,
)
    requires
        held(db, root, tree),
        db.content(tree).0 == Kind::Tree,
        lists_in(listing(db, tree), id),
    ensures
        held(db, root, id),
{
    let depth = choose|depth: nat| held_at(db, root, tree, depth);
    let deeper: nat = depth + 1;
    assert((deeper - 1) as nat == depth);
    assert(held_at(db, root, id, deeper));
}

/// A walk that starts sound stays sound.
pub proof fn lemma_walk_stays_sound<F: Find>(
    db: &F,
    seen: Set<Seq<u8>>,
    root: Seq<(u16, Seq<u8>)>,
    start: Walk,
    steps: nat,
)
    requires
        walk_sound(db, seen, root, start),
        sound_trees(db),
    ensures
        walk_sound(db, seen, root, walked(db, start, steps)),
    decreases steps,
{
    if steps > 0 {
        lemma_walk_stays_sound(db, seen, root, start, (steps - 1) as nat);
        let before = walked(db, start, (steps - 1) as nat);
        if steps - 1 < before.queue.len() {
            let tree = before.queue[steps - 1];
            let entries = listing(db, tree);
            assert(modes_agree(db, listing(db, tree)));
            assert forall|at: int|
                0 <= at < entries.len() && (#[trigger] entries[at]).0 != MODE_COMMIT implies held(
                db,
                root,
                entries[at].1,
            ) by {
                assert(lists_in(entries, entries[at].1));
                lemma_listed_is_held(db, root, tree, entries[at].1);
            }
            lemma_entries_keep_sound(db, seen, root, before, entries);
        }
    }
}

/// A walk from a tree starts sound.
pub proof fn lemma_walk_starts_sound<F: Find>(db: &F, seen: Set<Seq<u8>>, root: Seq<u8>)
    requires
        modes_agree(db, tree_entries(root)->Some_0),
    ensures
        walk_sound(db, seen, tree_entries(root)->Some_0, walk_start(seen, root)),
{
    let entries = tree_entries(root)->Some_0;
    let fresh = Walk { gain: nothing(seen), queue: Seq::empty() };
    assert forall|at: int|
        0 <= at < entries.len() && (#[trigger] entries[at]).0 != MODE_COMMIT implies held(
        db,
        entries,
        entries[at].1,
    ) by {
        assert(lists_in(entries, entries[at].1));
        assert(held_at(db, entries, entries[at].1, 0));
    }
    lemma_entries_keep_sound(db, seen, entries, fresh, entries);
}

/// What a tree holds is seen by a walk of the tree that has read all queued trees.
pub proof fn lemma_held_is_seen<F: Find>(
    db: &F,
    seen: Set<Seq<u8>>,
    root: Seq<u8>,
    steps: nat,
    id: Seq<u8>,
    depth: nat,
)
    requires
        walk_done(db, walk_start(seen, root), steps),
        modes_agree(db, tree_entries(root)->Some_0),
        sound_trees(db),
        forall|tree: Seq<u8>|
            seen.contains(tree) && db.content(tree).0 == Kind::Tree ==> !#[trigger] held(
                db,
                tree_entries(root)->Some_0,
                tree,
            ),
        held_at(db, tree_entries(root)->Some_0, id, depth),
    ensures
        walked(db, walk_start(seen, root), steps).gain.seen.contains(id),
    decreases depth,
{
    let entries = tree_entries(root)->Some_0;
    let start = walk_start(seen, root);
    let end = walked(db, start, steps);
    if depth == 0 {
        lemma_after_entries_holds(Walk { gain: nothing(seen), queue: Seq::empty() }, entries);
        let at = choose|at: int|
            0 <= at < entries.len() && (#[trigger] entries[at]).0 != MODE_COMMIT && entries[at].1
                == id;
        assert(start.gain.seen.contains(entries[at].1));
        lemma_walk_grows(db, start, 0, steps);
        assert(walked(db, start, 0) == start);
    } else {
        let via = choose|via: Seq<u8>|
            held_at(db, entries, via, (depth - 1) as nat) && db.content(via).0 == Kind::Tree
                && #[trigger] lists_in(listing(db, via), id);
        lemma_held_is_seen(db, seen, root, steps, via, (depth - 1) as nat);
        assert(held(db, entries, via));
        assert(!seen.contains(via));
        lemma_walk_starts_sound(db, seen, root);
        lemma_walk_stays_sound(db, seen, entries, start, steps);
        assert(end.queue.contains(via));
        let k = choose|k: int| 0 <= k < end.queue.len() && end.queue[k] == via;
        lemma_walk_holds_listed(db, start, steps, k);
        let listed = listing(db, via);
        let at = choose|at: int|
            0 <= at < listed.len() && (#[trigger] listed[at]).0 != MODE_COMMIT && listed[at].1 == id;
        assert(end.gain.seen.contains(listed[at].1));
    }
}

/// A walk of a tree sees exactly what the tree holds, beside what was seen before: each
/// object that the tree lists or that a tree below it lists, submodule commits aside.
/// It is so where the trees of the database decode and list trees as trees, and where
/// no tree that was seen before is held by the tree.
pub proof fn lemma_walk_sees_what_is_held<F: Find>(
    db: &F,
    seen: Set<Seq<u8>>,
    root: Seq<u8>,
    steps: nat,
)
    requires
        walk_done(db, walk_start(seen, root), steps),
        modes_agree(db, tree_entries(root)->Some_0),
        sound_trees(db),
        forall|tree: Seq<u8>|
            seen.contains(tree) && db.content(tree).0 == Kind::Tree ==> !#[trigger] held(
                db,
                tree_entries(root)->Some_0,
                tree,
            ),
    ensures
        forall|id: Seq<u8>| #[trigger]
            after_walk(db, seen, root).seen.contains(id) <==> seen.contains(id) || held(
                db,
                tree_entries(root)->Some_0,
                id,
            ),
{
    let entries = tree_entries(root)->Some_0;
    let start = walk_start(seen, root);
    let end = walked(db, start, steps);
    lemma_walk_ends(db, start, steps);
    lemma_walk_starts_sound(db, seen, root);
    lemma_walk_stays_sound(db, seen, entries, start, steps);
    lemma_walk_grows(db, start, 0, steps);
    lemma_after_entries_holds(Walk { gain: nothing(seen), queue: Seq::empty() }, entries);
    assert(walked(db, start, 0) == start);
    assert forall|id: Seq<u8>| #[trigger]
        after_walk(db, seen, root).seen.contains(id) <==> seen.contains(id) || held(
            db,
            entries,
            id,
        ) by {
        if held(db, entries, id) {
            let depth = choose|depth: nat| held_at(db, entries, id, depth);
            lemma_held_is_seen(db, seen, root, steps, id, depth);
        }
        if seen.contains(id) {
            assert(start.gain.seen.contains(id));
        }
    }
}

/// A tree that is held ranks below the tree that holds it.
pub proof fn lemma_held_ranks_below<F: Find>(
    db: &F,
    rank: spec_fn(Seq<u8>) -> nat,
    tree: Seq<u8>,
    id: Seq<u8>,
    depth: nat,
)
    requires
        ranks_trees(db, rank),
        sound_trees(db),
        db.content(tree).0 == Kind::Tree,
        db.content(id).0 == Kind::Tree,
        held_at(db, listing(db, tree), id, depth),
    ensures
        rank(id) < rank(tree),
    decreases depth,
{
    if depth == 0 {
        let entries = listing(db, tree);
        assert(modes_agree(db, listing(db, tree)));
        let at = choose|at: int|
            0 <= at < entries.len() && (#[trigger] entries[at]).0 != MODE_COMMIT && entries[at].1
                == id;
        assert(entries[at].0 == MODE_TREE);
        assert(listing(db, tree)[at].0 == MODE_TREE);
    } else {
        let via = choose|via: Seq<u8>|
            held_at(db, listing(db, tree), via, (depth - 1) as nat) && db.content(via).0
                == Kind::Tree && #[trigger] lists_in(listing(db, via), id);
        lemma_held_ranks_below(db, rank, tree, via, (depth - 1) as nat);
        let entries = listing(db, via);
        assert(modes_agree(db, listing(db, via)));
        let at = choose|at: int|
            0 <= at < entries.len() && (#[trigger] entries[at]).0 != MODE_COMMIT && entries[at].1
                == id;
        assert(entries[at].0 == MODE_TREE);
        assert(listing(db, via)[at].0 == MODE_TREE);
    }
}

/// Counting a commit with all that its tree holds, with nothing seen before, sees the
/// commit, its tree and what the tree holds, and nothing else. It is so where the
/// trees of the database decode, list trees as trees and nest to a bounded depth.
pub proof fn lemma_contents_are_what_is_held<F: Find>(db: &F, id: Seq<u8>, steps: nat)
    requires
        db.content(id).0 == Kind::Commit,
        db.content(commit_tree(db.content(id).1)->Some_0).0 == Kind::Tree,
        sound_trees(db),
        trees_nest(db),
        walk_done(
            db,
            walk_start(
                Set::<Seq<u8>>::empty().insert(id).insert(commit_tree(db.content(id).1)->Some_0),
                db.content(commit_tree(db.content(id).1)->Some_0).1,
            ),
            steps,
        ),
    ensures
        forall|x: Seq<u8>| #[trigger]
            contents_one(db, Set::empty(), id).seen.contains(x) <==> x == id || x == commit_tree(
                db.content(id).1,
            )->Some_0 || held(db, listing(db, commit_tree(db.content(id).1)->Some_0), x),
{
    let tree = commit_tree(db.content(id).1)->Some_0;
    let none = Set::<Seq<u8>>::empty();
    assert(resolved(db, id, 0) == id);
    assert(resolved(db, id, 1) == hop(db, resolved(db, id, 0)));
    assert(hops_to_end(db, id, true, 1)) by {
        assert forall|j: nat| j < 1 implies !ends_hops(db, #[trigger] resolved(db, id, j), true) by {
            assert(j == 0);
        }
    }
    lemma_hops_end_once(db, id, true, 1);
    let first = count(none, id, true);
    assert(chain(db, none, id, 0) == first);
    let counted = chain(db, none, id, 1);
    assert(counted == then(first, count(first.seen, tree, false)));
    let seen = none.insert(id).insert(tree);
    assert(counted.seen =~= seen);
    let rank = choose|rank: spec_fn(Seq<u8>) -> nat| ranks_trees(db, rank);
    assert(modes_agree(db, listing(db, tree)));
    assert forall|t: Seq<u8>| seen.contains(t) && db.content(t).0 == Kind::Tree implies !#[trigger] held(
        db,
        listing(db, tree),
        t,
    ) by {
        if held(db, listing(db, tree), t) {
            let depth = choose|depth: nat| held_at(db, listing(db, tree), t, depth);
            assert(t == tree);
            lemma_held_ranks_below(db, rank, tree, t, depth);
        }
    }
    lemma_walk_sees_what_is_held(db, seen, db.content(tree).1, steps);
}

} // verus!
