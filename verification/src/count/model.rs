//! What counting gives, as a function of the starting ids, of what was seen before and
//! of the content that ids name.
use vstd::prelude::*;
use crate::count::types::ObjectExpansion;
use crate::decode::{
    commit_tokens_after_tree, commit_tree, leading_parents_of, tag_target, tree_entries,
    well_framed, MODE_COMMIT, MODE_TREE,
};
use crate::find::Find;
use crate::object::Kind;

verus! {

/// How one entry differs between two trees.
#[derive(Clone, Copy, Debug, PartialEq, Eq, Structural)]
pub enum ChangeKind {
    /// Only the second tree has the entry.
    Addition,
    /// Only the first tree has the entry.
    Deletion,
    /// Both trees have the entry, with different contents or modes.
    Modification,
}

/// What a step of counting gives: the ids that are seen after it, the ids that it
/// counted, in their order, how many of these were starting ids, and for each whether
/// it was counted from the listing of a tree or of a comparison without being looked up
/// itself.
pub struct Gain {
    pub seen: Set<Seq<u8>>,
    pub added: Seq<Seq<u8>>,
    pub roots: nat,
    pub listed: Seq<bool>,
}

/// No step.
pub open spec fn nothing(seen: Set<Seq<u8>>) -> Gain {
    Gain { seen, added: Seq::empty(), roots: 0, listed: Seq::empty() }
}

/// Counting `id` from a listing unless it was seen. An object that is `read` later, as
/// the trees are that a walk queues, is looked up then.
pub open spec fn count_listed(seen: Set<Seq<u8>>, id: Seq<u8>, read: bool) -> Gain {
    if seen.contains(id) {
        nothing(seen)
    } else {
        Gain { seen: seen.insert(id), added: seq![id], roots: 0, listed: seq![!read] }
    }
}

/// Counting `id` unless it was seen, as a starting id or not.
pub open spec fn count(seen: Set<Seq<u8>>, id: Seq<u8>, root: bool) -> Gain {
    if seen.contains(id) {
        nothing(seen)
    } else {
        Gain {
            seen: seen.insert(id),
            added: seq![id],
            roots: if root {
                1
            } else {
                0
            },
            listed: seq![false],
        }
    }
}

/// One step after another.
pub open spec fn then(first: Gain, second: Gain) -> Gain {
    Gain {
        seen: second.seen,
        added: first.added + second.added,
        roots: first.roots + second.roots,
        listed: first.listed + second.listed,
    }
}

/// The trees that are still to be read, beside what was gained.
pub struct Walk {
    pub gain: Gain,
    pub queue: Seq<Seq<u8>>,
}

/// Counting what `entries` list, in their order: each object that was not seen, but no
/// submodule commit. Trees that are counted are queued.
pub open spec fn after_entries(walk: Walk, entries: Seq<(u16, Seq<u8>)>) -> Walk
    decreases entries.len(),
{
    if entries.len() == 0 {
        walk
    } else {
        let before = after_entries(walk, entries.drop_last());
        let (mode, id) = entries.last();
        if mode == MODE_COMMIT || before.gain.seen.contains(id) {
            before
        } else {
            Walk {
                gain: then(before.gain, count_listed(before.gain.seen, id, mode == MODE_TREE)),
                queue: if mode == MODE_TREE {
                    before.queue.push(id)
                } else {
                    before.queue
                },
            }
        }
    }
}

/// What the tree `id` lists.
pub open spec fn listing<F: Find>(db: &F, id: Seq<u8>) -> Seq<(u16, Seq<u8>)> {
    tree_entries(db.content(id).1)->Some_0
}

/// The walk after the first `steps` queued trees were read.
pub open spec fn walked<F: Find>(db: &F, start: Walk, steps: nat) -> Walk
    decreases steps,
{
    if steps == 0 {
        start
    } else {
        let before = walked(db, start, (steps - 1) as nat);
        if steps - 1 < before.queue.len() {
            after_entries(before, listing(db, before.queue[steps - 1]))
        } else {
            before
        }
    }
}

/// Whether all queued trees were read after `steps` steps.
pub open spec fn walk_done<F: Find>(db: &F, start: Walk, steps: nat) -> bool {
    walked(db, start, steps).queue.len() <= steps
}

/// Whether `data` reads as a tree: it is framed as one, and each entry decodes.
pub open spec fn decodes(data: Seq<u8>) -> bool {
    well_framed(data) && tree_entries(data) is Some
}

/// The walk of the tree with the data `root` before any queued tree was read: what the
/// tree lists is counted, and the trees among that are queued.
pub open spec fn walk_start(seen: Set<Seq<u8>>, root: Seq<u8>) -> Walk {
    after_entries(Walk { gain: nothing(seen), queue: Seq::empty() }, tree_entries(root)->Some_0)
}

/// Whether the tree `id` is the one that the walk reads after `steps` trees.
pub open spec fn reads_at<F: Find>(db: &F, start: Walk, steps: nat, id: Seq<u8>) -> bool {
    steps < walked(db, start, steps).queue.len() && walked(db, start, steps).queue[steps as int]
        == id
}

/// Whether the walk comes to read the tree `id`.
pub open spec fn walk_reads<F: Find>(db: &F, start: Walk, id: Seq<u8>) -> bool {
    exists|steps: nat| reads_at(db, start, steps, id)
}

/// What a walk from the tree with the data `root` gains: all that the tree holds and
/// that was not seen, reached through trees that were not seen, breadth first.
pub open spec fn after_walk<F: Find>(db: &F, seen: Set<Seq<u8>>, root: Seq<u8>) -> Gain {
    let start = after_entries(
        Walk { gain: nothing(seen), queue: Seq::empty() },
        tree_entries(root)->Some_0,
    );
    walked(db, start, choose|steps: nat| walk_done(db, start, steps)).gain
}

/// Where a tag or a commit leads: a tag to its target, a commit to its tree.
pub open spec fn hop<F: Find>(db: &F, id: Seq<u8>) -> Seq<u8> {
    match db.content(id).0 {
        Kind::Commit => commit_tree(db.content(id).1)->Some_0,
        Kind::Tag => tag_target(db.content(id).1)->Some_0,
        _ => id,
    }
}

/// The object that `id` leads to after `hops` hops.
pub open spec fn resolved<F: Find>(db: &F, id: Seq<u8>, hops: nat) -> Seq<u8>
    decreases hops,
{
    if hops == 0 {
        id
    } else {
        hop(db, resolved(db, id, (hops - 1) as nat))
    }
}

/// Whether hops end at `id`: whether `follow_commits` is set or not, they end at trees
/// and blobs; where it is not set, they end at commits too.
pub open spec fn ends_hops<F: Find>(db: &F, id: Seq<u8>, follow_commits: bool) -> bool {
    match db.content(id).0 {
        Kind::Tree | Kind::Blob => true,
        Kind::Commit => !follow_commits,
        Kind::Tag => false,
    }
}

/// Whether `hops` is the number of hops from `id` to the first object that ends them.
pub open spec fn hops_to_end<F: Find>(db: &F, id: Seq<u8>, follow_commits: bool, hops: nat) -> bool {
    ends_hops(db, resolved(db, id, hops), follow_commits) && forall|j: nat|
        j < hops ==> !ends_hops(db, #[trigger] resolved(db, id, j), follow_commits)
}

/// Counting the starting id `id` and the objects that it leads to in `hops` hops.
pub open spec fn chain<F: Find>(db: &F, seen: Set<Seq<u8>>, id: Seq<u8>, hops: nat) -> Gain
    decreases hops,
{
    if hops == 0 {
        count(seen, id, true)
    } else {
        let before = chain(db, seen, id, (hops - 1) as nat);
        then(before, count(before.seen, resolved(db, id, hops), false))
    }
}

/// What a starting id gains where trees are counted with all they hold: the id, what
/// it leads to, and what the tree at the end holds.
pub open spec fn contents_one<F: Find>(db: &F, seen: Set<Seq<u8>>, id: Seq<u8>) -> Gain {
    let hops = choose|hops: nat| hops_to_end(db, id, true, hops);
    let counted = chain(db, seen, id, hops);
    let last = resolved(db, id, hops);
    if db.content(last).0 == Kind::Tree {
        then(counted, after_walk(db, counted.seen, db.content(last).1))
    } else {
        counted
    }
}

/// Whether `id` is the commit `commit`, its tree, one of its parents or the tree of one
/// of its parents: the objects that the database is asked for when the tree of a commit
/// is compared with those of its parents.
pub open spec fn near_commit<F: Find>(db: &F, commit: Seq<u8>, id: Seq<u8>) -> bool {
    let parents = leading_parents_of(commit_tokens_after_tree(db.content(commit).1))->Some_0;
    id == commit || id == commit_tree(db.content(commit).1)->Some_0 || exists|k: int|
        0 <= k < parents.len() && (id == #[trigger] parents[k] || id == commit_tree(
            db.content(parents[k]).1,
        )->Some_0)
}

/// Whether the starting id `start` leads to `id`: it is the id itself, or with trees
/// counted an object that tags and commits lead to from it, or with trees compared an
/// object near a commit that tags lead to from it.
pub open spec fn leads_to<F: Find>(
    db: &F,
    expansion: ObjectExpansion,
    start: Seq<u8>,
    id: Seq<u8>,
) -> bool {
    match expansion {
        ObjectExpansion::AsIs => id == start,
        ObjectExpansion::TreeContents => exists|hops: nat| #[trigger]
            resolved(db, start, hops) == id,
        ObjectExpansion::TreeAdditionsComparedToAncestor => exists|hops: nat|
            near_commit(db, #[trigger] resolved(db, start, hops), id),
    }
}

/// Whether one of the starting ids `ids` leads to `id`.
pub open spec fn some_leads_to<F: Find>(
    db: &F,
    expansion: ObjectExpansion,
    ids: Seq<Seq<u8>>,
    id: Seq<u8>,
) -> bool {
    exists|i: int| 0 <= i < ids.len() && leads_to(db, expansion, #[trigger] ids[i], id)
}

/// Whether `rank` bounds how deep the trees of the database nest: a tree that another
/// tree lists ranks below it.
pub open spec fn ranks_trees<F: Find>(db: &F, rank: spec_fn(Seq<u8>) -> nat) -> bool {
    forall|tree: Seq<u8>, at: int|
        db.content(tree).0 == Kind::Tree && tree_entries(db.content(tree).1) is Some && 0 <= at
            < listing(db, tree).len() && (#[trigger] listing(db, tree)[at]).0 == MODE_TREE ==> rank(
            listing(db, tree)[at].1,
        ) < rank(tree)
}

/// Whether the trees of the database nest to a depth that is bounded for each tree, so
/// that no tree holds itself, directly or through the trees that it lists. It is so
/// where an id is the hash of the content that it names.
pub open spec fn trees_nest<F: Find>(db: &F) -> bool {
    exists|rank: spec_fn(Seq<u8>) -> nat| ranks_trees(db, rank)
}

/// The content of all ids, as a map.
pub open spec fn contents<F: Find>(db: &F) -> Map<Seq<u8>, (Kind, Seq<u8>)> {
    Map::total(|id: Seq<u8>| db.content(id))
}

/// The changes that turn the tree with the data `from` into the tree with the data
/// `to`, in the order in which the comparison reports them, where the trees below the
/// two are those that `contents` gives.
pub uninterp spec fn tree_changes(
    contents: Map<Seq<u8>, (Kind, Seq<u8>)>,
    from: Seq<u8>,
    to: Seq<u8>,
) -> Seq<(ChangeKind, u16, Seq<u8>)>;

/// Counting what `changes` add, in their order: the object of each addition and
/// modification that was not seen, but no submodule commit.
pub open spec fn after_changes(gain: Gain, changes: Seq<(ChangeKind, u16, Seq<u8>)>) -> Gain
    decreases changes.len(),
{
    if changes.len() == 0 {
        gain
    } else {
        let before = after_changes(gain, changes.drop_last());
        let (kind, mode, id) = changes.last();
        if kind == ChangeKind::Deletion || mode == MODE_COMMIT {
            before
        } else {
            then(before, count_listed(before.seen, id, false))
        }
    }
}

/// Whether the data of `id` does not read as a commit: it names no tree, or what
/// follows the tree is no list of parents.
pub open spec fn not_a_commit<F: Find>(db: &F, id: Seq<u8>) -> bool {
    commit_tree(db.content(id).1) is None || leading_parents_of(
        commit_tokens_after_tree(db.content(id).1),
    ) is None
}

/// Whether the data of `id` does not read as a tag with a target.
pub open spec fn not_a_tag<F: Find>(db: &F, id: Seq<u8>) -> bool {
    tag_target(db.content(id).1) is None
}

/// Counting one parent of a commit with the tree `tree`: the parent, its tree, and
/// what `tree` adds to that.
pub open spec fn parent_step<F: Find>(
    db: &F,
    seen: Set<Seq<u8>>,
    tree: Seq<u8>,
    parent: Seq<u8>,
) -> Gain {
    let with_parent = count(seen, parent, false);
    let parent_tree = commit_tree(db.content(parent).1)->Some_0;
    let with_tree = then(with_parent, count(with_parent.seen, parent_tree, false));
    then(
        with_tree,
        after_changes(
            nothing(with_tree.seen),
            tree_changes(contents(db), db.content(parent_tree).1, db.content(tree).1),
        ),
    )
}

/// Counting the first `count` of `parents` of a commit with the tree `tree`: each
/// parent, its tree, and what `tree` adds to that.
pub open spec fn after_parents<F: Find>(
    db: &F,
    gain: Gain,
    tree: Seq<u8>,
    parents: Seq<Seq<u8>>,
    upto: nat,
) -> Gain
    decreases upto,
{
    if upto == 0 {
        gain
    } else {
        let before = after_parents(db, gain, tree, parents, (upto - 1) as nat);
        let parent = parents[upto - 1];
        let with_parent = then(before, count(before.seen, parent, false));
        let parent_tree = commit_tree(db.content(parent).1)->Some_0;
        let with_tree = then(with_parent, count(with_parent.seen, parent_tree, false));
        after_changes(
            with_tree,
            tree_changes(contents(db), db.content(parent_tree).1, db.content(tree).1),
        )
    }
}

/// What the commit `id` gains beyond itself where additions are counted: its tree, and
/// all that the tree holds where the commit has no parent, else the parents, their
/// trees and what the tree adds to each of them.
pub open spec fn commit_additions<F: Find>(db: &F, seen: Set<Seq<u8>>, id: Seq<u8>) -> Gain {
    let data = db.content(id).1;
    let tree = commit_tree(data)->Some_0;
    let parents = leading_parents_of(commit_tokens_after_tree(data))->Some_0;
    let with_tree = count(seen, tree, false);
    if parents.len() == 0 {
        then(with_tree, after_walk(db, with_tree.seen, db.content(tree).1))
    } else {
        after_parents(db, with_tree, tree, parents, parents.len())
    }
}

/// What a starting id gains where additions are counted: the id and the tags that lead
/// from it to a commit, and what the commit gains.
pub open spec fn additions_one<F: Find>(db: &F, seen: Set<Seq<u8>>, id: Seq<u8>) -> Gain {
    let hops = choose|hops: nat| hops_to_end(db, id, false, hops);
    let counted = chain(db, seen, id, hops);
    let last = resolved(db, id, hops);
    if db.content(last).0 == Kind::Commit {
        then(counted, commit_additions(db, counted.seen, last))
    } else {
        counted
    }
}

/// What one starting id gains under `expansion`.
pub open spec fn one<F: Find>(
    db: &F,
    expansion: ObjectExpansion,
    seen: Set<Seq<u8>>,
    id: Seq<u8>,
) -> Gain {
    match expansion {
        ObjectExpansion::AsIs => count(seen, id, true),
        ObjectExpansion::TreeContents => contents_one(db, seen, id),
        ObjectExpansion::TreeAdditionsComparedToAncestor => additions_one(db, seen, id),
    }
}

/// What the first `upto` of the starting ids `ids` gain under `expansion`, one after
/// the other.
pub open spec fn expanded<F: Find>(
    db: &F,
    expansion: ObjectExpansion,
    seen: Set<Seq<u8>>,
    ids: Seq<Seq<u8>>,
    upto: nat,
) -> Gain
    decreases upto,
{
    if upto == 0 {
        nothing(seen)
    } else {
        let before = expanded(db, expansion, seen, ids, (upto - 1) as nat);
        then(before, one(db, expansion, before.seen, ids[upto - 1]))
    }
}

/// Counting entries goes on from what was gained: it gains what it would gain from
/// what was seen so far, and queues what it would queue.
pub proof fn lemma_after_entries_goes_on(walk: Walk, entries: Seq<(u16, Seq<u8>)>)
    ensures
        after_entries(walk, entries) == (Walk {
            gain: then(
                walk.gain,
                after_entries(
                    Walk { gain: nothing(walk.gain.seen), queue: Seq::empty() },
                    entries,
                ).gain,
            ),
            queue: walk.queue + after_entries(
                Walk { gain: nothing(walk.gain.seen), queue: Seq::empty() },
                entries,
            ).queue,
        }),
    decreases entries.len(),
{
    let fresh = Walk { gain: nothing(walk.gain.seen), queue: Seq::empty() };
    if entries.len() == 0 {
        assert(walk.gain.added + Seq::<Seq<u8>>::empty() =~= walk.gain.added);
        assert(walk.gain.listed + Seq::<bool>::empty() =~= walk.gain.listed);
        assert(walk.queue + Seq::<Seq<u8>>::empty() =~= walk.queue);
    } else {
        lemma_after_entries_goes_on(walk, entries.drop_last());
        let a = after_entries(walk, entries.drop_last());
        let b = after_entries(fresh, entries.drop_last());
        let (mode, id) = entries.last();
        assert(a.gain.seen == b.gain.seen);
        if !(mode == MODE_COMMIT || a.gain.seen.contains(id)) {
            assert(walk.gain.added + (b.gain.added + seq![id]) =~= (walk.gain.added
                + b.gain.added) + seq![id]);
            assert(walk.gain.listed + (b.gain.listed + seq![mode != MODE_TREE])
                =~= (walk.gain.listed + b.gain.listed) + seq![mode != MODE_TREE]);
            if mode == MODE_TREE {
                assert(walk.queue + b.queue.push(id) =~= (walk.queue + b.queue).push(id));
            }
        }
    }
}

/// Counting changes goes on from what was gained.
pub proof fn lemma_after_changes_goes_on(gain: Gain, changes: Seq<(ChangeKind, u16, Seq<u8>)>)
    ensures
        after_changes(gain, changes) == then(gain, after_changes(nothing(gain.seen), changes)),
    decreases changes.len(),
{
    if changes.len() == 0 {
        assert(gain.added + Seq::<Seq<u8>>::empty() =~= gain.added);
        assert(gain.listed + Seq::<bool>::empty() =~= gain.listed);
    } else {
        lemma_after_changes_goes_on(gain, changes.drop_last());
        let a = after_changes(gain, changes.drop_last());
        let b = after_changes(nothing(gain.seen), changes.drop_last());
        let (kind, mode, id) = changes.last();
        if !(kind == ChangeKind::Deletion || mode == MODE_COMMIT) {
            lemma_then_associative(gain, b, count_listed(b.seen, id, false));
        }
    }
}

/// Counting one more parent goes on from what the parents before it gained.
pub proof fn lemma_after_parents_step<F: Find>(
    db: &F,
    gain: Gain,
    tree: Seq<u8>,
    parents: Seq<Seq<u8>>,
    upto: nat,
)
    requires
        0 < upto <= parents.len(),
    ensures
        after_parents(db, gain, tree, parents, upto) == then(
            after_parents(db, gain, tree, parents, (upto - 1) as nat),
            parent_step(
                db,
                after_parents(db, gain, tree, parents, (upto - 1) as nat).seen,
                tree,
                parents[upto - 1],
            ),
        ),
{
    let before = after_parents(db, gain, tree, parents, (upto - 1) as nat);
    let parent = parents[upto - 1];
    let with_parent = count(before.seen, parent, false);
    let parent_tree = commit_tree(db.content(parent).1)->Some_0;
    let with_tree = count(with_parent.seen, parent_tree, false);
    let changes = tree_changes(contents(db), db.content(parent_tree).1, db.content(tree).1);
    let a = then(then(before, with_parent), with_tree);
    lemma_after_changes_goes_on(a, changes);
    let rest = after_changes(nothing(a.seen), changes);
    lemma_then_associative(before, with_parent, with_tree);
    lemma_then_associative(before, then(with_parent, with_tree), rest);
}

/// A walk that has read all queued trees stays as it is.
pub proof fn lemma_walk_stays<F: Find>(db: &F, start: Walk, done: nat, later: nat)
    requires
        walk_done(db, start, done),
        done <= later,
    ensures
        walked(db, start, later) == walked(db, start, done),
    decreases later,
{
    if later > done {
        lemma_walk_stays(db, start, done, (later - 1) as nat);
    }
}

/// A walk that has read all queued trees after some steps has gained what a walk from
/// its root gains.
pub proof fn lemma_walk_ends<F: Find>(db: &F, start: Walk, steps: nat)
    requires
        walk_done(db, start, steps),
    ensures
        walked(db, start, choose|s: nat| walk_done(db, start, s)) == walked(db, start, steps),
{
    let chosen = choose|s: nat| walk_done(db, start, s);
    assert(walk_done(db, start, chosen));
    if chosen <= steps {
        lemma_walk_stays(db, start, chosen, steps);
    } else {
        lemma_walk_stays(db, start, steps, chosen);
    }
}

/// Hops end at one place only.
pub proof fn lemma_hops_end_once<F: Find>(db: &F, id: Seq<u8>, follow_commits: bool, hops: nat)
    requires
        hops_to_end(db, id, follow_commits, hops),
    ensures
        (choose|h: nat| hops_to_end(db, id, follow_commits, h)) == hops,
{
    let chosen = choose|h: nat| hops_to_end(db, id, follow_commits, h);
    assert(hops_to_end(db, id, follow_commits, chosen));
    if chosen < hops {
        assert(!ends_hops(db, resolved(db, id, chosen), follow_commits));
    } else if hops < chosen {
        assert(!ends_hops(db, resolved(db, id, hops), follow_commits));
    }
}

/// Steps one after the other are one step, however they are grouped.
pub proof fn lemma_then_associative(a: Gain, b: Gain, c: Gain)
    ensures
        then(then(a, b), c) == then(a, then(b, c)),
{
    assert((a.added + b.added) + c.added =~= a.added + (b.added + c.added));
    assert((a.listed + b.listed) + c.listed =~= a.listed + (b.listed + c.listed));
}

/// No step before or after a step is that step.
pub proof fn lemma_then_nothing(a: Gain)
    ensures
        then(a, nothing(a.seen)) == a,
        forall|seen: Set<Seq<u8>>| then(nothing(seen), a) == a,
{
    assert(a.added + Seq::<Seq<u8>>::empty() =~= a.added);
    assert(Seq::<Seq<u8>>::empty() + a.added =~= a.added);
    assert(a.listed + Seq::<bool>::empty() =~= a.listed);
    assert(Seq::<bool>::empty() + a.listed =~= a.listed);
}

/// Starting ids in two runs gain what they gain in one: the second run goes on from
/// what the first has seen.
pub proof fn lemma_expanded_in_runs<F: Find>(
    db: &F,
    expansion: ObjectExpansion,
    seen: Set<Seq<u8>>,
    first: Seq<Seq<u8>>,
    second: Seq<Seq<u8>>,
    upto: nat,
)
    requires
        upto <= second.len(),
    ensures
        expanded(db, expansion, seen, first + second, first.len() + upto) == then(
            expanded(db, expansion, seen, first, first.len()),
            expanded(
                db,
                expansion,
                expanded(db, expansion, seen, first, first.len()).seen,
                second,
                upto,
            ),
        ),
    decreases upto,
{
    let all = first + second;
    let head = expanded(db, expansion, seen, first, first.len());
    if upto == 0 {
        lemma_expanded_prefix(db, expansion, seen, first, all, first.len());
        lemma_then_nothing(head);
    } else {
        lemma_expanded_in_runs(db, expansion, seen, first, second, (upto - 1) as nat);
        let before = expanded(db, expansion, head.seen, second, (upto - 1) as nat);
        assert(all[first.len() + upto - 1] == second[upto - 1]);
        lemma_then_associative(head, before, one(db, expansion, before.seen, second[upto - 1]));
    }
}

/// What the first starting ids gain does not depend on those that follow.
pub proof fn lemma_expanded_prefix<F: Find>(
    db: &F,
    expansion: ObjectExpansion,
    seen: Set<Seq<u8>>,
    a: Seq<Seq<u8>>,
    b: Seq<Seq<u8>>,
    upto: nat,
)
    requires
        upto <= a.len(),
        upto <= b.len(),
        forall|i: int| 0 <= i < upto ==> a[i] == b[i],
    ensures
        expanded(db, expansion, seen, a, upto) == expanded(db, expansion, seen, b, upto),
    decreases upto,
{
    if upto > 0 {
        lemma_expanded_prefix(db, expansion, seen, a, b, (upto - 1) as nat);
    }
}

/// A commit without parents gains, where additions are counted, what it gains where
/// trees are counted with all they hold, as long as what it names as its tree is a tree.
pub proof fn lemma_additions_without_parent<F: Find>(db: &F, seen: Set<Seq<u8>>, id: Seq<u8>)
    requires
        is_initial_commit(db, id),
    ensures
        additions_one(db, seen, id) == contents_one(db, seen, id),
{
    let tree = commit_tree(db.content(id).1)->Some_0;
    assert(resolved(db, id, 0) == id);
    assert(resolved(db, id, 1) == hop(db, resolved(db, id, 0)));
    assert(hops_to_end(db, id, false, 0));
    assert(hops_to_end(db, id, true, 1)) by {
        assert forall|j: nat| j < 1 implies !ends_hops(db, #[trigger] resolved(db, id, j), true) by {
            assert(j == 0);
        }
    }
    lemma_hops_end_once(db, id, false, 0);
    lemma_hops_end_once(db, id, true, 1);
    let first = count(seen, id, true);
    assert(chain(db, seen, id, 0) == first);
    assert(chain(db, seen, id, 1) == then(first, count(first.seen, tree, false)));
    let with_tree = count(first.seen, tree, false);
    lemma_then_associative(first, with_tree, after_walk(db, with_tree.seen, db.content(tree).1));
}

/// Whether `seen` holds every object that `entries` list, submodule commits aside.
pub open spec fn holds_all(seen: Set<Seq<u8>>, entries: Seq<(u16, Seq<u8>)>) -> bool {
    forall|i: int|
        0 <= i < entries.len() && (#[trigger] entries[i]).0 != MODE_COMMIT ==> seen.contains(
            entries[i].1,
        )
}

/// Whether `longer` starts with `shorter`.
pub open spec fn starts_with(longer: Seq<Seq<u8>>, shorter: Seq<Seq<u8>>) -> bool {
    shorter.len() <= longer.len() && longer.take(shorter.len() as int) == shorter
}

/// Counting what entries list loses nothing that was seen or queued, and afterwards
/// all that they list is seen.
pub proof fn lemma_after_entries_holds(walk: Walk, entries: Seq<(u16, Seq<u8>)>)
    ensures
        walk.gain.seen.subset_of(after_entries(walk, entries).gain.seen),
        starts_with(after_entries(walk, entries).queue, walk.queue),
        holds_all(after_entries(walk, entries).gain.seen, entries),
    decreases entries.len(),
{
    if entries.len() == 0 {
        assert(walk.queue.take(walk.queue.len() as int) =~= walk.queue);
    } else {
        let shorter = entries.drop_last();
        lemma_after_entries_holds(walk, shorter);
        let before = after_entries(walk, shorter);
        let after = after_entries(walk, entries);
        assert(before.gain.seen.subset_of(after.gain.seen));
        assert(after.queue.take(walk.queue.len() as int) =~= before.queue.take(
            walk.queue.len() as int,
        ));
        assert forall|i: int| 0 <= i < entries.len() && (#[trigger] entries[i]).0
            != MODE_COMMIT implies after.gain.seen.contains(entries[i].1) by {
            if i < shorter.len() {
                assert(shorter[i] == entries[i]);
            }
        }
    }
}

/// A walk loses nothing that was seen or queued.
pub proof fn lemma_walk_grows<F: Find>(db: &F, start: Walk, earlier: nat, later: nat)
    requires
        earlier <= later,
    ensures
        walked(db, start, earlier).gain.seen.subset_of(walked(db, start, later).gain.seen),
        starts_with(walked(db, start, later).queue, walked(db, start, earlier).queue),
    decreases later,
{
    let from = walked(db, start, earlier);
    if later == earlier {
        assert(from.queue.take(from.queue.len() as int) =~= from.queue);
    } else {
        lemma_walk_grows(db, start, earlier, (later - 1) as nat);
        let before = walked(db, start, (later - 1) as nat);
        if later - 1 < before.queue.len() {
            lemma_after_entries_holds(before, listing(db, before.queue[later - 1]));
        } else {
            assert(before.queue.take(before.queue.len() as int) =~= before.queue);
        }
        let after = walked(db, start, later);
        assert(starts_with(after.queue, before.queue));
        assert(after.queue.take(from.queue.len() as int) =~= before.queue.take(
            from.queue.len() as int,
        )) by {
            assert(after.queue.take(before.queue.len() as int) == before.queue);
            assert forall|i: int| 0 <= i < from.queue.len() implies after.queue[i]
                == before.queue[i] by {
                assert(after.queue.take(before.queue.len() as int)[i] == after.queue[i]);
            }
        }
    }
}

/// A walk that has read all queued trees has seen all that these trees list: each
/// tree that it queued was read, and nothing that was seen is lost. Submodule commits
/// are never seen on this account.
pub proof fn lemma_walk_holds_listed<F: Find>(db: &F, start: Walk, steps: nat, at: int)
    requires
        walk_done(db, start, steps),
        0 <= at < walked(db, start, steps).queue.len(),
    ensures
        holds_all(
            walked(db, start, steps).gain.seen,
            listing(db, walked(db, start, steps).queue[at]),
        ),
{
    let end = walked(db, start, steps);
    let read = (at + 1) as nat;
    let before = walked(db, start, at as nat);
    lemma_walk_grows(db, start, at as nat, steps);
    lemma_walk_grows(db, start, read, steps);
    if at < before.queue.len() {
        assert(end.queue.take(before.queue.len() as int)[at] == end.queue[at]);
        lemma_after_entries_holds(before, listing(db, before.queue[at]));
        let entries = listing(db, end.queue[at]);
        assert(holds_all(walked(db, start, read).gain.seen, entries));
        assert forall|i: int| 0 <= i < entries.len() && (#[trigger] entries[i]).0
            != MODE_COMMIT implies end.gain.seen.contains(entries[i].1) by {
            assert(walked(db, start, read).gain.seen.contains(entries[i].1));
        }
    } else {
        assert(walk_done(db, start, at as nat));
        lemma_walk_stays(db, start, at as nat, steps);
    }
}

/// Walking a tree is complete: after it, all that the tree lists is seen, and all that
/// a tree lists that the walk queued, which are the trees that it counted. Submodule
/// commits are not walked into.
pub proof fn lemma_walk_complete<F: Find>(db: &F, seen: Set<Seq<u8>>, root: Seq<u8>, steps: nat)
    requires
        walk_done(
            db,
            after_entries(
                Walk { gain: nothing(seen), queue: Seq::empty() },
                tree_entries(root)->Some_0,
            ),
            steps,
        ),
    ensures
        seen.subset_of(after_walk(db, seen, root).seen),
        holds_all(after_walk(db, seen, root).seen, tree_entries(root)->Some_0),
        forall|at: int|
            0 <= at < walked(
                db,
                after_entries(
                    Walk { gain: nothing(seen), queue: Seq::empty() },
                    tree_entries(root)->Some_0,
                ),
                steps,
            ).queue.len() ==> holds_all(
                after_walk(db, seen, root).seen,
                listing(
                    db,
                    #[trigger] walked(
                        db,
                        after_entries(
                            Walk { gain: nothing(seen), queue: Seq::empty() },
                            tree_entries(root)->Some_0,
                        ),
                        steps,
                    ).queue[at],
                ),
            ),
{
    let fresh = Walk { gain: nothing(seen), queue: Seq::empty() };
    let entries = tree_entries(root)->Some_0;
    let start = after_entries(fresh, entries);
    let end = walked(db, start, steps);
    lemma_walk_ends(db, start, steps);
    lemma_after_entries_holds(fresh, entries);
    lemma_walk_grows(db, start, 0, steps);
    assert(walked(db, start, 0) == start);
    assert forall|i: int| 0 <= i < entries.len() && (#[trigger] entries[i]).0
        != MODE_COMMIT implies end.gain.seen.contains(entries[i].1) by {
        assert(start.gain.seen.contains(entries[i].1));
    }
    assert forall|at: int| 0 <= at < end.queue.len() implies holds_all(
        end.gain.seen,
        listing(db, #[trigger] end.queue[at]),
    ) by {
        lemma_walk_holds_listed(db, start, steps, at);
    }
}

/// Counting a commit with all that its tree holds is complete: afterwards the commit
/// is seen, its tree, and all that the tree lists; and all that a tree lists that the
/// walk of the tree queued is seen by [`lemma_walk_complete`].
pub proof fn lemma_contents_of_commit<F: Find>(
    db: &F,
    seen: Set<Seq<u8>>,
    id: Seq<u8>,
    steps: nat,
)
    requires
        db.content(id).0 == Kind::Commit,
        db.content(commit_tree(db.content(id).1)->Some_0).0 == Kind::Tree,
        walk_done(
            db,
            after_entries(
                Walk {
                    gain: nothing(seen.insert(id).insert(commit_tree(db.content(id).1)->Some_0)),
                    queue: Seq::empty(),
                },
                listing(db, commit_tree(db.content(id).1)->Some_0),
            ),
            steps,
        ),
    ensures
        seen.subset_of(contents_one(db, seen, id).seen),
        contents_one(db, seen, id).seen.contains(id),
        contents_one(db, seen, id).seen.contains(commit_tree(db.content(id).1)->Some_0),
        holds_all(
            contents_one(db, seen, id).seen,
            listing(db, commit_tree(db.content(id).1)->Some_0),
        ),
{
    let tree = commit_tree(db.content(id).1)->Some_0;
    assert(resolved(db, id, 0) == id);
    assert(resolved(db, id, 1) == hop(db, resolved(db, id, 0)));
    assert(hops_to_end(db, id, true, 1)) by {
        assert forall|j: nat| j < 1 implies !ends_hops(db, #[trigger] resolved(db, id, j), true) by {
            assert(j == 0);
        }
    }
    lemma_hops_end_once(db, id, true, 1);
    let first = count(seen, id, true);
    assert(chain(db, seen, id, 0) == first);
    let counted = chain(db, seen, id, 1);
    assert(counted == then(first, count(first.seen, tree, false)));
    assert(counted.seen =~= seen.insert(id).insert(tree));
    lemma_walk_complete(db, counted.seen, db.content(tree).1, steps);
}

/// Whether `id` names a commit without parents whose tree is a tree.
pub open spec fn is_initial_commit<F: Find>(db: &F, id: Seq<u8>) -> bool {
    &&& db.content(id).0 == Kind::Commit
    &&& db.content(commit_tree(db.content(id).1)->Some_0).0 == Kind::Tree
    &&& leading_parents_of(commit_tokens_after_tree(db.content(id).1))->Some_0.len() == 0
}

/// Starting from commits without parents, counting what their trees add to those of
/// their parents is counting all that their trees hold.
pub proof fn lemma_additions_of_initial_commits<F: Find>(
    db: &F,
    seen: Set<Seq<u8>>,
    ids: Seq<Seq<u8>>,
    upto: nat,
)
    requires
        upto <= ids.len(),
        forall|i: int| 0 <= i < upto ==> is_initial_commit(db, #[trigger] ids[i]),
    ensures
        expanded(db, ObjectExpansion::TreeAdditionsComparedToAncestor, seen, ids, upto) == expanded(
            db,
            ObjectExpansion::TreeContents,
            seen,
            ids,
            upto,
        ),
    decreases upto,
{
    if upto > 0 {
        lemma_additions_of_initial_commits(db, seen, ids, (upto - 1) as nat);
        let before = expanded(db, ObjectExpansion::TreeContents, seen, ids, (upto - 1) as nat);
        assert(is_initial_commit(db, ids[upto - 1]));
        lemma_additions_without_parent(db, before.seen, ids[upto - 1]);
    }
}

} // verus!
