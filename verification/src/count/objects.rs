//! Counting all objects of a pack, in chunks or in one go.
use vstd::prelude::*;
use std::sync::atomic::AtomicBool;
use crate::count::expand::{
    first_unseen, gives, input_id, lemma_first_unseen_concat, lemma_first_unseen_set,
    lemma_fresh_concat, lemma_placed_behind, lemma_placed_nothing, lemma_placed_then, placed,
    this,
};
use crate::count::model::{
    expanded, leads_to, lemma_expanded_in_runs, not_a_commit, not_a_tag, some_leads_to,
    trees_nest,
};
use crate::count::reduce::Statistics;
use crate::count::types::{
    counted, ids_of, tallied, Count, Error, ObjectExpansion, Options, Outcome,
};
use crate::count::util::{joined, lemma_joined_prefix, split_chunks};
use crate::find::{ExistingError, Find};
use crate::object::ObjectId;
use crate::parallel::optimize_chunk_size_and_thread_limit;
use crate::seen::SeenSet;

verus! {

/// The hashes that the items of the input name.
pub open spec fn input_ids<IterErr>(items: Seq<Result<ObjectId, IterErr>>) -> Seq<Seq<u8>> {
    items.map_values(|item: Result<ObjectId, IterErr>| input_id(item))
}

/// Two runs over the same input and the same database, in chunks of whatever size or in
/// one go, count the same objects in the same order and give the same totals.
pub proof fn lemma_runs_agree<F: Find>(
    db: &F,
    expansion: ObjectExpansion,
    ids: Seq<Seq<u8>>,
    one: (Seq<Count>, Outcome),
    other: (Seq<Count>, Outcome),
)
    requires
        gives(one.0, one.1, expanded(db, expansion, Set::empty(), ids, ids.len())),
        gives(other.0, other.1, expanded(db, expansion, Set::empty(), ids, ids.len())),
        one.1.input_objects == ids.len(),
        other.1.input_objects == ids.len(),
    ensures
        ids_of(one.0) == ids_of(other.0),
        one.1 == other.1,
{
}

/// Counts the objects that `objects_ids` name, expanded as the options say, with the
/// place of each object in a pack looked up. The input is worked off in chunks, one
/// after the other, and what the chunks give is merged. Where trees are compared with
/// those of parents, the trees of the database have to nest to a bounded depth.
///
/// The size of the chunks does not show in the result: on success counts and totals are
/// what [`expanded`] gives for the whole input, starting with nothing seen, and every
/// count tells the place of its object in a pack: what the lookup gave for an object
/// that was looked up, and what the database tells for one that a tree or a comparison
/// listed. So no object
/// is counted twice, the totals fit the counts, and every item of the input was counted
/// as input; with `AsIs` the counts are the starting ids at their first occurrence. An
/// error means that there was input, and an input error is one of the errors in the
/// input.
pub fn objects<F: Find, IterErr>(
    db: &F,
    cache: &mut F::Cache,
    objects_ids: Vec<Result<ObjectId, IterErr>>,
    should_interrupt: &AtomicBool,
    options: Options,
) -> (counts: Result<(Vec<Count>, Outcome), Error<F::Error, IterErr>>)
    requires
        options.thread_limit matches Some(limit) ==> limit <= usize::MAX / 2,
        options.input_object_expansion == ObjectExpansion::TreeAdditionsComparedToAncestor
            ==> trees_nest(db),
    ensures
        match counts {
            Ok((out, outcome)) => {
                &&& ids_of(out@).no_duplicates()
                &&& tallied(out@.len() as int, outcome)
                &&& outcome.input_objects == objects_ids@.len()
                &&& forall|i: int| 0 <= i < objects_ids@.len() ==> (#[trigger] objects_ids@[i]) is Ok
                &&& options.input_object_expansion == ObjectExpansion::AsIs ==> {
                    &&& outcome.expanded_objects == 0
                    &&& ids_of(out@) == first_unseen(Set::empty(), input_ids(objects_ids@))
                }
                &&& gives(
                    out@,
                    outcome,
                    expanded(
                        db,
                        options.input_object_expansion,
                        Set::empty(),
                        input_ids(objects_ids@),
                        objects_ids@.len(),
                    ),
                )
                &&& placed(
                    db,
                    Seq::empty(),
                    out@,
                    expanded(
                        db,
                        options.input_object_expansion,
                        Set::empty(),
                        input_ids(objects_ids@),
                        objects_ids@.len(),
                    ).listed,
                    true,
                )
            },
            Err(Error::InputIteration(err)) => exists|i: int|
                0 <= i < objects_ids@.len() && objects_ids@[i] == Err::<ObjectId, IterErr>(err),
            Err(_) => objects_ids@.len() > 0,
        },
        counts matches Err(Error::CommitDecode { id }) ==> not_a_commit(db, id@),
        counts matches Err(Error::TagDecode { id }) ==> not_a_tag(db, id@),
        counts matches Err(Error::FindExisting(ExistingError::NotFound { id })) ==> some_leads_to(
            db,
            options.input_object_expansion,
            input_ids(objects_ids@),
            id@,
        ),
{
    let ghost all = objects_ids@;
    let lower_bound = objects_ids.len();
    let (chunk_size, _, _) = optimize_chunk_size_and_thread_limit(
        options.chunk_size,
        if lower_bound == 0 {
            None
        } else {
            Some(lower_bound)
        },
        options.thread_limit,
    );
    let chunks = split_chunks(objects_ids, chunk_size);
    let ghost parts = chunks@;
    let number = chunks.len();
    let as_is = options.input_object_expansion == ObjectExpansion::AsIs;
    let mut seen_objs = SeenSet::new();
    let mut buf1: Vec<u8> = Vec::new();
    let mut buf2: Vec<u8> = Vec::new();
    let mut statistics = Statistics::new();
    proof {
        assert(statistics.counts@ =~= Seq::<Count>::empty());
        lemma_placed_nothing(db, Seq::<Count>::empty(), true);
        assert(ids_of(statistics.counts@) =~= Seq::<Seq<u8>>::empty());
        assert(Set::<Seq<u8>>::empty().union(ids_of(statistics.counts@).to_set())
            =~= Set::<Seq<u8>>::empty());
        assert(input_ids(joined(parts, 0)) =~= Seq::<Seq<u8>>::empty());
    }
    for chunk in it: chunks
        invariant
            options.input_object_expansion == ObjectExpansion::TreeAdditionsComparedToAncestor
                ==> trees_nest(db),
            it.seq() == parts,
            parts.len() == number,
            joined(parts, parts.len() as int) == all,
            all.len() == lower_bound,
            all == objects_ids@,
            forall|i: int| 0 <= i < parts.len() ==> (#[trigger] parts[i])@.len() > 0,
            as_is == (options.input_object_expansion == ObjectExpansion::AsIs),
            statistics.wf(),
            counted(Set::empty(), statistics.counts@, seen_objs@),
            tallied(statistics.counts@.len() as int, statistics.total),
            statistics.total.input_objects == joined(parts, it.index() as int).len(),
            forall|i: int|
                0 <= i < joined(parts, it.index() as int).len() ==> (#[trigger] joined(
                    parts,
                    it.index() as int,
                )[i]) is Ok,
            as_is ==> statistics.total.expanded_objects == 0 && ids_of(statistics.counts@)
                == first_unseen(Set::empty(), input_ids(joined(parts, it.index() as int)))
                && seen_objs@ == input_ids(joined(parts, it.index() as int)).to_set(),
            seen_objs@ == expanded(
                db,
                options.input_object_expansion,
                Set::empty(),
                input_ids(joined(parts, it.index() as int)),
                joined(parts, it.index() as int).len(),
            ).seen,
            gives(
                statistics.counts@,
                statistics.total,
                expanded(
                    db,
                    options.input_object_expansion,
                    Set::empty(),
                    input_ids(joined(parts, it.index() as int)),
                    joined(parts, it.index() as int).len(),
                ),
            ),
            placed(
                db,
                Seq::empty(),
                statistics.counts@,
                expanded(
                    db,
                    options.input_object_expansion,
                    Set::empty(),
                    input_ids(joined(parts, it.index() as int)),
                    joined(parts, it.index() as int).len(),
                ).listed,
                true,
            ),
    {
        let ghost k = it.index() as int;
        let ghost done = joined(parts, k);
        let ghost seen_then = seen_objs@;
        let ghost counts_then = statistics.counts@;
        proof {
            lemma_joined_prefix(parts, k + 1, parts.len() as int);
            assert(joined(parts, k + 1) == done + chunk@);
            assert(chunk == parts[k]);
            assert(chunk@.len() > 0);
            assert(done.len() + chunk@.len() <= all.len());
            assert forall|i: int| 0 <= i < chunk@.len() implies chunk@[i] == all[done.len() + i] by {
                assert(joined(parts, k + 1)[done.len() + i] == chunk@[i]);
                assert(all.take(joined(parts, k + 1).len() as int)[done.len() + i] == all[done.len()
                    + i]);
            }
        }
        let result = this(
            db,
            options.input_object_expansion,
            &mut seen_objs,
            chunk,
            &mut buf1,
            &mut buf2,
            cache,
            should_interrupt,
            true,
        );
        let ghost mut witness: int = 0;
        proof {
            match &result {
                Ok((out, outcome)) => {
                    lemma_fresh_concat(
                        Set::empty(),
                        ids_of(counts_then),
                        seen_then,
                        ids_of(out@),
                        seen_objs@,
                    );
                    assert(ids_of(counts_then + out@) =~= ids_of(counts_then) + ids_of(out@));
                    assert forall|i: int| 0 <= i < joined(parts, k + 1).len() implies (
                    #[trigger] joined(parts, k + 1)[i]) is Ok by {
                        if i < done.len() {
                            assert(joined(parts, k + 1)[i] == done[i]);
                        } else {
                            assert(joined(parts, k + 1)[i] == chunk@[i - done.len()]);
                        }
                    }
                    assert(input_ids(done + chunk@) =~= input_ids(done) + input_ids(chunk@));
                    lemma_expanded_in_runs(
                        db,
                        options.input_object_expansion,
                        Set::empty(),
                        input_ids(done),
                        input_ids(chunk@),
                        chunk@.len(),
                    );
                    let first = expanded(
                        db,
                        options.input_object_expansion,
                        Set::empty(),
                        input_ids(done),
                        done.len(),
                    );
                    let second = expanded(
                        db,
                        options.input_object_expansion,
                        seen_then,
                        input_ids(chunk@),
                        chunk@.len(),
                    );
                    lemma_placed_behind(db, counts_then, out@, second.listed, true);
                    lemma_placed_then(
                        db,
                        Seq::empty(),
                        counts_then,
                        first.listed,
                        counts_then + out@,
                        second.listed,
                        true,
                    );
                    if as_is {
                        lemma_first_unseen_concat(
                            Set::empty(),
                            input_ids(done),
                            input_ids(chunk@),
                        );
                        assert(Set::<Seq<u8>>::empty().union(input_ids(done).to_set())
                            =~= input_ids(done).to_set());
                        lemma_first_unseen_set(seen_then, input_ids(chunk@));
                        assert(seen_objs@ =~= input_ids(joined(parts, k + 1)).to_set()) by {
                            let a = input_ids(done);
                            let b = input_ids(chunk@);
                            assert forall|x: Seq<u8>| (a + b).to_set().contains(x) <==> (
                            a.to_set().contains(x) || b.to_set().contains(x)) by {
                                if (a + b).contains(x) {
                                    let i = choose|i: int| 0 <= i < (a + b).len() && (a + b)[i] == x;
                                    if i < a.len() {
                                        assert(a[i] == x);
                                    } else {
                                        assert(b[i - a.len()] == x);
                                    }
                                }
                                if a.contains(x) {
                                    let i = choose|i: int| 0 <= i < a.len() && a[i] == x;
                                    assert((a + b)[i] == x);
                                }
                                if b.contains(x) {
                                    let i = choose|i: int| 0 <= i < b.len() && b[i] == x;
                                    assert((a + b)[i + a.len()] == x);
                                }
                            }
                        }
                    }
                },
                Err(Error::InputIteration(err)) => {
                    let i = choose|i: int|
                        0 <= i < chunk@.len() && chunk@[i] == Err::<ObjectId, IterErr>(*err);
                    assert(all[done.len() + i] == Err::<ObjectId, IterErr>(*err));
                    witness = done.len() + i;
                },
                Err(Error::FindExisting(ExistingError::NotFound { id })) => {
                    let i = choose|i: int|
                        0 <= i < input_ids(chunk@).len() && leads_to(
                            db,
                            options.input_object_expansion,
                            #[trigger] input_ids(chunk@)[i],
                            id@,
                        );
                    assert(input_ids(all)[done.len() + i] == input_ids(chunk@)[i]);
                    assert(some_leads_to(
                        db,
                        options.input_object_expansion,
                        input_ids(all),
                        id@,
                    ));
                },
                Err(_) => {},
            }
        }
        match statistics.feed(result) {
            Ok(()) => {},
            Err(err) => {
                proof {
                    if let Error::InputIteration(failed) = &err {
                        assert(0 <= witness < all.len() && all[witness] == Err::<ObjectId, IterErr>(
                            *failed,
                        ));
                    }
                }
                return Err(err);
            },
        }
    }
    Ok(statistics.finalize())
}

/// Like [`objects`], in one go and without looking up where objects are packed: the
/// place of an object that a tree or a comparison listed is not looked up, so that only
/// the objects that were looked up themselves have one.
pub fn objects_unthreaded<F: Find, IterErr>(
    db: &F,
    pack_cache: &mut F::Cache,
    object_ids: Vec<Result<ObjectId, IterErr>>,
    should_interrupt: &AtomicBool,
    input_object_expansion: ObjectExpansion,
) -> (counts: Result<(Vec<Count>, Outcome), Error<F::Error, IterErr>>)
    requires
        input_object_expansion == ObjectExpansion::TreeAdditionsComparedToAncestor ==> trees_nest(
            db,
        ),
    ensures
        match counts {
            Ok((out, outcome)) => {
                &&& ids_of(out@).no_duplicates()
                &&& tallied(out@.len() as int, outcome)
                &&& outcome.input_objects == object_ids@.len()
                &&& forall|i: int| 0 <= i < object_ids@.len() ==> (#[trigger] object_ids@[i]) is Ok
                &&& input_object_expansion == ObjectExpansion::AsIs ==> {
                    &&& outcome.expanded_objects == 0
                    &&& ids_of(out@) == first_unseen(Set::empty(), input_ids(object_ids@))
                }
                &&& gives(
                    out@,
                    outcome,
                    expanded(
                        db,
                        input_object_expansion,
                        Set::empty(),
                        input_ids(object_ids@),
                        object_ids@.len(),
                    ),
                )
                &&& placed(
                    db,
                    Seq::empty(),
                    out@,
                    expanded(
                        db,
                        input_object_expansion,
                        Set::empty(),
                        input_ids(object_ids@),
                        object_ids@.len(),
                    ).listed,
                    false,
                )
            },
            Err(Error::InputIteration(err)) => exists|i: int|
                0 <= i < object_ids@.len() && object_ids@[i] == Err::<ObjectId, IterErr>(err),
            Err(_) => object_ids@.len() > 0,
        },
        counts matches Err(Error::CommitDecode { id }) ==> not_a_commit(db, id@),
        counts matches Err(Error::TagDecode { id }) ==> not_a_tag(db, id@),
        counts matches Err(Error::FindExisting(ExistingError::NotFound { id })) ==> some_leads_to(
            db,
            input_object_expansion,
            input_ids(object_ids@),
            id@,
        ),
{
    let mut seen_objs = SeenSet::new();
    let mut buf1: Vec<u8> = Vec::new();
    let mut buf2: Vec<u8> = Vec::new();
    this(
        db,
        input_object_expansion,
        &mut seen_objs,
        object_ids,
        &mut buf1,
        &mut buf2,
        pack_cache,
        should_interrupt,
        false,
    )
}

} // verus!
