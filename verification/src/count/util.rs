//! Splitting the input into chunks.
use vstd::prelude::*;

verus! {

/// The items of the first `end` chunks, one chunk after the other.
pub open spec fn joined<T>(chunks: Seq<Vec<T>>, end: int) -> Seq<T>
    decreases end,
{
    if end <= 0 {
        Seq::empty()
    } else {
        joined(chunks, end - 1) + chunks[end - 1]@
    }
}

/// Splits `items` into chunks of `size` items, the last of which may hold fewer. No chunk
/// is empty, and the chunks hold the items in their order. A size of zero sets no
/// limit, so that all items form one chunk.
pub fn split_chunks<T>(items: Vec<T>, size: usize) -> (chunks: Vec<Vec<T>>)
    ensures
        joined(chunks@, chunks@.len() as int) == items@,
        forall|i: int| 0 <= i < chunks@.len() ==> (#[trigger] chunks@[i])@.len() > 0,
        size > 0 ==> forall|i: int| 0 <= i < chunks@.len() ==> (#[trigger] chunks@[i])@.len() <= size,
        size > 0 ==> forall|i: int|
            0 <= i < chunks@.len() - 1 ==> (#[trigger] chunks@[i])@.len() == size,
        size == 0 ==> chunks@.len() <= 1,
{
    let ghost all = items@;
    let total = items.len();
    let mut chunks: Vec<Vec<T>> = Vec::new();
    let mut current: Vec<T> = Vec::new();
    proof {
        assert(joined(chunks@, 0) + current@ =~= all.take(0));
    }
    for item in it: items
        invariant
            it.seq() == all,
            all.len() == total,
            joined(chunks@, chunks@.len() as int) + current@ == all.take(it.index() as int),
            forall|i: int| 0 <= i < chunks@.len() ==> (#[trigger] chunks@[i])@.len() > 0,
            size > 0 ==> forall|i: int| 0 <= i < chunks@.len() ==> (#[trigger] chunks@[i])@.len() == size,
            size > 0 ==> current@.len() < size,
            size == 0 ==> chunks@.len() == 0,
    {
        let ghost n = it.index() as int;
        let ghost before = current@;
        current.push(item);
        proof {
            assert(all.take(n + 1) =~= all.take(n).push(item));
            assert(joined(chunks@, chunks@.len() as int) + current@ =~= all.take(n + 1));
        }
        if size > 0 && current.len() == size {
            let ghost full = current@;
            let ghost earlier = chunks@;
            chunks.push(current);
            current = Vec::new();
            proof {
                assert(chunks@.drop_last() =~= earlier);
                lemma_joined_kept(earlier, chunks@, earlier.len() as int);
                assert(joined(chunks@, chunks@.len() as int) + current@ =~= all.take(n + 1));
            }
        }
    }
    proof {
        assert(all.take(total as int) =~= all);
    }
    if current.len() > 0 {
        let ghost earlier = chunks@;
        let ghost last = current@;
        chunks.push(current);
        proof {
            lemma_joined_kept(earlier, chunks@, earlier.len() as int);
            assert(joined(chunks@, chunks@.len() as int) =~= all);
        }
    } else {
        assert(joined(chunks@, chunks@.len() as int) + Seq::<T>::empty() =~= joined(
            chunks@,
            chunks@.len() as int,
        ));
    }
    chunks
}

/// Chunks that are the same join to the same items.
pub proof fn lemma_joined_kept<T>(a: Seq<Vec<T>>, b: Seq<Vec<T>>, end: int)
    requires
        0 <= end <= a.len(),
        end <= b.len(),
        forall|i: int| 0 <= i < end ==> a[i] == b[i],
    ensures
        joined(a, end) == joined(b, end),
    decreases end,
{
    if end > 0 {
        lemma_joined_kept(a, b, end - 1);
    }
}

/// The items of the first chunks stand first among the items of all chunks.
pub proof fn lemma_joined_prefix<T>(chunks: Seq<Vec<T>>, a: int, b: int)
    requires
        0 <= a <= b <= chunks.len(),
    ensures
        joined(chunks, a).len() <= joined(chunks, b).len(),
        joined(chunks, b).take(joined(chunks, a).len() as int) == joined(chunks, a),
    decreases b - a,
{
    if a < b {
        lemma_joined_prefix(chunks, a, b - 1);
        assert(joined(chunks, b).take(joined(chunks, a).len() as int) =~= joined(chunks, a));
    } else {
        assert(joined(chunks, b).take(joined(chunks, a).len() as int) =~= joined(chunks, a));
    }
}

} // verus!
