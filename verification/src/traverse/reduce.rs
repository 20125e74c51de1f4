//! Merging what the entries of a traversal told into one summary.
use vstd::prelude::*;
use std::collections::BTreeMap;
use crate::object::Kind;
use crate::traverse::types::{EntryOutcome, Error};

verus! {

/// The sum of two sizes, or the greatest size where the sum is greater.
pub open spec fn capped_sum(a: u64, b: u64) -> u64 {
    if a + b > u64::MAX {
        u64::MAX
    } else {
        (a + b) as u64
    }
}

/// The successor of a count, or the greatest count.
pub open spec fn capped_next(a: u32) -> u32 {
    if a == u32::MAX {
        a
    } else {
        (a + 1) as u32
    }
}

/// Adds two sizes, and stops at the greatest size.
pub fn add_capped(a: u64, b: u64) -> (sum: u64)
    ensures
        sum == capped_sum(a, b),
{
    if a > u64::MAX - b {
        u64::MAX
    } else {
        a + b
    }
}

/// Counts one up, and stops at the greatest count.
pub fn next_capped(a: u32) -> (next: u32)
    ensures
        next == capped_next(a),
{
    if a == u32::MAX {
        a
    } else {
        a + 1
    }
}

/// What a traversal found out about a pack.
#[derive(Debug, Clone, PartialEq, Eq)]
pub struct Outcome {
    /// The average over all entries, of the kind of the last entry.
    pub average: EntryOutcome,
    /// How many objects needed how many deltas.
    pub objects_per_chain_length: BTreeMap<u32, u32>,
    /// The bytes that all entries take in the pack, without their headers.
    pub total_compressed_entries_size: u64,
    /// The bytes that were decompressed to decode all entries.
    pub total_decompressed_entries_size: u64,
    /// The bytes of all objects.
    pub total_object_size: u64,
    /// The size of the pack.
    pub pack_size: u64,
    /// The number of commits.
    pub num_commits: u32,
    /// The number of trees.
    pub num_trees: u32,
    /// The number of tags.
    pub num_tags: u32,
    /// The number of blobs.
    pub num_blobs: u32,
}

/// The totals over entries, as plain numbers.
pub struct Totals {
    pub sums: EntryOutcome,
    pub chains: Map<u32, u32>,
    pub compressed: u64,
    pub decompressed: u64,
    pub objects: u64,
    pub commits: u32,
    pub trees: u32,
    pub tags: u32,
    pub blobs: u32,
}

/// The totals before any entry.
pub open spec fn no_totals() -> Totals {
    Totals {
        sums: EntryOutcome {
            kind: Kind::Tree,
            num_deltas: 0,
            decompressed_size: 0,
            compressed_size: 0,
            object_size: 0,
        },
        chains: Map::empty(),
        compressed: 0,
        decompressed: 0,
        objects: 0,
        commits: 0,
        trees: 0,
        tags: 0,
        blobs: 0,
    }
}

/// How often `chains` has seen a chain of `length` deltas.
pub open spec fn chain_count(chains: Map<u32, u32>, length: u32) -> u32 {
    if chains.contains_key(length) {
        chains[length]
    } else {
        0
    }
}

/// The sum of two numbers of deltas, or the greatest number.
pub open spec fn capped_deltas(a: u32, b: u32) -> u32 {
    if a + b > u32::MAX {
        u32::MAX
    } else {
        (a + b) as u32
    }
}

/// The sum of two sizes in memory, or the greatest size.
pub open spec fn capped_size(a: usize, b: usize) -> usize {
    if a + b > usize::MAX {
        usize::MAX
    } else {
        (a + b) as usize
    }
}

/// The totals with one more entry. Every sum stops at the greatest value of its type.
pub open spec fn with_entry(t: Totals, e: EntryOutcome) -> Totals {
    Totals {
        sums: EntryOutcome {
            kind: e.kind,
            num_deltas: capped_deltas(t.sums.num_deltas, e.num_deltas),
            decompressed_size: capped_sum(t.sums.decompressed_size, e.decompressed_size),
            compressed_size: capped_size(t.sums.compressed_size, e.compressed_size),
            object_size: capped_sum(t.sums.object_size, e.object_size),
        },
        chains: t.chains.insert(e.num_deltas, capped_next(chain_count(t.chains, e.num_deltas))),
        compressed: capped_sum(t.compressed, e.compressed_size as u64),
        decompressed: capped_sum(t.decompressed, e.decompressed_size),
        objects: capped_sum(t.objects, e.object_size),
        commits: if e.kind == Kind::Commit {
            capped_next(t.commits)
        } else {
            t.commits
        },
        trees: if e.kind == Kind::Tree {
            capped_next(t.trees)
        } else {
            t.trees
        },
        tags: if e.kind == Kind::Tag {
            capped_next(t.tags)
        } else {
            t.tags
        },
        blobs: if e.kind == Kind::Blob {
            capped_next(t.blobs)
        } else {
            t.blobs
        },
    }
}

/// The totals `t` with the first `end` of `entries`, one after the other.
pub open spec fn with_entries(t: Totals, entries: Seq<EntryOutcome>, end: int) -> Totals
    decreases end,
{
    if end <= 0 {
        t
    } else {
        with_entry(with_entries(t, entries, end - 1), entries[end - 1])
    }
}

/// Entries that are added in two runs are added one after the other.
pub proof fn lemma_with_entries_in_runs(
    t: Totals,
    first: Seq<EntryOutcome>,
    second: Seq<EntryOutcome>,
    end: int,
)
    requires
        0 <= end <= second.len(),
    ensures
        with_entries(t, first + second, first.len() + end) == with_entries(
            with_entries(t, first, first.len() as int),
            second,
            end,
        ),
    decreases end,
{
    if end > 0 {
        lemma_with_entries_in_runs(t, first, second, end - 1);
        assert((first + second)[first.len() + end - 1] == second[end - 1]);
    } else {
        lemma_with_entries_prefix(t, first, first + second, first.len() as int);
    }
}

/// The totals with the first entries of a list depend on these entries alone.
pub proof fn lemma_with_entries_prefix(
    t: Totals,
    a: Seq<EntryOutcome>,
    b: Seq<EntryOutcome>,
    end: int,
)
    requires
        end <= a.len(),
        end <= b.len(),
        forall|i: int| 0 <= i < end ==> a[i] == b[i],
    ensures
        with_entries(t, a, end) == with_entries(t, b, end),
    decreases end,
{
    if end > 0 {
        lemma_with_entries_prefix(t, a, b, end - 1);
    }
}

/// The sums `sums` over `entries` entries as an average, rounded down; the kind stays.
pub open spec fn averaged(sums: EntryOutcome, entries: nat) -> EntryOutcome {
    if entries == 0 {
        sums
    } else {
        EntryOutcome {
            kind: sums.kind,
            num_deltas: (sums.num_deltas as int / entries as int) as u32,
            decompressed_size: (sums.decompressed_size as int / entries as int) as u64,
            compressed_size: (sums.compressed_size as int / entries as int) as usize,
            object_size: (sums.object_size as int / entries as int) as u64,
        }
    }
}

/// Whether `outcome` is the summary of a pack of `pack_size` bytes whose entries took
/// `kept` to decode: the totals over them, and their average.
pub open spec fn sums_up(outcome: Outcome, pack_size: u64, kept: Seq<EntryOutcome>) -> bool {
    let t = with_entries(no_totals(), kept, kept.len() as int);
    &&& outcome.pack_size == pack_size
    &&& outcome.average == averaged(t.sums, kept.len())
    &&& outcome.objects_per_chain_length@ == t.chains
    &&& outcome.total_compressed_entries_size == t.compressed
    &&& outcome.total_decompressed_entries_size == t.decompressed
    &&& outcome.total_object_size == t.objects
    &&& outcome.num_commits == t.commits
    &&& outcome.num_trees == t.trees
    &&& outcome.num_tags == t.tags
    &&& outcome.num_blobs == t.blobs
}

/// The state of a traversal between chunks.
pub struct Reducer {
    pub stats: Outcome,
    pub entries_seen: usize,
}

impl Reducer {
    /// The totals over the entries that were fed.
    pub open spec fn totals(&self) -> Totals {
        Totals {
            sums: self.stats.average,
            chains: self.stats.objects_per_chain_length@,
            compressed: self.stats.total_compressed_entries_size,
            decompressed: self.stats.total_decompressed_entries_size,
            objects: self.stats.total_object_size,
            commits: self.stats.num_commits,
            trees: self.stats.num_trees,
            tags: self.stats.num_tags,
            blobs: self.stats.num_blobs,
        }
    }

    /// The state before the first chunk of a pack of `pack_size` bytes.
    pub fn new(pack_size: u64) -> (reducer: Reducer)
        ensures
            reducer.totals() == no_totals(),
            reducer.entries_seen == 0,
            reducer.stats.pack_size == pack_size,
    {
        Reducer {
            stats: Outcome {
                average: EntryOutcome {
                    kind: Kind::Tree,
                    num_deltas: 0,
                    decompressed_size: 0,
                    compressed_size: 0,
                    object_size: 0,
                },
                objects_per_chain_length: BTreeMap::new(),
                total_compressed_entries_size: 0,
                total_decompressed_entries_size: 0,
                total_object_size: 0,
                pack_size,
                num_commits: 0,
                num_trees: 0,
                num_tags: 0,
                num_blobs: 0,
            },
            entries_seen: 0,
        }
    }

    /// Takes in what one entry told.
    pub fn add(&mut self, entry: &EntryOutcome)
        requires
            old(self).entries_seen < usize::MAX,
        ensures
            final(self).totals() == with_entry(old(self).totals(), *entry),
            final(self).entries_seen == old(self).entries_seen + 1,
            final(self).stats.pack_size == old(self).stats.pack_size,
    {
        broadcast use vstd::std_specs::btree::group_btree_axioms;

        let seen = match self.stats.objects_per_chain_length.get(&entry.num_deltas) {
            Some(count) => *count,
            None => 0,
        };
        self.stats.objects_per_chain_length.insert(entry.num_deltas, next_capped(seen));
        self.stats.average = EntryOutcome {
            kind: entry.kind,
            num_deltas: if self.stats.average.num_deltas > u32::MAX - entry.num_deltas {
                u32::MAX
            } else {
                self.stats.average.num_deltas + entry.num_deltas
            },
            decompressed_size: add_capped(
                self.stats.average.decompressed_size,
                entry.decompressed_size,
            ),
            compressed_size: if self.stats.average.compressed_size > usize::MAX
                - entry.compressed_size {
                usize::MAX
            } else {
                self.stats.average.compressed_size + entry.compressed_size
            },
            object_size: add_capped(self.stats.average.object_size, entry.object_size),
        };
        self.stats.total_compressed_entries_size = add_capped(
            self.stats.total_compressed_entries_size,
            entry.compressed_size as u64,
        );
        self.stats.total_decompressed_entries_size = add_capped(
            self.stats.total_decompressed_entries_size,
            entry.decompressed_size,
        );
        self.stats.total_object_size = add_capped(self.stats.total_object_size, entry.object_size);
        match entry.kind {
            Kind::Commit => {
                self.stats.num_commits = next_capped(self.stats.num_commits);
            },
            Kind::Tree => {
                self.stats.num_trees = next_capped(self.stats.num_trees);
            },
            Kind::Tag => {
                self.stats.num_tags = next_capped(self.stats.num_tags);
            },
            Kind::Blob => {
                self.stats.num_blobs = next_capped(self.stats.num_blobs);
            },
        }
        self.entries_seen += 1;
    }

    /// Takes in what the entries of one chunk told, and then gives way to an
    /// interruption: with `interrupted` set, the traversal ends as interrupted. The
    /// error of a failed chunk is handed back, and nothing changes.
    pub fn feed<E>(&mut self, input: Result<Vec<EntryOutcome>, Error<E>>, interrupted: bool) -> (fed:
        Result<(), Error<E>>)
        requires
            input matches Ok(entries) ==> old(self).entries_seen + entries@.len() <= usize::MAX,
        ensures
            final(self).stats.pack_size == old(self).stats.pack_size,
            match input {
                Ok(entries) => {
                    &&& final(self).totals() == with_entries(
                        old(self).totals(),
                        entries@,
                        entries@.len() as int,
                    )
                    &&& final(self).entries_seen == old(self).entries_seen + entries@.len()
                    &&& interrupted ==> fed is Err && fed->Err_0 is Interrupted
                    &&& !interrupted ==> fed is Ok
                },
                Err(err) => fed == Err::<(), Error<E>>(err) && *final(self) == *old(self),
            },
    {
        let entries = match input {
            Ok(entries) => entries,
            Err(err) => {
                return Err(err);
            },
        };
        let mut i: usize = 0;
        while i < entries.len()
            invariant
                i <= entries@.len(),
                old(self).entries_seen + entries@.len() <= usize::MAX,
                self.totals() == with_entries(old(self).totals(), entries@, i as int),
                self.entries_seen == old(self).entries_seen + i,
                self.stats.pack_size == old(self).stats.pack_size,
            decreases entries@.len() - i,
        {
            self.add(&entries[i]);
            i += 1;
        }
        if interrupted {
            return Err(Error::Interrupted);
        }
        Ok(())
    }

    /// The summary of the traversal: the totals, and the average over all entries,
    /// rounded down.
    pub fn finalize(self) -> (outcome: Outcome)
        ensures
            outcome.objects_per_chain_length == self.stats.objects_per_chain_length,
            outcome.total_compressed_entries_size == self.stats.total_compressed_entries_size,
            outcome.total_decompressed_entries_size == self.stats.total_decompressed_entries_size,
            outcome.total_object_size == self.stats.total_object_size,
            outcome.pack_size == self.stats.pack_size,
            outcome.num_commits == self.stats.num_commits,
            outcome.num_trees == self.stats.num_trees,
            outcome.num_tags == self.stats.num_tags,
            outcome.num_blobs == self.stats.num_blobs,
            outcome.average == averaged(self.stats.average, self.entries_seen as nat),
    {
        let mut stats = self.stats;
        let seen = self.entries_seen;
        if seen > 0 {
            let sums = stats.average;
            let deltas = sums.num_deltas as u64 / seen as u64;
            proof {
                assert(sums.num_deltas as int / seen as int <= sums.num_deltas) by (nonlinear_arith)
                    requires
                        seen > 0,
                        sums.num_deltas >= 0,
                ;
            }
            stats.average = EntryOutcome {
                kind: sums.kind,
                num_deltas: deltas as u32,
                decompressed_size: sums.decompressed_size / seen as u64,
                compressed_size: sums.compressed_size / seen,
                object_size: sums.object_size / seen as u64,
            };
        }
        stats
    }
}

} // verus!
