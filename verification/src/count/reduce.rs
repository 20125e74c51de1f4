//! Merging what the chunks gave into one result.
use vstd::prelude::*;
use crate::count::types::{sum, totals, Count, Outcome};

verus! {

/// The counts and totals of the chunks that were fed so far.
pub struct Statistics {
    pub total: Outcome,
    pub counts: Vec<Count>,
}

impl Statistics {
    /// Whether the totals fit the counts.
    pub open spec fn wf(&self) -> bool {
        self.total.decoded_objects == self.counts@.len() && self.total.expanded_objects
            <= self.counts@.len()
    }

    /// Nothing was fed yet.
    pub fn new() -> (statistics: Statistics)
        ensures
            statistics.wf(),
            statistics.counts@.len() == 0,
            statistics.total == (Outcome { input_objects: 0, expanded_objects: 0, decoded_objects: 0 }),
    {
        Statistics { total: Outcome::default(), counts: Vec::new() }
    }

    /// Takes in what one chunk gave: its counts are added after those that are there,
    /// its totals are added to the totals. The error of a failed chunk is handed back,
    /// and nothing changes.
    pub fn feed<E>(&mut self, item: Result<(Vec<Count>, Outcome), E>) -> (fed: Result<(), E>)
        requires
            old(self).wf(),
            item matches Ok((counts, stats)) ==> stats.decoded_objects == counts@.len()
                && stats.expanded_objects <= counts@.len() && old(self).total.input_objects
                + stats.input_objects <= usize::MAX,
        ensures
            final(self).wf(),
            match item {
                Ok((counts, stats)) => {
                    &&& fed is Ok
                    &&& final(self).counts@ == old(self).counts@ + counts@
                    &&& totals(final(self).total) == sum(old(self).total, stats)
                },
                Err(err) => fed == Err::<(), E>(err) && *final(self) == *old(self),
            },
    {
        match item {
            Ok((counts, stats)) => {
                let mut counts = counts;
                self.counts.append(&mut counts);
                self.total.input_objects += stats.input_objects;
                self.total.decoded_objects = self.counts.len();
                assert(self.total.expanded_objects + stats.expanded_objects <= self.counts@.len());
                self.total.expanded_objects += stats.expanded_objects;
                Ok(())
            },
            Err(err) => Err(err),
        }
    }

    /// The counts of all chunks, in the order in which the chunks were fed, and the
    /// totals over all of them.
    pub fn finalize(self) -> (result: (Vec<Count>, Outcome))
        ensures
            result.0 == self.counts,
            result.1 == self.total,
    {
        (self.counts, self.total)
    }
}

} // verus!
