//! Changing the values of a file.
use vstd::prelude::*;
use vstd::string::StringSliceAdditionalSpecFns;
use crate::config::events::{copy_of, Event, EventKind, ParsedSectionHeader};
use crate::config::grammar::{model_of, models, plain, EventModel};
use crate::config::file::{str_view, File};
use crate::config::lookup::{LookupError, SectionId};
use crate::config::file::last_value;
use crate::config::section::{
    eq_ignore_case, has_parts, is_key, key_before, parts_text, value_of, SectionBody,
};

verus! {

/// Where an entry stands: its section, the position of its key among the events of the
/// section, and how many events it is counted as.
#[derive(Clone, Copy, Debug, PartialEq, Eq, Structural)]
pub struct ValueLocation {
    pub section: SectionId,
    pub index: usize,
    pub size: usize,
}

/// The number of events from `from` on that count for the entry before them: blanks,
/// line ends and parts of the value, up to the end of the value.
pub open spec fn counted_after(events: Seq<Event>, from: int) -> nat
    decreases events.len() - from,
{
    if from < 0 || from >= events.len() {
        0
    } else if events[from] is Value || events[from] is ValueDone {
        1
    } else if events[from] is Newline || events[from] is Whitespace || events[from]
        is ValueNotDone {
        1 + counted_after(events, from + 1)
    } else {
        counted_after(events, from + 1)
    }
}

/// No more events count than there are.
pub proof fn lemma_counted_bounded(events: Seq<Event>, from: int)
    requires
        0 <= from <= events.len(),
    ensures
        counted_after(events, from) <= events.len() - from,
    decreases events.len() - from,
{
    if from < events.len() {
        lemma_counted_bounded(events, from + 1);
    }
}

/// The position after the value that starts at or after `from`: after the first event
/// that ends a value, if one stands before the next key.
pub open spec fn value_end(events: Seq<Event>, from: int) -> Option<int>
    decreases events.len() - from,
{
    if from < 0 || from >= events.len() || events[from] is Key {
        None
    } else if events[from] is Value || events[from] is ValueDone {
        Some(from + 1)
    } else {
        value_end(events, from + 1)
    }
}

/// The position after the entry whose key stands at `key_at`: after its value, or after
/// the key where no value follows.
pub open spec fn entry_end(events: Seq<Event>, key_at: int) -> int {
    match value_end(events, key_at + 1) {
        Some(end) => end,
        None => key_at + 1,
    }
}

/// The newest of the first `end` sections of `ids` that holds `key`, with the position
/// of the last occurrence of the key.
pub open spec fn located(file: &File, ids: Seq<SectionId>, key: Seq<u8>, end: int) -> Option<
    (SectionId, int),
>
    decreases end,
{
    if end <= 0 {
        None
    } else {
        let at = key_before(file.body(ids[end - 1]), key, file.body(ids[end - 1]).len() as int);
        if at >= 0 {
            Some((ids[end - 1], at))
        } else {
            located(file, ids, key, end - 1)
        }
    }
}

/// The position of the last occurrence of `key` among `events`.
pub fn find_key(events: &Vec<Event>, key: &[u8]) -> (at: Option<usize>)
    ensures
        match at {
            Some(at) => at == key_before(events@, key@, events@.len() as int) && at
                < events@.len() && is_key(events@, at as int, key@),
            None => key_before(events@, key@, events@.len() as int) == -1,
        },
{
    let mut i: usize = events.len();
    while i > 0
        invariant
            i <= events@.len(),
            key_before(events@, key@, events@.len() as int) == key_before(events@, key@, i as int),
        decreases i,
    {
        i -= 1;
        if let Event::Key(name) = &events[i] {
            if eq_ignore_case(name.as_slice(), key) {
                assert(is_key(events@, i as int, key@));
                return Some(i);
            }
        }
        assert(!is_key(events@, i as int, key@));
    }
    None
}

/// The number of events after `from` that count for the entry before them.
pub fn count_after(events: &Vec<Event>, from: usize) -> (count: usize)
    requires
        from <= events@.len(),
    ensures
        count == counted_after(events@, from as int),
{
    let mut count: usize = 0;
    let mut i: usize = from;
    while i < events.len()
        invariant
            from <= i <= events@.len(),
            counted_after(events@, from as int) == count + counted_after(events@, i as int),
            count <= i - from,
        decreases events@.len() - i,
    {
        match &events[i] {
            Event::Value(_) | Event::ValueDone(_) => {
                return count + 1;
            },
            Event::Newline(_) | Event::Whitespace(_) | Event::ValueNotDone(_) => {
                count += 1;
            },
            _ => {},
        }
        i += 1;
    }
    count
}

/// The position after the entry whose key stands at `key_at`.
pub fn find_entry_end(events: &Vec<Event>, key_at: usize) -> (end: usize)
    requires
        key_at < events@.len(),
    ensures
        end == entry_end(events@, key_at as int),
        key_at < end <= events@.len(),
{
    let len = events.len();
    let mut i: usize = key_at + 1;
    while i < len
        invariant
            len == events@.len(),
            key_at < i <= events@.len(),
            value_end(events@, key_at + 1) == value_end(events@, i as int),
        decreases events@.len() - i,
    {
        match &events[i] {
            Event::Key(_) => {
                return key_at + 1;
            },
            Event::Value(_) | Event::ValueDone(_) => {
                return i + 1;
            },
            _ => {},
        }
        i += 1;
    }
    key_at + 1
}

/// Whether `after` is `before` with the entry from `key_at` up to `end` replaced by
/// the key, a separator and the value `value`.
pub open spec fn entry_replaced(
    before: Seq<Event>,
    after: Seq<Event>,
    key_at: int,
    end: int,
    value: Seq<u8>,
) -> bool {
    &&& after.len() == key_at + 3 + (before.len() - end)
    &&& forall|i: int| 0 <= i < key_at ==> #[trigger] after[i] == before[i]
    &&& after[key_at] is Key && after[key_at].text() == before[key_at].text()
    &&& after[key_at + 1] is KeyValueSeparator
    &&& after[key_at + 2] is Value && after[key_at + 2].text() == value
    &&& forall|i: int| end <= i < before.len() ==> #[trigger] after[i - end + key_at + 3] == before[i]
}

/// No occurrence of a key stands after its last.
pub proof fn lemma_key_before_last(events: Seq<Event>, key: Seq<u8>, end: int)
    requires
        0 <= end <= events.len(),
    ensures
        key_before(events, key, end) < end,
        key_before(events, key, end) >= -1,
        key_before(events, key, end) >= 0 ==> is_key(events, key_before(events, key, end), key),
        forall|j: int| key_before(events, key, end) < j < end ==> !is_key(events, j, key),
    decreases end,
{
    if end > 0 {
        lemma_key_before_last(events, key, end - 1);
    }
}

/// The last occurrence of a key is where an occurrence stands that none follows.
pub proof fn lemma_key_before_is(events: Seq<Event>, key: Seq<u8>, end: int, at: int)
    requires
        0 <= at < end <= events.len(),
        is_key(events, at, key),
        forall|j: int| at < j < end ==> !is_key(events, j, key),
    ensures
        key_before(events, key, end) == at,
    decreases end,
{
    if end - 1 > at {
        lemma_key_before_is(events, key, end - 1, at);
    }
}

/// Events that are the same from two positions on give the same value parts there.
pub proof fn lemma_parts_shifted(a: Seq<Event>, i: int, b: Seq<Event>, j: int)
    requires
        0 <= i <= a.len(),
        0 <= j <= b.len(),
        a.skip(i) == b.skip(j),
    ensures
        parts_text(a, i) == parts_text(b, j),
        has_parts(a, i) == has_parts(b, j),
    decreases a.len() - i,
{
    assert(a.skip(i).len() == a.len() - i);
    assert(b.skip(j).len() == b.len() - j);
    if i < a.len() {
        assert(j < b.len());
        assert(a.skip(i)[0] == a[i]);
        assert(b.skip(j)[0] == b[j]);
        assert(a.skip(i + 1) =~= a.skip(i).skip(1));
        assert(b.skip(j + 1) =~= b.skip(j).skip(1));
        lemma_parts_shifted(a, i + 1, b, j + 1);
    }
}

/// After the entry of the last occurrence of a key was replaced, the key has the new
/// value, followed by the value parts that stood after the old entry, if any.
pub proof fn lemma_replaced_value(
    before: Seq<Event>,
    after: Seq<Event>,
    key: Seq<u8>,
    at: int,
    value: Seq<u8>,
)
    requires
        0 <= at < before.len(),
        at == key_before(before, key, before.len() as int),
        is_key(before, at, key),
        entry_replaced(before, after, at, entry_end(before, at), value),
    ensures
        value_of(after, key) == Some(value + parts_text(before, entry_end(before, at))),
        !has_parts(before, entry_end(before, at)) ==> value_of(after, key) == Some(value),
{
    let end = entry_end(before, at);
    lemma_entry_end_bounds(before, at);
    lemma_key_before_last(before, key, before.len() as int);
    assert(is_key(after, at, key));
    assert forall|j: int| at < j < after.len() implies !is_key(after, j, key) by {
        if j >= at + 3 {
            assert(after[(j - at - 3 + end) - end + at + 3] == before[j - at - 3 + end]);
            assert(!is_key(before, j - at - 3 + end, key));
        }
    }
    lemma_key_before_is(after, key, after.len() as int, at);
    assert(after.skip(at + 3) =~= before.skip(end)) by {
        assert forall|d: int| 0 <= d < after.len() - (at + 3) implies after.skip(at + 3)[d]
            == before.skip(end)[d] by {
            assert(after[(end + d) - end + at + 3] == before[end + d]);
        }
    }
    lemma_parts_shifted(after, at + 3, before, end);
    assert(parts_text(after, at + 2) == value + parts_text(after, at + 3));
    assert(parts_text(after, at + 1) == parts_text(after, at + 2));
    assert(has_parts(after, at + 2));
    assert(has_parts(after, at + 1));
    if !has_parts(before, end) {
        lemma_no_parts_no_text(before, end);
        assert(value + parts_text(before, end) =~= value);
    }
}

/// Where no value part stands, there is no text of value parts.
pub proof fn lemma_no_parts_no_text(events: Seq<Event>, from: int)
    requires
        !has_parts(events, from),
    ensures
        parts_text(events, from) == Seq::<u8>::empty(),
    decreases events.len() - from,
{
    if 0 <= from < events.len() && !(events[from] is Key) {
        lemma_no_parts_no_text(events, from + 1);
    }
}

/// A section that does not hold a key gives it no value.
pub proof fn lemma_no_key_no_value(events: Seq<Event>, key: Seq<u8>)
    requires
        key_before(events, key, events.len() as int) == -1,
    ensures
        value_of(events, key) is None,
{
}

/// Replaces the entry from `key_at` up to `end` by the key, a separator and `value`.
pub fn replace_entry(events: Vec<Event>, key_at: usize, end: usize, value: Vec<u8>) -> (replaced:
    Vec<Event>)
    requires
        key_at < end <= events@.len(),
        events@[key_at as int] is Key,
    ensures
        entry_replaced(events@, replaced@, key_at as int, end as int, value@),
{
    let ghost all = events@;
    let total = events.len();
    let mut replaced: Vec<Event> = Vec::new();
    let mut value = Some(value);
    let ghost new_value = value->Some_0@;
    let mut at: usize = 0;
    for event in it: events
        invariant
            it.seq() == all,
            all.len() == total,
            at == it.index(),
            key_at < end <= total,
            all[key_at as int] is Key,
            at <= key_at ==> value is Some && value->Some_0@ == new_value && replaced@.len() == at,
            at > key_at ==> value is None,
            key_at < at <= end ==> replaced@.len() == key_at + 3,
            at > end ==> replaced@.len() == key_at + 3 + (at - end),
            forall|i: int| 0 <= i < key_at && i < at ==> #[trigger] replaced@[i] == all[i],
            at > key_at ==> replaced@[key_at as int] is Key && replaced@[key_at as int].text()
                == all[key_at as int].text() && replaced@[key_at + 1] is KeyValueSeparator
                && replaced@[key_at + 2] is Value && replaced@[key_at + 2].text() == new_value,
            forall|i: int| end <= i < at ==> #[trigger] replaced@[i - end + key_at + 3] == all[i],
    {
        if at < key_at {
            replaced.push(event);
        } else if at == key_at {
            replaced.push(event);
            replaced.push(Event::KeyValueSeparator);
            match value {
                Some(bytes) => {
                    replaced.push(Event::Value(bytes));
                },
                None => {},
            }
            value = None;
        } else if at >= end {
            replaced.push(event);
        }
        at += 1;
    }
    replaced
}

impl File {
    /// Where the entry of `key` stands that gives the key its value: in the newest
    /// section named `section_name` with the subsection `subsection_name`, or without
    /// one, that holds the key, at the last occurrence of the key.
    pub fn raw_value_mut(&self, section_name: &str, subsection_name: Option<&str>, key: &str) -> (place:
        Result<ValueLocation, LookupError>)
        requires
            self.wf(),
        ensures
            match self.ids(section_name.spec_bytes(), str_view(subsection_name)) {
                Err(err) => place == Err::<ValueLocation, LookupError>(err),
                Ok(ids) => match located(self, ids, key.spec_bytes(), ids.len() as int) {
                    None => place == Err::<ValueLocation, LookupError>(LookupError::KeyMissing),
                    Some((id, at)) => place matches Ok(found) && found.section == id
                        && found.index == at && found.size == 1 + counted_after(
                        self.body(id),
                        at + 1,
                    ) && self.live(id) && is_key(self.body(id), at, key.spec_bytes()),
                },
            },
    {
        let ids = match self.section_ids_by_name_and_subname(section_name, subsection_name) {
            Ok(ids) => ids,
            Err(err) => {
                return Err(err);
            },
        };
        let mut i: usize = ids.len();
        while i > 0
            invariant
                i <= ids@.len(),
                self.ids(section_name.spec_bytes(), str_view(subsection_name)) == Ok::<
                    Seq<SectionId>,
                    LookupError,
                >(ids@),
                forall|j: int| 0 <= j < ids@.len() ==> self.live(#[trigger] ids@[j]),
                located(self, ids@, key.spec_bytes(), ids@.len() as int) == located(
                    self,
                    ids@,
                    key.spec_bytes(),
                    i as int,
                ),
            decreases i,
        {
            i -= 1;
            let events = self.body_of(ids[i]).as_ref();
            let len = events.len();
            if let Some(at) = find_key(events, key.as_bytes()) {
                proof {
                    lemma_counted_bounded(events@, at as int + 1);
                }
                let size = 1 + count_after(events, at + 1);
                return Ok(ValueLocation { section: ids[i], index: at, size });
            }
        }
        Err(LookupError::KeyMissing)
    }

    /// Gives `key` the value `new_value` where [`File::raw_value_mut`] finds its entry:
    /// the entry is replaced by the key, a separator and the new value.
    pub fn set_raw_value(
        &mut self,
        section_name: &str,
        subsection_name: Option<&str>,
        key: &str,
        new_value: Vec<u8>,
    ) -> (set: Result<(), LookupError>)
        requires
            old(self).wf(),
        ensures
            final(self).wf(),
            final(self).section_headers == old(self).section_headers,
            final(self).section_order == old(self).section_order,
            final(self).section_lookup_tree == old(self).section_lookup_tree,
            final(self).section_id_counter == old(self).section_id_counter,
            final(self).frontmatter_events == old(self).frontmatter_events,
            match old(self).ids(section_name.spec_bytes(), str_view(subsection_name)) {
                Err(err) => set == Err::<(), LookupError>(err) && final(self).sections
                    == old(self).sections,
                Ok(ids) => match located(old(self), ids, key.spec_bytes(), ids.len() as int) {
                    None => set == Err::<(), LookupError>(LookupError::KeyMissing)
                        && final(self).sections == old(self).sections,
                    Some((id, at)) => {
                        &&& set is Ok
                        &&& final(self).sections@.len() == old(self).sections@.len()
                        &&& forall|i: int|
                            0 <= i < old(self).sections@.len() && i != id.0
                                ==> #[trigger] final(self).sections@[i] == old(self).sections@[i]
                        &&& final(self).live(id)
                        &&& entry_replaced(
                            old(self).body(id),
                            final(self).body(id),
                            at,
                            entry_end(old(self).body(id), at),
                            new_value@,
                        )
                        &&& final(self).raw_value_of(
                            section_name.spec_bytes(),
                            str_view(subsection_name),
                            key.spec_bytes(),
                        ) == Ok::<Seq<u8>, LookupError>(
                            new_value@ + parts_text(
                                old(self).body(id),
                                entry_end(old(self).body(id), at),
                            ),
                        )
                    },
                },
            },
    {
        let place = match self.raw_value_mut(section_name, subsection_name, key) {
            Ok(place) => place,
            Err(err) => {
                return Err(err);
            },
        };
        let id = place.section;
        let body = match self.sections.remove(id.0) {
            Some(body) => body,
            None => vstd::pervasive::unreached(),
        };
        let end = find_entry_end(&body.0, place.index);
        let replaced = replace_entry(body.0, place.index, end, new_value);
        self.sections.insert(id.0, Some(SectionBody(replaced)));
        proof {
            assert(self.sections@ =~= old(self).sections@.update(
                id.0 as int,
                Some(SectionBody(replaced)),
            ));
            assert forall|x: SectionId| #[trigger]
                crate::config::file::live_in(old(self).sections@)(x) implies crate::config::file::live_in(
                self.sections@,
            )(x) by {
                if x.0 != id.0 {
                    assert(self.sections@[x.0 as int] == old(self).sections@[x.0 as int]);
                }
            }
            crate::config::file::lemma_tree_all_weaken(
                self.section_lookup_tree@,
                crate::config::file::live_in(old(self).sections@),
                crate::config::file::live_in(self.sections@),
            );
            assert forall|k: int| 0 <= k < self.section_order@.len() implies self.live(
                #[trigger] self.section_order@[k],
            ) by {
                assert(old(self).live(old(self).section_order@[k]));
            }
            let ids = old(self).ids(section_name.spec_bytes(), str_view(subsection_name))->Ok_0;
            lemma_located_holds(old(self), ids, key.spec_bytes(), ids.len() as int);
            crate::config::lookup::lemma_found_all(
                old(self).section_lookup_tree@,
                section_name.spec_bytes(),
                str_view(subsection_name),
                crate::config::file::live_in(old(self).sections@),
            );
            assert forall|i: int| 0 <= i < ids.len() implies old(self).live(#[trigger] ids[i]) by {
                assert(crate::config::file::live_in(old(self).sections@)(ids[i]));
            }
            lemma_key_before_last(
                old(self).body(id),
                key.spec_bytes(),
                old(self).body(id).len() as int,
            );
            lemma_replaced_value(
                old(self).body(id),
                self.body(id),
                key.spec_bytes(),
                place.index as int,
                new_value@,
            );
            lemma_set_then_get(
                old(self),
                self,
                ids,
                key.spec_bytes(),
                ids.len() as int,
                id,
                place.index as int,
            );
        }
        Ok(())
    }
}

/// After the value of a key was set in the newest section that holds the key, the
/// newest value of the key among the sections is the one of that section.
pub proof fn lemma_set_then_get(
    before: &File,
    after: &File,
    ids: Seq<SectionId>,
    key: Seq<u8>,
    end: int,
    id: SectionId,
    at: int,
)
    requires
        0 <= end <= ids.len(),
        located(before, ids, key, end) == Some((id, at)),
        forall|i: int| 0 <= i < ids.len() ==> before.live(#[trigger] ids[i]),
        after.sections@.len() == before.sections@.len(),
        forall|i: int|
            0 <= i < before.sections@.len() && i != id.0 ==> #[trigger] after.sections@[i]
                == before.sections@[i],
        value_of(after.body(id), key) is Some,
    ensures
        last_value(after, ids, key, end) == value_of(after.body(id), key),
    decreases end,
{
    if end > 0 {
        let last = ids[end - 1];
        let events = before.body(last);
        if key_before(events, key, events.len() as int) >= 0 {
            assert(last == id);
        } else {
            assert(last != id) by {
                if last == id {
                    assert(located(before, ids, key, end - 1) == Some((id, at)));
                    lemma_located_holds(before, ids, key, end - 1);
                }
            }
            assert(before.live(last));
            assert(after.sections@[last.0 as int] == before.sections@[last.0 as int]);
            lemma_key_before_last(events, key, events.len() as int);
            lemma_no_key_no_value(events, key);
            lemma_set_then_get(before, after, ids, key, end - 1, id, at);
        }
    }
}

/// The section that a search locates holds the key.
pub proof fn lemma_located_holds(file: &File, ids: Seq<SectionId>, key: Seq<u8>, end: int)
    requires
        0 <= end <= ids.len(),
    ensures
        located(file, ids, key, end) matches Some((id, at)) ==> at == key_before(
            file.body(id),
            key,
            file.body(id).len() as int,
        ) && at >= 0,
    decreases end,
{
    if end > 0 {
        lemma_located_holds(file, ids, key, end - 1);
    }
}

impl File {
    /// The body of the newest section named `section_name` with the subsection
    /// `subsection_name`, or without one, to be changed in place.
    pub fn section_mut(&mut self, section_name: &str, subsection_name: Option<&str>) -> (body:
        Result<&mut SectionBody, LookupError>)
        requires
            old(self).wf(),
        ensures
            match old(self).ids(section_name.spec_bytes(), str_view(subsection_name)) {
                Err(err) => body matches Err(why) && why == err && *final(self) == *old(self),
                Ok(ids) => if ids.len() == 0 {
                    body matches Err(why) && why == LookupError::SubSectionMissing && *final(self)
                        == *old(self)
                } else {
                    &&& body is Ok
                    &&& *body->Ok_0 == old(self).sections@[ids.last().0 as int]->Some_0
                    &&& final(self).sections@ == old(self).sections@.update(
                        ids.last().0 as int,
                        Some(*final(body->Ok_0)),
                    )
                    &&& final(self).section_headers == old(self).section_headers
                    &&& final(self).section_order == old(self).section_order
                    &&& final(self).section_lookup_tree == old(self).section_lookup_tree
                    &&& final(self).section_id_counter == old(self).section_id_counter
                    &&& final(self).frontmatter_events == old(self).frontmatter_events
                },
            },
    {
        let ids = match self.section_ids_by_name_and_subname(section_name, subsection_name) {
            Ok(ids) => ids,
            Err(err) => {
                return Err(err);
            },
        };
        if ids.len() == 0 {
            return Err(LookupError::SubSectionMissing);
        }
        let id = ids[ids.len() - 1];
        match &mut self.sections[id.0] {
            Some(body) => Ok(body),
            None => vstd::pervasive::unreached(),
        }
    }
}

/// The positions at or after `from` of the occurrences of `key` that have a value.
pub open spec fn occurrences(events: Seq<Event>, key: Seq<u8>, from: int) -> Seq<int>
    decreases events.len() - from,
{
    if from < 0 || from >= events.len() {
        Seq::empty()
    } else if is_key(events, from, key) && value_end(events, from + 1) is Some {
        seq![from] + occurrences(events, key, from + 1)
    } else {
        occurrences(events, key, from + 1)
    }
}

/// The places of the occurrences of `key` with a value in the first `end` sections of
/// `ids`, oldest section first.
pub open spec fn all_places(file: &File, ids: Seq<SectionId>, key: Seq<u8>, end: int) -> Seq<
    (SectionId, int),
>
    decreases end,
{
    if end <= 0 {
        Seq::empty()
    } else {
        all_places(file, ids, key, end - 1) + occurrences(
            file.body(ids[end - 1]),
            key,
            0,
        ).map_values(|at: int| (ids[end - 1], at))
    }
}

/// The place that a location names.
pub open spec fn place_of(location: ValueLocation) -> (SectionId, int) {
    (location.section, location.index as int)
}

/// The positions of the occurrences of `key` that have a value, with the position
/// after each of these entries.
pub fn find_occurrences(events: &Vec<Event>, key: &[u8]) -> (found: Vec<(usize, usize)>)
    ensures
        found@.map_values(|p: (usize, usize)| p.0 as int) == occurrences(events@, key@, 0),
        forall|i: int|
            0 <= i < found@.len() ==> (#[trigger] found@[i]).0 < found@[i].1 <= events@.len()
                && events@[found@[i].0 as int] is Key && found@[i].1 == entry_end(
                events@,
                found@[i].0 as int,
            ),
{
    let len = events.len();
    let mut found: Vec<(usize, usize)> = Vec::new();
    let mut i: usize = 0;
    assert(found@.map_values(|p: (usize, usize)| p.0 as int) =~= Seq::<int>::empty());
    while i < len
        invariant
            len == events@.len(),
            i <= len,
            occurrences(events@, key@, 0) == found@.map_values(|p: (usize, usize)| p.0 as int)
                + occurrences(events@, key@, i as int),
            forall|k: int|
                0 <= k < found@.len() ==> (#[trigger] found@[k]).0 < found@[k].1 <= events@.len()
                    && events@[found@[k].0 as int] is Key && found@[k].1 == entry_end(
                    events@,
                    found@[k].0 as int,
                ),
        decreases len - i,
    {
        let mut matches = false;
        if let Event::Key(name) = &events[i] {
            if eq_ignore_case(name.as_slice(), key) {
                matches = true;
            }
        }
        assert(matches == is_key(events@, i as int, key@));
        if matches {
            let end = find_entry_end(events, i);
            if end > i + 1 {
                let ghost before = found@.map_values(|p: (usize, usize)| p.0 as int);
                proof {
                    lemma_entry_end_bounds(events@, i as int);
                }
                found.push((i, end));
                assert(found@.map_values(|p: (usize, usize)| p.0 as int) =~= before.push(
                    i as int,
                ));
                assert(before + (seq![i as int] + occurrences(events@, key@, i + 1))
                    =~= before.push(i as int) + occurrences(events@, key@, i + 1));
            } else {
                proof {
                    lemma_entry_end_bounds(events@, i as int);
                }
            }
        }
        i += 1;
    }
    assert(found@.map_values(|p: (usize, usize)| p.0 as int) + Seq::<int>::empty()
        =~= found@.map_values(|p: (usize, usize)| p.0 as int));
    found
}

/// An entry ends after its key, and after the key alone exactly where it has no value.
/// No key stands within the entry but its own.
pub proof fn lemma_entry_end_bounds(events: Seq<Event>, key_at: int)
    requires
        0 <= key_at < events.len(),
    ensures
        key_at < entry_end(events, key_at) <= events.len(),
        (entry_end(events, key_at) > key_at + 1) == (value_end(events, key_at + 1) is Some),
{
    lemma_value_end_bounds(events, key_at + 1);
}

/// A value ends after the position where the search for its end starts.
pub proof fn lemma_value_end_bounds(events: Seq<Event>, from: int)
    requires
        0 <= from <= events.len(),
    ensures
        value_end(events, from) matches Some(end) ==> from < end <= events.len(),
    decreases events.len() - from,
{
    if from < events.len() {
        lemma_value_end_bounds(events, from + 1);
    }
}

impl File {
    /// Where the entries of `key` stand that have a value, in all sections named
    /// `section_name` with the subsection `subsection_name`, or without one: oldest
    /// section first, and within a section in the order of the file.
    pub fn raw_multi_value_mut(
        &self,
        section_name: &str,
        subsection_name: Option<&str>,
        key: &str,
    ) -> (places: Result<Vec<ValueLocation>, LookupError>)
        requires
            self.wf(),
        ensures
            match self.ids(section_name.spec_bytes(), str_view(subsection_name)) {
                Err(err) => places == Err::<Vec<ValueLocation>, LookupError>(err),
                Ok(ids) => if all_places(self, ids, key.spec_bytes(), ids.len() as int).len()
                    == 0 {
                    places == Err::<Vec<ValueLocation>, LookupError>(LookupError::KeyMissing)
                } else {
                    places matches Ok(found) && found@.map_values(|l: ValueLocation| place_of(l))
                        == all_places(self, ids, key.spec_bytes(), ids.len() as int)
                        && forall|i: int|
                        0 <= i < found@.len() ==> self.live((#[trigger] found@[i]).section)
                            && found@[i].size == 1 + counted_after(
                            self.body(found@[i].section),
                            found@[i].index + 1,
                        )
                },
            },
    {
        let ids = match self.section_ids_by_name_and_subname(section_name, subsection_name) {
            Ok(ids) => ids,
            Err(err) => {
                return Err(err);
            },
        };
        let mut places: Vec<ValueLocation> = Vec::new();
        let mut i: usize = 0;
        assert(places@.map_values(|l: ValueLocation| place_of(l)) =~= Seq::<
            (SectionId, int),
        >::empty());
        while i < ids.len()
            invariant
                i <= ids@.len(),
                forall|j: int| 0 <= j < ids@.len() ==> self.live(#[trigger] ids@[j]),
                places@.map_values(|l: ValueLocation| place_of(l)) == all_places(
                    self,
                    ids@,
                    key.spec_bytes(),
                    i as int,
                ),
                forall|j: int|
                    0 <= j < places@.len() ==> self.live((#[trigger] places@[j]).section)
                        && places@[j].size == 1 + counted_after(
                        self.body(places@[j].section),
                        places@[j].index + 1,
                    ),
            decreases ids@.len() - i,
        {
            let id = ids[i];
            let events = self.body_of(id).as_ref();
            let found = find_occurrences(events, key.as_bytes());
            let ghost start = places@.map_values(|l: ValueLocation| place_of(l));
            let ghost here = occurrences(events@, key.spec_bytes(), 0).map_values(
                |at: int| (id, at),
            );
            let mut k: usize = 0;
            assert(start + here.take(0) =~= start);
            while k < found.len()
                invariant
                    k <= found@.len(),
                    found@.map_values(|p: (usize, usize)| p.0 as int) == occurrences(
                        events@,
                        key.spec_bytes(),
                        0,
                    ),
                    here == occurrences(events@, key.spec_bytes(), 0).map_values(
                        |at: int| (id, at),
                    ),
                    forall|j: int|
                        0 <= j < found@.len() ==> (#[trigger] found@[j]).0 < found@[j].1
                            <= events@.len(),
                    places@.map_values(|l: ValueLocation| place_of(l)) == start + here.take(
                        k as int,
                    ),
                    self.live(id),
                    events@ == self.body(id),
                    forall|j: int|
                        0 <= j < places@.len() ==> self.live((#[trigger] places@[j]).section)
                            && places@[j].size == 1 + counted_after(
                            self.body(places@[j].section),
                            places@[j].index + 1,
                        ),
                decreases found@.len() - k,
            {
                let at = found[k].0;
                proof {
                    lemma_counted_bounded(events@, at as int + 1);
                    assert(found@.map_values(|p: (usize, usize)| p.0 as int)[k as int] == at);
                    assert(here[k as int] == (id, at as int));
                }
                let len = events.len();
                let size = 1 + count_after(events, at + 1);
                let ghost sofar = places@.map_values(|l: ValueLocation| place_of(l));
                places.push(ValueLocation { section: id, index: at, size });
                assert(here.take(k as int + 1) =~= here.take(k as int).push(here[k as int]));
                assert(places@.map_values(|l: ValueLocation| place_of(l)) =~= sofar.push(
                    (id, at as int),
                ));
                assert(places@.map_values(|l: ValueLocation| place_of(l)) =~= start + here.take(
                    k as int + 1,
                ));
                k += 1;
            }
            assert(here.take(found@.len() as int) =~= here);
            i += 1;
        }
        if places.len() == 0 {
            Err(LookupError::KeyMissing)
        } else {
            Ok(places)
        }
    }
}

/// What the events from `from` on say once the entries of `key` that have a value got
/// the values of `values`, one after the other: such an entry becomes the key, a
/// separator and the value. Entries for which no value is left stay as they are.
pub open spec fn with_values(
    events: Seq<Event>,
    key: Seq<u8>,
    values: Seq<Seq<u8>>,
    from: int,
) -> Seq<EventModel>
    decreases events.len() - from,
{
    if from < 0 || from >= events.len() {
        Seq::empty()
    } else if values.len() > 0 && is_key(events, from, key) && value_end(events, from + 1)
        is Some {
        proof {
            lemma_entry_end_bounds(events, from);
        }
        seq![
            model_of(events[from]),
            plain(EventKind::KeyValueSeparator, Seq::empty()),
            plain(EventKind::Value, values[0]),
        ] + with_values(events, key, values.drop_first(), entry_end(events, from))
    } else {
        seq![model_of(events[from])] + with_values(events, key, values, from + 1)
    }
}

/// The texts of a list of values.
pub open spec fn texts(values: Seq<Vec<u8>>) -> Seq<Seq<u8>> {
    values.map_values(|v: Vec<u8>| v@)
}

/// How many of `left` values the entries of `key` among `events` take.
pub open spec fn taken(events: Seq<Event>, key: Seq<u8>, left: int) -> int {
    if occurrences(events, key, 0).len() <= left {
        occurrences(events, key, 0).len() as int
    } else {
        left
    }
}

/// The first occurrence of a key with a value from a position on stands there exactly
/// where an entry of the key with a value starts; else all occurrences stand later.
pub proof fn lemma_occurrences_first(events: Seq<Event>, key: Seq<u8>, from: int)
    requires
        0 <= from < events.len(),
    ensures
        is_key(events, from, key) && value_end(events, from + 1) is Some ==> occurrences(
            events,
            key,
            from,
        ).len() > 0 && occurrences(events, key, from)[0] == from && occurrences(
            events,
            key,
            from,
        ).drop_first() == occurrences(events, key, from + 1),
        !(is_key(events, from, key) && value_end(events, from + 1) is Some) ==> occurrences(
            events,
            key,
            from,
        ) == occurrences(events, key, from + 1),
        ({
            let later = occurrences(events, key, from + 1);
            forall|i: int| 0 <= i < later.len() ==> #[trigger] later[i] > from
        }),
{
    lemma_occurrences_later(events, key, from + 1);
    if is_key(events, from, key) && value_end(events, from + 1) is Some {
        assert((seq![from] + occurrences(events, key, from + 1)).drop_first() =~= occurrences(
            events,
            key,
            from + 1,
        ));
    }
}

/// The occurrences of a key from a position on stand at or after it.
pub proof fn lemma_occurrences_later(events: Seq<Event>, key: Seq<u8>, from: int)
    requires
        0 <= from,
    ensures
        forall|i: int|
            0 <= i < occurrences(events, key, from).len() ==> occurrences(events, key, from)[i]
                >= from,
    decreases events.len() - from,
{
    if from < events.len() {
        lemma_occurrences_later(events, key, from + 1);
        let here = occurrences(events, key, from);
        let later = occurrences(events, key, from + 1);
        assert forall|i: int| 0 <= i < here.len() implies here[i] >= from by {
            if is_key(events, from, key) && value_end(events, from + 1) is Some {
                if i > 0 {
                    assert(here[i] == later[i - 1]);
                }
            } else {
                assert(here[i] == later[i]);
            }
        }
    }
}

/// Where no key stands between two positions, the occurrences of a key from the one
/// on are those from the other on.
pub proof fn lemma_occurrences_skip(events: Seq<Event>, key: Seq<u8>, from: int, to: int)
    requires
        0 <= from <= to <= events.len(),
        forall|j: int| from <= j < to ==> !(#[trigger] events[j] is Key),
    ensures
        occurrences(events, key, from) == occurrences(events, key, to),
    decreases to - from,
{
    if from < to {
        assert(!(events[from] is Key));
        lemma_occurrences_skip(events, key, from + 1, to);
    }
}

/// No key stands before the end of a value.
pub proof fn lemma_no_key_in_value(events: Seq<Event>, from: int)
    requires
        0 <= from <= events.len(),
    ensures
        value_end(events, from) matches Some(end) ==> forall|j: int|
            from <= j < end ==> !(#[trigger] events[j] is Key),
    decreases events.len() - from,
{
    if from < events.len() {
        lemma_no_key_in_value(events, from + 1);
    }
}

/// Gives the entries that `found` lists the values of `values` from `next` on, one
/// after the other, and tells which value is the next after that.
fn replace_entries(
    events: Vec<Event>,
    found: &Vec<(usize, usize)>,
    values: &Vec<Vec<u8>>,
    next: usize,
    Ghost(key): Ghost<Seq<u8>>,
) -> (done: (Vec<Event>, usize))
    requires
        next <= values@.len(),
        found@.map_values(|p: (usize, usize)| p.0 as int) == occurrences(events@, key, 0),
        forall|i: int|
            0 <= i < found@.len() ==> (#[trigger] found@[i]).0 < found@[i].1 <= events@.len()
                && found@[i].1 == entry_end(events@, found@[i].0 as int),
    ensures
        models(done.0@) == with_values(events@, key, texts(values@).skip(next as int), 0),
        done.1 == next + taken(events@, key, values@.len() - next),
{
    let ghost all = events@;
    let ghost firsts = found@.map_values(|p: (usize, usize)| p.0 as int);
    let ghost target = with_values(all, key, texts(values@).skip(next as int), 0);
    let mut replaced: Vec<Event> = Vec::new();
    let mut at: usize = 0;
    let mut k: usize = 0;
    let mut v: usize = next;
    let mut skip_until: usize = 0;
    let total = events.len();
    proof {
        assert(models(replaced@) =~= Seq::<EventModel>::empty());
        assert(models(replaced@) + target =~= target);
        assert(firsts.skip(0) =~= firsts);
    }
    for event in it: events
        invariant
            it.seq() == all,
            all.len() == total,
            at == it.index(),
            skip_until <= total,
            k <= found@.len(),
            next <= v <= values@.len(),
            firsts == found@.map_values(|p: (usize, usize)| p.0 as int),
            firsts == occurrences(all, key, 0),
            forall|i: int|
                0 <= i < found@.len() ==> (#[trigger] found@[i]).0 < found@[i].1 <= all.len()
                    && found@[i].1 == entry_end(all, found@[i].0 as int),
            firsts.skip(k as int) == occurrences(
                all,
                key,
                if at >= skip_until {
                    at as int
                } else {
                    skip_until as int
                },
            ),
            target == models(replaced@) + with_values(
                all,
                key,
                texts(values@).skip(v as int),
                if at >= skip_until {
                    at as int
                } else {
                    skip_until as int
                },
            ),
            v - next == (if k <= values@.len() - next {
                k as int
            } else {
                values@.len() - next
            }),
    {
        assert(event == all[at as int]);
        if at >= skip_until {
            let ghost left = texts(values@).skip(v as int);
            let ghost before = models(replaced@);
            proof {
                lemma_occurrences_first(all, key, at as int);
                lemma_entry_end_bounds(all, at as int);
            }
            let mut here = false;
            if k < found.len() {
                assert(firsts.skip(k as int)[0] == firsts[k as int]);
                assert(firsts[k as int] == found@[k as int].0);
                if found[k].0 == at {
                    here = true;
                }
            }
            assert(here == (is_key(all, at as int, key) && value_end(all, at + 1) is Some));
            if here {
                let end = found[k].1;
                proof {
                    assert(firsts.skip(k as int).drop_first() =~= firsts.skip(k + 1));
                    lemma_no_key_in_value(all, at + 1);
                    lemma_occurrences_skip(all, key, at + 1, end as int);
                }
                k += 1;
                if v < values.len() {
                    let value = copy_of(&values[v]);
                    proof {
                        assert(left[0] == value@);
                        assert(left.drop_first() =~= texts(values@).skip(v + 1));
                        assert(model_of(Event::KeyValueSeparator) == plain(
                            EventKind::KeyValueSeparator,
                            Seq::empty(),
                        ));
                        assert(model_of(Event::Value(value)) == plain(EventKind::Value, value@));
                    }
                    replaced.push(event);
                    replaced.push(Event::KeyValueSeparator);
                    replaced.push(Event::Value(value));
                    v += 1;
                    skip_until = end;
                    proof {
                        assert(models(replaced@) =~= before + seq![
                            model_of(event),
                            plain(EventKind::KeyValueSeparator, Seq::empty()),
                            plain(EventKind::Value, value@),
                        ]);
                        assert(target =~= models(replaced@) + with_values(
                            all,
                            key,
                            texts(values@).skip(v as int),
                            end as int,
                        ));
                    }
                } else {
                    replaced.push(event);
                    proof {
                        assert(left.len() == 0);
                        assert(models(replaced@) =~= before + seq![model_of(event)]);
                        assert(target =~= models(replaced@) + with_values(
                            all,
                            key,
                            texts(values@).skip(v as int),
                            at + 1,
                        ));
                        lemma_occurrences_skip(all, key, at + 1, at + 1);
                    }
                }
            } else {
                replaced.push(event);
                proof {
                    assert(models(replaced@) =~= before + seq![model_of(event)]);
                    assert(target =~= models(replaced@) + with_values(
                        all,
                        key,
                        texts(values@).skip(v as int),
                        at + 1,
                    ));
                }
            }
        }
        at += 1;
    }
    proof {
        assert(firsts.skip(k as int).len() == 0);
        assert(models(replaced@) + Seq::<EventModel>::empty() =~= models(replaced@));
    }
    (replaced, v)
}

/// How many of `count` values the first `end` sections of `ids` take for their
/// entries of `key`.
pub open spec fn values_before(
    file: &File,
    ids: Seq<SectionId>,
    key: Seq<u8>,
    end: int,
    count: int,
) -> int {
    if all_places(file, ids, key, end).len() <= count {
        all_places(file, ids, key, end).len() as int
    } else {
        count
    }
}

/// The sections up to one take what the sections before it take and what it takes of
/// the rest.
pub proof fn lemma_values_before_next(
    file: &File,
    ids: Seq<SectionId>,
    key: Seq<u8>,
    end: int,
    count: int,
)
    requires
        0 <= end < ids.len(),
        0 <= count,
    ensures
        values_before(file, ids, key, end + 1, count) == values_before(file, ids, key, end, count)
            + taken(
            file.body(ids[end]),
            key,
            count - values_before(file, ids, key, end, count),
        ),
{
    assert(all_places(file, ids, key, end + 1).len() == all_places(file, ids, key, end).len()
        + occurrences(file.body(ids[end]), key, 0).len());
}

impl File {
    /// Puts `events` in place of the body of the section `id`.
    pub fn replace_body(&mut self, id: SectionId, events: Vec<Event>) -> (before: SectionBody)
        requires
            old(self).wf(),
            old(self).live(id),
        ensures
            final(self).wf(),
            before@ == old(self).body(id),
            final(self).sections@ == old(self).sections@.update(
                id.0 as int,
                Some(SectionBody(events)),
            ),
            final(self).section_headers == old(self).section_headers,
            final(self).section_order == old(self).section_order,
            final(self).section_lookup_tree == old(self).section_lookup_tree,
            final(self).section_id_counter == old(self).section_id_counter,
            final(self).frontmatter_events == old(self).frontmatter_events,
    {
        let before = match self.sections.remove(id.0) {
            Some(body) => body,
            None => vstd::pervasive::unreached(),
        };
        self.sections.insert(id.0, Some(SectionBody(events)));
        proof {
            assert(self.sections@ =~= old(self).sections@.update(
                id.0 as int,
                Some(SectionBody(events)),
            ));
            assert forall|x: SectionId| #[trigger]
                crate::config::file::live_in(old(self).sections@)(x) implies crate::config::file::live_in(
                self.sections@,
            )(x) by {
                if x.0 != id.0 {
                    assert(self.sections@[x.0 as int] == old(self).sections@[x.0 as int]);
                }
            }
            crate::config::file::lemma_tree_all_weaken(
                self.section_lookup_tree@,
                crate::config::file::live_in(old(self).sections@),
                crate::config::file::live_in(self.sections@),
            );
            assert forall|k: int| 0 <= k < self.section_order@.len() implies self.live(
                #[trigger] self.section_order@[k],
            ) by {
                assert(old(self).live(old(self).section_order@[k]));
            }
        }
        before
    }

    /// Gives the entries of `key` that have a value the values of `new_values`, one
    /// after the other: the entries are taken as [`File::raw_multi_value_mut`] lists
    /// them. Values for which no entry is left are dropped, and entries for which no
    /// value is left stay as they are.
    ///
    /// Sections of another name stay as they are. Where the index lists no section
    /// twice, each section of the name says afterwards what [`with_values`] gives for it,
    /// from the first value on that the sections before it did not take.
    pub fn set_raw_multi_value(
        &mut self,
        section_name: &str,
        subsection_name: Option<&str>,
        key: &str,
        new_values: Vec<Vec<u8>>,
    ) -> (set: Result<(), LookupError>)
        requires
            old(self).wf(),
        ensures
            final(self).wf(),
            final(self).section_headers == old(self).section_headers,
            final(self).section_order == old(self).section_order,
            final(self).section_lookup_tree == old(self).section_lookup_tree,
            final(self).section_id_counter == old(self).section_id_counter,
            final(self).frontmatter_events == old(self).frontmatter_events,
            match old(self).ids(section_name.spec_bytes(), str_view(subsection_name)) {
                Err(err) => set == Err::<(), LookupError>(err) && final(self).sections
                    == old(self).sections,
                Ok(ids) => if all_places(old(self), ids, key.spec_bytes(), ids.len() as int).len()
                    == 0 {
                    set == Err::<(), LookupError>(LookupError::KeyMissing) && final(self).sections
                        == old(self).sections
                } else {
                    &&& set is Ok
                    &&& forall|x: SectionId|
                        old(self).live(x) && !ids.contains(x) ==> final(self).sections@[x.0 as int]
                            == old(self).sections@[x.0 as int]
                    &&& ids.no_duplicates() ==> forall|i: int|
                        0 <= i < ids.len() ==> models(final(self).body(#[trigger] ids[i]))
                            == with_values(
                            old(self).body(ids[i]),
                            key.spec_bytes(),
                            texts(new_values@).skip(
                                values_before(old(self), ids, key.spec_bytes(), i, new_values@.len() as int),
                            ),
                            0,
                        )
                },
            },
    {
        match self.raw_multi_value_mut(section_name, subsection_name, key) {
            Ok(_) => {},
            Err(err) => {
                return Err(err);
            },
        }
        let ids = match self.section_ids_by_name_and_subname(section_name, subsection_name) {
            Ok(ids) => ids,
            Err(err) => {
                return Err(err);
            },
        };
        let ghost name = key.spec_bytes();
        let ghost count = new_values@.len() as int;
        let mut next: usize = 0;
        let mut i: usize = 0;
        while i < ids.len()
            invariant
                i <= ids@.len(),
                self.wf(),
                name == key.spec_bytes(),
                count == new_values@.len(),
                next <= new_values@.len(),
                forall|j: int| 0 <= j < ids@.len() ==> old(self).live(#[trigger] ids@[j]),
                forall|j: int| 0 <= j < ids@.len() ==> self.live(#[trigger] ids@[j]),
                self.sections@.len() == old(self).sections@.len(),
                self.section_headers == old(self).section_headers,
                self.section_order == old(self).section_order,
                self.section_lookup_tree == old(self).section_lookup_tree,
                self.section_id_counter == old(self).section_id_counter,
                self.frontmatter_events == old(self).frontmatter_events,
                forall|x: SectionId|
                    old(self).live(x) && !ids@.contains(x) ==> self.sections@[x.0 as int] == old(
                        self,
                    ).sections@[x.0 as int],
                ids@.no_duplicates() ==> {
                    &&& next == values_before(old(self), ids@, name, i as int, count)
                    &&& forall|j: int|
                        i <= j < ids@.len() ==> self.sections@[(#[trigger] ids@[j]).0 as int] == old(
                            self,
                        ).sections@[ids@[j].0 as int]
                    &&& forall|j: int|
                        0 <= j < i ==> models(self.body(#[trigger] ids@[j])) == with_values(
                            old(self).body(ids@[j]),
                            name,
                            texts(new_values@).skip(values_before(old(self), ids@, name, j, count)),
                            0,
                        )
                },
            decreases ids@.len() - i,
        {
            let id = ids[i];
            let ghost then = *self;
            let found = find_occurrences(self.body_of(id).as_ref(), key.as_bytes());
            let body = self.replace_body(id, Vec::new());
            let (replaced, after) = replace_entries(body.0, &found, &new_values, next, Ghost(name));
            let _ = self.replace_body(id, replaced);
            proof {
                assert(old(self).live(id));
                assert forall|x: SectionId| old(self).live(x) && !ids@.contains(x) implies self.sections@[x.0 as int]
                    == old(self).sections@[x.0 as int] by {
                    assert(ids@[i as int] == id);
                    assert(x != id);
                }
                assert forall|j: int| 0 <= j < ids@.len() implies self.live(#[trigger] ids@[j]) by {
                    assert(then.live(ids@[j]));
                }
                if ids@.no_duplicates() {
                    assert(then.body(id) == old(self).body(id));
                    lemma_values_before_next(old(self), ids@, name, i as int, count);
                    assert forall|j: int| i + 1 <= j < ids@.len() implies self.sections@[(
                    #[trigger] ids@[j]).0 as int] == old(self).sections@[ids@[j].0 as int] by {
                        assert(ids@[j] != ids@[i as int]);
                    }
                    assert forall|j: int| 0 <= j < i + 1 implies models(
                        self.body(#[trigger] ids@[j]),
                    ) == with_values(
                        old(self).body(ids@[j]),
                        name,
                        texts(new_values@).skip(values_before(old(self), ids@, name, j, count)),
                        0,
                    ) by {
                        if j < i {
                            assert(ids@[j] != ids@[i as int]);
                            assert(self.body(ids@[j]) == then.body(ids@[j]));
                        }
                    }
                }
            }
            next = after;
            i += 1;
        }
        Ok(())
    }

    /// Adds the sections of `other` at the end of the file, in the order of their ids.
    /// Each keeps its name, its subsection and its body, and gets the next free id; a
    /// subsection is written in quotes after a blank. What stands before the first
    /// section of `other` is dropped.
    pub fn append(&mut self, other: File)
        requires
            old(self).wf(),
            other.wf(),
        ensures
            final(self).wf(),
            final(self).frontmatter_events == old(self).frontmatter_events,
            final(self).sections@ == old(self).sections@ + crate::config::file::kept_upto(
                other.sections@,
                other.sections@.len() as int,
            ),
            final(self).section_id_counter == final(self).sections@.len(),
            final(self).section_order@ == old(self).section_order@ + Seq::new(
                (final(self).sections@.len() - old(self).sections@.len()) as nat,
                |k: int| SectionId((old(self).sections@.len() + k) as usize),
            ),
            forall|k: int|
                0 <= k < final(self).sections@.len() - old(self).sections@.len() ==> appended_header(
                    (#[trigger] final(self).section_headers@[old(self).sections@.len() + k])->Some_0,
                    kept_headers(other.section_headers@, other.section_headers@.len() as int)[k],
                ),
            forall|k: int|
                0 <= k < old(self).sections@.len() ==> (#[trigger] final(self).section_headers@[k])
                    == old(self).section_headers@[k],
    {
        let mut headers = other.section_headers;
        let mut bodies = other.sections;
        let ghost all = bodies@;
        let ghost all_headers = headers@;
        let ghost start = self.sections@;
        let ghost start_order = self.section_order@;
        let total = bodies.len();
        let mut i: usize = 0;
        proof {
            assert(start + crate::config::file::kept_upto(all, 0) =~= start);
            assert(start_order + Seq::new(0nat, |k: int| SectionId((start.len() + k) as usize))
                =~= start_order);
        }
        while i < total
            invariant
                i <= total,
                total == all.len(),
                all_headers.len() == all.len(),
                self.wf(),
                self.frontmatter_events == old(self).frontmatter_events,
                start == old(self).sections@,
                start_order == old(self).section_order@,
                bodies@ == all.skip(i as int),
                headers@ == all_headers.skip(i as int),
                forall|k: int|
                    0 <= k < all.len() ==> (#[trigger] all[k] is Some) == (all_headers[k] is Some),
                self.sections@ == start + crate::config::file::kept_upto(all, i as int),
                crate::config::file::kept_upto(all, i as int).len() == kept_headers(
                    all_headers,
                    i as int,
                ).len(),
                self.section_order@ == start_order + Seq::new(
                    (self.sections@.len() - start.len()) as nat,
                    |k: int| SectionId((start.len() + k) as usize),
                ),
                forall|k: int|
                    0 <= k < self.sections@.len() - start.len() ==> appended_header(
                        (#[trigger] self.section_headers@[start.len() + k])->Some_0,
                        kept_headers(all_headers, i as int)[k],
                    ),
                forall|k: int|
                    0 <= k < start.len() ==> (#[trigger] self.section_headers@[k]) == old(
                        self,
                    ).section_headers@[k],
            decreases total - i,
        {
            let ghost then_headers = self.section_headers@;
            let header = headers.remove(0);
            let body = bodies.remove(0);
            proof {
                assert(body == all[i as int]);
                assert(header == all_headers[i as int]);
                assert(bodies@ =~= all.skip(i as int + 1));
                assert(headers@ =~= all_headers.skip(i as int + 1));
            }
            match body {
                Some(body) => {
                    let header = match header {
                        Some(header) => header,
                        None => vstd::pervasive::unreached(),
                    };
                    let ghost kept = header;
                    let separator = if header.subsection_name.is_some() {
                        let mut blank: Vec<u8> = Vec::new();
                        blank.push(0x20);
                        assert(blank@ =~= seq![0x20u8]);
                        Some(blank)
                    } else {
                        None
                    };
                    let ghost order_then = self.section_order@;
                    let ghost count_then = self.sections@.len() - start.len();
                    self.push_section_internal(
                        ParsedSectionHeader {
                            name: header.name,
                            separator,
                            subsection_name: header.subsection_name,
                        },
                        body,
                    );
                    proof {
                        assert(self.sections@ =~= start + crate::config::file::kept_upto(
                            all,
                            i as int + 1,
                        ));
                        assert(kept_headers(all_headers, i as int + 1) == kept_headers(
                            all_headers,
                            i as int,
                        ).push(kept));
                        assert(self.section_order@ =~= start_order + Seq::new(
                            (self.sections@.len() - start.len()) as nat,
                            |k: int| SectionId((start.len() + k) as usize),
                        ));
                        assert forall|k: int|
                            0 <= k < self.sections@.len() - start.len() implies appended_header(
                            (#[trigger] self.section_headers@[start.len() + k])->Some_0,
                            kept_headers(all_headers, i as int + 1)[k],
                        ) by {
                            if k < count_then {
                                assert(self.section_headers@[start.len() + k]
                                    == then_headers[start.len() + k]);
                            }
                        }
                        assert forall|k: int| 0 <= k < start.len() implies (
                        #[trigger] self.section_headers@[k]) == old(self).section_headers@[k] by {
                            assert(self.section_headers@[k] == then_headers[k]);
                        }
                    }
                },
                None => {
                    proof {
                        assert(all_headers[i as int] is None);
                    }
                },
            }
            i += 1;
        }
    }
}

/// The headers among the first `end` of `headers`, by id, that were not removed.
pub open spec fn kept_headers(headers: Seq<Option<ParsedSectionHeader>>, end: int) -> Seq<
    ParsedSectionHeader,
>
    decreases end,
{
    if end <= 0 {
        Seq::empty()
    } else if headers[end - 1] is Some {
        kept_headers(headers, end - 1).push(headers[end - 1]->Some_0)
    } else {
        kept_headers(headers, end - 1)
    }
}

/// Whether `header` is `from` as it is appended: with its name and subsection, and a
/// blank before the subsection if there is one.
pub open spec fn appended_header(header: ParsedSectionHeader, from: ParsedSectionHeader) -> bool {
    &&& header.name == from.name
    &&& header.subsection_name == from.subsection_name
    &&& match header.separator {
        Some(separator) => from.subsection_name is Some && separator@ == seq![0x20u8],
        None => from.subsection_name is None,
    }
}

} // verus!
