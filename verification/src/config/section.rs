//! The body of a section: its events, and the values they give to keys.
use vstd::prelude::*;
use crate::config::events::{append, Event};

verus! {

/// The lower-case form of an ASCII letter, and any other byte as it is.
pub open spec fn lower(b: u8) -> u8 {
    if 0x41 <= b <= 0x5a {
        (b + 0x20) as u8
    } else {
        b
    }
}

/// Whether two names are the same but for the case of ASCII letters. Section names and
/// keys are compared this way.
pub open spec fn same_name(a: Seq<u8>, b: Seq<u8>) -> bool {
    a.len() == b.len() && forall|i: int| 0 <= i < a.len() ==> lower(#[trigger] a[i]) == lower(b[i])
}

/// Compares two names without regard to the case of ASCII letters.
pub fn eq_ignore_case(a: &[u8], b: &[u8]) -> (same: bool)
    ensures
        same == same_name(a@, b@),
{
    if a.len() != b.len() {
        return false;
    }
    let mut i: usize = 0;
    while i < a.len()
        invariant
            i <= a@.len(),
            a@.len() == b@.len(),
            forall|j: int| 0 <= j < i ==> lower(#[trigger] a@[j]) == lower(b@[j]),
        decreases a@.len() - i,
    {
        let x = a[i];
        let y = b[i];
        let lx = if 0x41 <= x && x <= 0x5a {
            x + 0x20
        } else {
            x
        };
        let ly = if 0x41 <= y && y <= 0x5a {
            y + 0x20
        } else {
            y
        };
        if lx != ly {
            return false;
        }
        i += 1;
    }
    true
}

/// Compares two byte strings.
pub fn eq_bytes(a: &[u8], b: &[u8]) -> (same: bool)
    ensures
        same == (a@ == b@),
{
    if a.len() != b.len() {
        return false;
    }
    let mut i: usize = 0;
    while i < a.len()
        invariant
            i <= a@.len(),
            a@.len() == b@.len(),
            forall|j: int| 0 <= j < i ==> a@[j] == b@[j],
        decreases a@.len() - i,
    {
        if a[i] != b[i] {
            return false;
        }
        i += 1;
    }
    assert(a@ =~= b@);
    true
}

/// Whether the event at `at` is the key `key`.
pub open spec fn is_key(events: Seq<Event>, at: int, key: Seq<u8>) -> bool {
    0 <= at < events.len() && events[at] is Key && same_name(events[at].text(), key)
}

/// The position of the last event before `end` that is the key `key`, or -1.
pub open spec fn key_before(events: Seq<Event>, key: Seq<u8>, end: int) -> int
    decreases end,
{
    if end <= 0 {
        -1
    } else if is_key(events, end - 1, key) {
        end - 1
    } else {
        key_before(events, key, end - 1)
    }
}

/// The text of the value parts from `from` up to the next key, one after the other.
pub open spec fn parts_text(events: Seq<Event>, from: int) -> Seq<u8>
    decreases events.len() - from,
{
    if from < 0 || from >= events.len() || events[from] is Key {
        Seq::empty()
    } else if events[from].is_value_part() {
        events[from].text() + parts_text(events, from + 1)
    } else {
        parts_text(events, from + 1)
    }
}

/// Whether a value part stands between `from` and the next key.
pub open spec fn has_parts(events: Seq<Event>, from: int) -> bool
    decreases events.len() - from,
{
    if from < 0 || from >= events.len() || events[from] is Key {
        false
    } else {
        events[from].is_value_part() || has_parts(events, from + 1)
    }
}

/// The value that `events` give to `key`: that of its last occurrence, made of the
/// value parts that follow the key up to the next key. Nothing if the key does not occur
/// or no value part follows its last occurrence.
pub open spec fn value_of(events: Seq<Event>, key: Seq<u8>) -> Option<Seq<u8>> {
    let at = key_before(events, key, events.len() as int);
    if at >= 0 && has_parts(events, at + 1) {
        Some(parts_text(events, at + 1))
    } else {
        None
    }
}

/// The values that the occurrences of `key` at or after `from` have, in order.
pub open spec fn values_from(events: Seq<Event>, key: Seq<u8>, from: int) -> Seq<Seq<u8>>
    decreases events.len() - from,
{
    if from < 0 || from >= events.len() {
        Seq::empty()
    } else if is_key(events, from, key) && has_parts(events, from + 1) {
        seq![parts_text(events, from + 1)] + values_from(events, key, from + 1)
    } else {
        values_from(events, key, from + 1)
    }
}

/// The number of keys among the first `end` events.
pub open spec fn keys_before(events: Seq<Event>, end: int) -> nat
    decreases end,
{
    if end <= 0 {
        0
    } else {
        keys_before(events, end - 1) + if events[end - 1] is Key {
            1nat
        } else {
            0nat
        }
    }
}

/// The events of one section, without its header.
#[derive(Debug, PartialEq, Eq)]
pub struct SectionBody(pub Vec<Event>);

impl View for SectionBody {
    type V = Seq<Event>;

    open spec fn view(&self) -> Seq<Event> {
        self.0@
    }
}

/// The text of the value parts that follow position `from` of `events`, if there is one.
fn read_parts(events: &Vec<Event>, from: usize) -> (value: Option<Vec<u8>>)
    requires
        from <= events@.len(),
    ensures
        value is Some == has_parts(events@, from as int),
        value matches Some(v) ==> v@ == parts_text(events@, from as int),
{
    let mut text: Vec<u8> = Vec::new();
    let mut any = false;
    let mut i = from;
    while i < events.len()
        invariant
            from <= i <= events@.len(),
            parts_text(events@, from as int) == text@ + parts_text(events@, i as int),
            has_parts(events@, from as int) == (any || has_parts(events@, i as int)),
        decreases events@.len() - i,
    {
        match &events[i] {
            Event::Key(_) => {
                assert(text@ + Seq::<u8>::empty() =~= text@);
                return if any {
                    Some(text)
                } else {
                    None
                };
            },
            Event::Value(part) | Event::ValueNotDone(part) | Event::ValueDone(part) => {
                let ghost before = text@;
                append(&mut text, part);
                any = true;
                assert(before + (part@ + parts_text(events@, i + 1)) =~= text@ + parts_text(
                    events@,
                    i + 1,
                ));
            },
            _ => {},
        }
        i += 1;
    }
    assert(text@ + Seq::<u8>::empty() =~= text@);
    if any {
        Some(text)
    } else {
        None
    }
}

impl SectionBody {
    /// A body without events.
    pub fn new() -> (body: SectionBody)
        ensures
            body@.len() == 0,
    {
        SectionBody(Vec::new())
    }

    /// The body made of `events`.
    pub fn from_events(events: Vec<Event>) -> (body: SectionBody)
        ensures
            body@ == events@,
    {
        SectionBody(events)
    }

    /// The events.
    pub fn as_ref(&self) -> (events: &Vec<Event>)
        ensures
            events@ == self@,
    {
        &self.0
    }

    /// The number of entries, which is the number of keys.
    pub fn len(&self) -> (count: usize)
        ensures
            count == keys_before(self@, self@.len() as int),
    {
        let mut count: usize = 0;
        let mut i: usize = 0;
        while i < self.0.len()
            invariant
                i <= self@.len(),
                count == keys_before(self@, i as int),
                count <= i,
            decreases self@.len() - i,
        {
            if let Event::Key(_) = &self.0[i] {
                count += 1;
            }
            i += 1;
        }
        count
    }

    /// Whether the body has no entry. Comments, blanks and line ends are no entries.
    pub fn is_empty(&self) -> (empty: bool)
        ensures
            empty == (keys_before(self@, self@.len() as int) == 0),
    {
        self.len() == 0
    }

    /// The value of the last occurrence of `key`.
    pub fn value(&self, key: &[u8]) -> (value: Option<Vec<u8>>)
        ensures
            value is Some == value_of(self@, key@) is Some,
            value matches Some(v) ==> Some(v@) == value_of(self@, key@),
    {
        let mut i: usize = self.0.len();
        while i > 0
            invariant
                i <= self@.len(),
                key_before(self@, key@, self@.len() as int) == key_before(self@, key@, i as int),
            decreases i,
        {
            i -= 1;
            if let Event::Key(name) = &self.0[i] {
                if eq_ignore_case(name.as_slice(), key) {
                    assert(is_key(self@, i as int, key@));
                    return read_parts(&self.0, i + 1);
                }
            }
            assert(!is_key(self@, i as int, key@));
        }
        None
    }

    /// The values of all occurrences of `key`, in order.
    pub fn values(&self, key: &[u8]) -> (values: Vec<Vec<u8>>)
        ensures
            values@.map_values(|v: Vec<u8>| v@) == values_from(self@, key@, 0),
    {
        let mut values: Vec<Vec<u8>> = Vec::new();
        let mut i: usize = 0;
        assert(values@.map_values(|v: Vec<u8>| v@) =~= Seq::<Seq<u8>>::empty());
        while i < self.0.len()
            invariant
                i <= self@.len(),
                values_from(self@, key@, 0) == values@.map_values(|v: Vec<u8>| v@) + values_from(
                    self@,
                    key@,
                    i as int,
                ),
            decreases self@.len() - i,
        {
            let mut found = false;
            if let Event::Key(name) = &self.0[i] {
                if eq_ignore_case(name.as_slice(), key) {
                    found = true;
                }
            }
            assert(found == is_key(self@, i as int, key@));
            if found {
                if let Some(value) = read_parts(&self.0, i + 1) {
                    let ghost before = values@.map_values(|v: Vec<u8>| v@);
                    values.push(value);
                    assert(values@.map_values(|v: Vec<u8>| v@) =~= before.push(value@));
                    assert(before + (seq![value@] + values_from(self@, key@, i + 1))
                        =~= before.push(value@) + values_from(self@, key@, i + 1));
                }
            }
            i += 1;
        }
        assert(values@.map_values(|v: Vec<u8>| v@) + Seq::<Seq<u8>>::empty()
            =~= values@.map_values(|v: Vec<u8>| v@));
        values
    }
}

} // verus!
