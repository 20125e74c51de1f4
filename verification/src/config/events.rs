//! The events that a configuration file is made of, and the bytes they stand for.
use vstd::prelude::*;

verus! {

/// The kinds of events.
#[derive(Clone, Copy, Debug, PartialEq, Eq, Structural)]
pub enum EventKind {
    Comment,
    SectionHeader,
    Key,
    Value,
    Newline,
    ValueNotDone,
    ValueDone,
    Whitespace,
    KeyValueSeparator,
}

/// A comment: the mark that starts it, `;` or `#`, and its text up to the end of the line.
#[derive(Debug, PartialEq, Eq)]
pub struct ParsedComment {
    pub comment_tag: u8,
    pub comment: Vec<u8>,
}

/// The header of a section: its name, and for a subsection what stands between the two
/// names and the name of the subsection. With a dot as separator the subsection follows
/// it bare; with any other separator it stands in double quotes.
#[derive(Debug, PartialEq, Eq)]
pub struct ParsedSectionHeader {
    pub name: Vec<u8>,
    pub separator: Option<Vec<u8>>,
    pub subsection_name: Option<Vec<u8>>,
}

/// One syntactic piece of a configuration file.
#[derive(Debug, PartialEq, Eq)]
pub enum Event {
    /// A comment.
    Comment(ParsedComment),
    /// The header that starts a section.
    SectionHeader(ParsedSectionHeader),
    /// The name of a key.
    Key(Vec<u8>),
    /// A value that stands on one line.
    Value(Vec<u8>),
    /// One or more line ends.
    Newline(Vec<u8>),
    /// The part of a value before a line continuation.
    ValueNotDone(Vec<u8>),
    /// The last part of a value that was continued over lines.
    ValueDone(Vec<u8>),
    /// Blanks between other events.
    Whitespace(Vec<u8>),
    /// The `=` between a key and its value.
    KeyValueSeparator,
}

/// The byte `[`.
pub const OPEN: u8 = 0x5b;

/// The byte `]`.
pub const CLOSE: u8 = 0x5d;

/// The byte `"`.
pub const QUOTE: u8 = 0x22;

/// The byte `\`.
pub const ESCAPE: u8 = 0x5c;

/// The byte `=`.
pub const EQUALS: u8 = 0x3d;

/// The byte `.`.
pub const DOT: u8 = 0x2e;

impl ParsedSectionHeader {
    /// The header as it stands in a file.
    pub open spec fn bytes(&self) -> Seq<u8> {
        let open = seq![OPEN] + self.name@;
        match (self.separator, self.subsection_name) {
            (Some(sep), Some(sub)) => if sep@ == seq![DOT] {
                open + sep@ + sub@ + seq![CLOSE]
            } else {
                open + sep@ + seq![QUOTE] + sub@ + seq![QUOTE, CLOSE]
            },
            (Some(sep), None) => open + sep@ + seq![CLOSE],
            (None, _) => open + seq![CLOSE],
        }
    }

    /// Appends the header as it stands in a file.
    pub fn write_to(&self, out: &mut Vec<u8>)
        ensures
            final(out)@ == old(out)@ + self.bytes(),
    {
        out.push(OPEN);
        append(out, &self.name);
        match &self.separator {
            Some(sep) => {
                append(out, sep);
                match &self.subsection_name {
                    Some(sub) => {
                        if sep.len() == 1 && sep[0] == DOT {
                            assert(sep@ =~= seq![DOT]);
                            append(out, sub);
                            out.push(CLOSE);
                        } else {
                            assert(sep@ != seq![DOT]) by {
                                if sep@ == seq![DOT] {
                                    assert(sep@.len() == 1 && sep@[0] == DOT);
                                }
                            }
                            out.push(QUOTE);
                            append(out, sub);
                            out.push(QUOTE);
                            out.push(CLOSE);
                        }
                    },
                    None => {
                        out.push(CLOSE);
                    },
                }
            },
            None => {
                out.push(CLOSE);
            },
        }
        assert(out@ =~= old(out)@ + self.bytes());
    }
}

/// Appends `bytes` to `out`.
pub fn append(out: &mut Vec<u8>, bytes: &Vec<u8>)
    ensures
        final(out)@ == old(out)@ + bytes@,
{
    let mut i: usize = 0;
    while i < bytes.len()
        invariant
            i <= bytes.len(),
            out@ == old(out)@ + bytes@.take(i as int),
        decreases bytes.len() - i,
    {
        out.push(bytes[i]);
        assert(bytes@.take(i as int + 1) =~= bytes@.take(i as int).push(bytes@[i as int]));
        assert(out@ =~= old(out)@ + bytes@.take(i as int + 1));
        i += 1;
    }
    assert(bytes@.take(bytes.len() as int) =~= bytes@);
}

/// A copy of `bytes`.
pub fn copy_of(bytes: &Vec<u8>) -> (copy: Vec<u8>)
    ensures
        copy@ == bytes@,
{
    let mut copy: Vec<u8> = Vec::new();
    append(&mut copy, bytes);
    assert(copy@ =~= bytes@);
    copy
}

/// A copy of the part of `bytes` from `from` up to `to`.
pub fn copy_range(bytes: &[u8], from: usize, to: usize) -> (copy: Vec<u8>)
    requires
        from <= to <= bytes@.len(),
    ensures
        copy@ == bytes@.subrange(from as int, to as int),
{
    let mut copy: Vec<u8> = Vec::new();
    let mut i: usize = from;
    while i < to
        invariant
            from <= i <= to <= bytes@.len(),
            copy@ == bytes@.subrange(from as int, i as int),
        decreases to - i,
    {
        copy.push(bytes[i]);
        assert(copy@ =~= bytes@.subrange(from as int, i as int + 1));
        i += 1;
    }
    copy
}

impl Event {
    /// The kind of the event.
    pub open spec fn kind(&self) -> EventKind {
        match self {
            Event::Comment(_) => EventKind::Comment,
            Event::SectionHeader(_) => EventKind::SectionHeader,
            Event::Key(_) => EventKind::Key,
            Event::Value(_) => EventKind::Value,
            Event::Newline(_) => EventKind::Newline,
            Event::ValueNotDone(_) => EventKind::ValueNotDone,
            Event::ValueDone(_) => EventKind::ValueDone,
            Event::Whitespace(_) => EventKind::Whitespace,
            Event::KeyValueSeparator => EventKind::KeyValueSeparator,
        }
    }

    /// The text that the event carries: the name of a key, a value or a part of it, blanks,
    /// line ends, a comment without its mark; nothing for headers and separators.
    pub open spec fn text(&self) -> Seq<u8> {
        match self {
            Event::Comment(c) => c.comment@,
            Event::SectionHeader(_) => Seq::empty(),
            Event::Key(b) => b@,
            Event::Value(b) => b@,
            Event::Newline(b) => b@,
            Event::ValueNotDone(b) => b@,
            Event::ValueDone(b) => b@,
            Event::Whitespace(b) => b@,
            Event::KeyValueSeparator => Seq::empty(),
        }
    }

    /// The event as it stands in a file.
    pub open spec fn bytes(&self) -> Seq<u8> {
        match self {
            Event::Comment(c) => seq![c.comment_tag] + c.comment@,
            Event::SectionHeader(h) => h.bytes(),
            Event::ValueNotDone(b) => b@ + seq![ESCAPE],
            Event::KeyValueSeparator => seq![EQUALS],
            _ => self.text(),
        }
    }

    /// Whether the event is a value or a part of one.
    pub open spec fn is_value_part(&self) -> bool {
        self.kind() == EventKind::Value || self.kind() == EventKind::ValueNotDone || self.kind()
            == EventKind::ValueDone
    }

    /// Appends the event as it stands in a file.
    pub fn write_to(&self, out: &mut Vec<u8>)
        ensures
            final(out)@ == old(out)@ + self.bytes(),
    {
        match self {
            Event::Comment(c) => {
                out.push(c.comment_tag);
                append(out, &c.comment);
                assert(out@ =~= old(out)@ + self.bytes());
            },
            Event::SectionHeader(h) => {
                h.write_to(out);
            },
            Event::ValueNotDone(b) => {
                append(out, b);
                out.push(ESCAPE);
                assert(out@ =~= old(out)@ + self.bytes());
            },
            Event::KeyValueSeparator => {
                out.push(EQUALS);
                assert(out@ =~= old(out)@ + self.bytes());
            },
            Event::Key(b) | Event::Value(b) | Event::Newline(b) | Event::ValueDone(b)
            | Event::Whitespace(b) => {
                append(out, b);
            },
        }
    }
}

/// The events as they stand in a file, one after the other.
pub open spec fn written(events: Seq<Event>) -> Seq<u8>
    decreases events.len(),
{
    if events.len() == 0 {
        Seq::empty()
    } else {
        written(events.drop_last()) + events.last().bytes()
    }
}

/// Writing one more event appends its bytes.
pub proof fn lemma_written_push(events: Seq<Event>, event: Event)
    ensures
        written(events.push(event)) == written(events) + event.bytes(),
{
    assert(events.push(event).drop_last() =~= events);
}

/// Appends the events as they stand in a file.
pub fn write_events(events: &Vec<Event>, out: &mut Vec<u8>)
    ensures
        final(out)@ == old(out)@ + written(events@),
{
    let mut i: usize = 0;
    assert(written(events@.take(0)) =~= Seq::<u8>::empty());
    while i < events.len()
        invariant
            i <= events.len(),
            out@ == old(out)@ + written(events@.take(i as int)),
        decreases events.len() - i,
    {
        events[i].write_to(out);
        proof {
            lemma_written_push(events@.take(i as int), events@[i as int]);
            assert(events@.take(i as int + 1) =~= events@.take(i as int).push(events@[i as int]));
            assert(out@ =~= old(out)@ + written(events@.take(i as int + 1)));
        }
        i += 1;
    }
    assert(events@.take(events.len() as int) =~= events@);
}

} // verus!
