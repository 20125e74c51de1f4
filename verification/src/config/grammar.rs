//! What the bytes of a configuration file mean: the events that they are read as, or
//! the place where they do not fit.
use vstd::prelude::*;
use crate::config::events::{Event, EventKind, DOT, ESCAPE, QUOTE};
use crate::config::parser::{
    is_alphabetic, is_ascii_whitespace, newlines_end, quoted_end, run_end, Class,
    ParserNode,
};

verus! {

/// What an event says, as plain values.
pub struct EventModel {
    pub kind: EventKind,
    /// The text of the event; that of a header is empty.
    pub text: Seq<u8>,
    /// The mark of a comment, else zero.
    pub tag: u8,
    /// The name of the section of a header, else empty.
    pub name: Seq<u8>,
    /// What stands between the names of a header.
    pub separator: Option<Seq<u8>>,
    /// The name of the subsection of a header.
    pub subsection: Option<Seq<u8>>,
}

/// An event of `kind` with `text`.
pub open spec fn plain(kind: EventKind, text: Seq<u8>) -> EventModel {
    EventModel { kind, text, tag: 0, name: Seq::empty(), separator: None, subsection: None }
}

/// A comment that starts with `tag`.
pub open spec fn comment(tag: u8, text: Seq<u8>) -> EventModel {
    EventModel {
        kind: EventKind::Comment,
        text,
        tag,
        name: Seq::empty(),
        separator: None,
        subsection: None,
    }
}

/// The header of a section.
pub open spec fn header(name: Seq<u8>, separator: Option<Seq<u8>>, subsection: Option<Seq<u8>>) -> EventModel {
    EventModel {
        kind: EventKind::SectionHeader,
        text: Seq::empty(),
        tag: 0,
        name,
        separator,
        subsection,
    }
}

/// The bytes of an optional byte string.
pub open spec fn bytes_view(bytes: Option<Vec<u8>>) -> Option<Seq<u8>> {
    match bytes {
        Some(b) => Some(b@),
        None => None,
    }
}

/// What `event` says.
pub open spec fn model_of(event: Event) -> EventModel {
    match event {
        Event::Comment(c) => comment(c.comment_tag, c.comment@),
        Event::SectionHeader(h) => header(
            h.name@,
            bytes_view(h.separator),
            bytes_view(h.subsection_name),
        ),
        _ => plain(event.kind(), event.text()),
    }
}

/// What `events` say, one after the other.
pub open spec fn models(events: Seq<Event>) -> Seq<EventModel> {
    events.map_values(|e: Event| model_of(e))
}

/// Whether `after` is `before` with events at its end that say `added`.
pub open spec fn grown(before: Seq<Event>, after: Seq<Event>, added: Seq<EventModel>) -> bool {
    &&& after.len() == before.len() + added.len()
    &&& after.take(before.len() as int) == before
    &&& models(after.skip(before.len() as int)) == added
}

/// What stands between entries at `pos`, with the position after it: a comment up to
/// the end of the line, a run of blanks, or a run of line ends.
pub open spec fn filler_at(input: Seq<u8>, pos: int) -> Option<(EventModel, int)> {
    if pos < 0 || pos >= input.len() {
        None
    } else if input[pos] == 0x3b || input[pos] == 0x23 {
        let end = run_end(input, pos + 1, Class::NotLineFeed);
        Some((comment(input[pos], input.subrange(pos + 1, end)), end))
    } else if run_end(input, pos, Class::Space) > pos {
        let end = run_end(input, pos, Class::Space);
        Some((plain(EventKind::Whitespace, input.subrange(pos, end)), end))
    } else if newlines_end(input, pos) > pos {
        let end = newlines_end(input, pos);
        Some((plain(EventKind::Newline, input.subrange(pos, end)), end))
    } else {
        None
    }
}

/// The position of the last `b` among the first `end` bytes of `name`, or -1.
pub open spec fn last_index_of(name: Seq<u8>, b: u8, end: int) -> int
    decreases end,
{
    if end <= 0 {
        -1
    } else if name[end - 1] == b {
        end - 1
    } else {
        last_index_of(name, b, end - 1)
    }
}

/// The header that stands at `pos`, with the position after it, or the position of the
/// byte that does not fit a header.
///
/// A header is `[name]`, where the part of the name after its last dot is the
/// subsection, or `[name "subsection"]` with blanks between the two, where a backslash
/// in the subsection escapes a quote or a backslash.
pub open spec fn header_at(input: Seq<u8>, pos: int) -> Result<(EventModel, int), int> {
    if pos < 0 || pos >= input.len() || input[pos] != 0x5b {
        Err(pos)
    } else {
        let name_end = run_end(input, pos + 1, Class::SectionName);
        let name = input.subrange(pos + 1, name_end);
        if name_end >= input.len() {
            Err(name_end)
        } else if input[name_end] == 0x5d {
            let dot = last_index_of(name, DOT, name.len() as int);
            if dot >= 0 {
                Ok(
                    (
                        header(
                            name.subrange(0, dot),
                            Some(name.subrange(dot, dot + 1)),
                            Some(name.subrange(dot + 1, name.len() as int)),
                        ),
                        name_end + 1,
                    ),
                )
            } else {
                Ok((header(name, None, None), name_end + 1))
            }
        } else {
            let space_end = run_end(input, name_end, Class::Space);
            let sub_end = quoted_end(input, space_end + 1);
            if space_end == name_end || space_end >= input.len() || input[space_end] != QUOTE {
                Err(space_end)
            } else if input.len() - sub_end < 2 || input[sub_end] != QUOTE || input[sub_end + 1]
                != 0x5d {
                Err(sub_end)
            } else {
                Ok(
                    (
                        header(
                            name,
                            Some(input.subrange(name_end, space_end)),
                            Some(input.subrange(space_end + 1, sub_end)),
                        ),
                        sub_end + 2,
                    ),
                )
            }
        }
    }
}

/// Where the last part of a value ends that runs from `offset` up to `end`: after its
/// last byte that is no blank, or at `end` where it holds blanks only.
pub open spec fn trimmed_end(input: Seq<u8>, offset: int, end: int, at: int) -> int
    decreases at - offset,
{
    if at <= offset {
        end
    } else if !is_ascii_whitespace(input[at - 1]) {
        at
    } else {
        trimmed_end(input, offset, end, at - 1)
    }
}

/// The last part of a value that runs from `offset` up to `end`, with the position
/// after it.
pub open spec fn value_finish(input: Seq<u8>, offset: int, end: int, partial: bool) -> (
    Seq<EventModel>,
    int,
) {
    let cut = trimmed_end(input, offset, end, end);
    (
        seq![
            plain(
                if partial {
                    EventKind::ValueDone
                } else {
                    EventKind::Value
                },
                input.subrange(offset, cut),
            ),
        ],
        cut,
    )
}

/// The events of events before a result, where it is one.
pub open spec fn after<E>(events: Seq<EventModel>, rest: Result<(Seq<EventModel>, int), E>) -> Result<
    (Seq<EventModel>, int),
    E,
> {
    match rest {
        Ok((more, end)) => Ok((events + more, end)),
        Err(err) => Err(err),
    }
}

/// The rest of a value from `p` on, whose current part started at `offset`, with the
/// position after the value, or the position of the byte that does not fit.
///
/// A value runs to the end of the line or to a comment mark outside double quotes. A
/// backslash escapes `t`, `n`, a backslash or a quote, or continues the value on the
/// next line; quotes have to be closed.
pub open spec fn value_scan(
    input: Seq<u8>,
    p: int,
    offset: int,
    escaped: bool,
    in_quotes: bool,
    partial: bool,
) -> Result<(Seq<EventModel>, int), int>
    decreases input.len() - p,
{
    if p < 0 || p >= input.len() {
        if escaped || in_quotes {
            Err(p)
        } else {
            Ok(value_finish(input, offset, p, partial))
        }
    } else if escaped {
        if input[p] == 0x0a {
            after(
                seq![
                    plain(EventKind::ValueNotDone, input.subrange(offset, p - 1)),
                    plain(EventKind::Newline, input.subrange(p, p + 1)),
                ],
                value_scan(input, p + 1, p + 1, false, in_quotes, true),
            )
        } else if input[p] == 0x74 || input[p] == ESCAPE || input[p] == 0x6e || input[p] == QUOTE {
            value_scan(input, p + 1, offset, false, in_quotes, partial)
        } else {
            Err(p)
        }
    } else if input[p] == 0x0a || ((input[p] == 0x3b || input[p] == 0x23) && !in_quotes) {
        if in_quotes {
            Err(p)
        } else {
            Ok(value_finish(input, offset, p, partial))
        }
    } else {
        value_scan(
            input,
            p + 1,
            offset,
            input[p] == ESCAPE,
            if input[p] == QUOTE {
                !in_quotes
            } else {
                in_quotes
            },
            partial,
        )
    }
}

/// The entry that stands at `pos`, where a letter stands: the name of a key, blanks,
/// and then `=` with blanks and a value, or nothing, which is an empty value.
pub open spec fn entry_at(input: Seq<u8>, pos: int) -> Result<(Seq<EventModel>, int), int> {
    let name_end = run_end(input, pos + 1, Class::KeyName);
    let key = seq![plain(EventKind::Key, input.subrange(pos, name_end))];
    let at = run_end(input, name_end, Class::Space);
    let blanks = if at > name_end {
        seq![plain(EventKind::Whitespace, input.subrange(name_end, at))]
    } else {
        Seq::empty()
    };
    if at < input.len() && input[at] == 0x3d {
        let value_start = run_end(input, at + 1, Class::Space);
        let more = if value_start > at + 1 {
            seq![plain(EventKind::Whitespace, input.subrange(at + 1, value_start))]
        } else {
            Seq::empty()
        };
        after(
            key + blanks + seq![plain(EventKind::KeyValueSeparator, Seq::empty())] + more,
            value_scan(input, value_start, value_start, false, false, false),
        )
    } else {
        Ok((key + blanks + seq![plain(EventKind::Value, Seq::empty())], at))
    }
}

/// The events before a result, where it is one.
pub open spec fn before_all(events: Seq<EventModel>, rest: Result<Seq<EventModel>, (ParserNode, int)>) -> Result<
    Seq<EventModel>,
    (ParserNode, int),
> {
    match rest {
        Ok(more) => Ok(events + more),
        Err(err) => Err(err),
    }
}

/// The events that the input from `pos` on is read as, or where it does not fit.
/// Before the first header only comments, blanks and line ends may stand; after it
/// also entries, which start with a letter.
pub open spec fn parsed_from(input: Seq<u8>, pos: int, in_section: bool) -> Result<
    Seq<EventModel>,
    (ParserNode, int),
>
    decreases input.len() - pos,
{
    if pos < 0 || pos >= input.len() {
        Ok(Seq::empty())
    } else {
        match filler_at(input, pos) {
            Some((event, end)) => if pos < end <= input.len() {
                before_all(seq![event], parsed_from(input, end, in_section))
            } else {
                Err((ParserNode::SectionHeader, pos))
            },
            None => if in_section && is_alphabetic(input[pos]) {
                match entry_at(input, pos) {
                    Ok((events, end)) => if pos < end <= input.len() {
                        before_all(events, parsed_from(input, end, true))
                    } else {
                        Err((ParserNode::ConfigValue, pos))
                    },
                    Err(at) => Err((ParserNode::ConfigValue, at)),
                }
            } else {
                match header_at(input, pos) {
                    Ok((event, end)) => if pos < end <= input.len() {
                        before_all(seq![event], parsed_from(input, end, true))
                    } else {
                        Err((ParserNode::SectionHeader, pos))
                    },
                    Err(at) => Err((ParserNode::SectionHeader, at)),
                }
            },
        }
    }
}

/// The events that `input` is read as, or where it does not fit.
pub open spec fn parsed(input: Seq<u8>) -> Result<Seq<EventModel>, (ParserNode, int)> {
    parsed_from(input, 0, false)
}

} // verus!
