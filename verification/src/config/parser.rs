//! Reading a configuration file into events.
use vstd::prelude::*;
use crate::config::events::{
    copy_range, lemma_written_push, written, Event, EventKind, ParsedComment,
    ParsedSectionHeader, DOT, ESCAPE, QUOTE,
};
use crate::config::grammar::{
    after, before_all, comment, entry_at, filler_at, grown, header, header_at, last_index_of,
    model_of, models, parsed, parsed_from, plain, trimmed_end, value_finish, value_scan,
    EventModel,
};

verus! {

/// The classes of bytes that the format tells apart.
#[derive(Clone, Copy, Debug, PartialEq, Eq, Structural)]
pub enum Class {
    /// A blank or a tab.
    Space,
    /// A letter, a digit, `-` or `.`: what a section name is made of.
    SectionName,
    /// A letter, a digit or `-`: what the name of a key is made of.
    KeyName,
    /// Anything but a line feed: what a comment is made of.
    NotLineFeed,
}

/// Whether `b` is an ASCII letter.
pub open spec fn is_alphabetic(b: u8) -> bool {
    (0x41 <= b <= 0x5a) || (0x61 <= b <= 0x7a)
}

/// Whether `b` is an ASCII letter or digit.
pub open spec fn is_alphanumeric(b: u8) -> bool {
    is_alphabetic(b) || (0x30 <= b <= 0x39)
}

/// Whether `b` is a blank in the sense of ASCII: space, tab, line feed, form feed or
/// carriage return.
pub open spec fn is_ascii_whitespace(b: u8) -> bool {
    b == 0x20 || b == 0x09 || b == 0x0a || b == 0x0c || b == 0x0d
}

/// Whether `b` belongs to `class`.
pub open spec fn in_class(class: Class, b: u8) -> bool {
    match class {
        Class::Space => b == 0x20 || b == 0x09,
        Class::SectionName => is_alphanumeric(b) || b == 0x2d || b == 0x2e,
        Class::KeyName => is_alphanumeric(b) || b == 0x2d,
        Class::NotLineFeed => b != 0x0a,
    }
}

/// The first position at or after `from` whose byte is not of `class`.
pub open spec fn run_end(input: Seq<u8>, from: int, class: Class) -> int
    decreases input.len() - from,
{
    if from < 0 || from >= input.len() || !in_class(class, input[from]) {
        from
    } else {
        run_end(input, from + 1, class)
    }
}

/// Whether `b` is an ASCII letter.
pub fn byte_is_alphabetic(b: u8) -> (yes: bool)
    ensures
        yes == is_alphabetic(b),
{
    (0x41 <= b && b <= 0x5a) || (0x61 <= b && b <= 0x7a)
}

/// Whether `b` belongs to `class`.
pub fn byte_in_class(class: Class, b: u8) -> (yes: bool)
    ensures
        yes == in_class(class, b),
{
    match class {
        Class::Space => b == 0x20 || b == 0x09,
        Class::SectionName => byte_is_alphabetic(b) || (0x30 <= b && b <= 0x39) || b == 0x2d || b
            == 0x2e,
        Class::KeyName => byte_is_alphabetic(b) || (0x30 <= b && b <= 0x39) || b == 0x2d,
        Class::NotLineFeed => b != 0x0a,
    }
}

/// Skips the bytes of `class` from `from` on.
pub fn scan(input: &[u8], from: usize, class: Class) -> (end: usize)
    requires
        from <= input@.len(),
    ensures
        end == run_end(input@, from as int, class),
        from <= end <= input@.len(),
{
    let mut end = from;
    while end < input.len() && byte_in_class(class, input[end])
        invariant
            from <= end <= input@.len(),
            run_end(input@, from as int, class) == run_end(input@, end as int, class),
        decreases input@.len() - end,
    {
        end += 1;
    }
    end
}

/// The first position at or after `from` that does not start a line end, which is a line
/// feed or a carriage return with a line feed.
pub open spec fn newlines_end(input: Seq<u8>, from: int) -> int
    decreases input.len() - from,
{
    if from < 0 || from >= input.len() {
        from
    } else if input[from] == 0x0a {
        newlines_end(input, from + 1)
    } else if input[from] == 0x0d && from + 1 < input.len() && input[from + 1] == 0x0a {
        newlines_end(input, from + 2)
    } else {
        from
    }
}

/// Skips the line ends from `from` on.
pub fn scan_newlines(input: &[u8], from: usize) -> (end: usize)
    requires
        from <= input@.len(),
    ensures
        end == newlines_end(input@, from as int),
        from <= end <= input@.len(),
{
    let mut end = from;
    loop
        invariant
            from <= end <= input@.len(),
            newlines_end(input@, from as int) == newlines_end(input@, end as int),
        decreases input@.len() - end,
    {
        if end < input.len() && input[end] == 0x0a {
            end += 1;
        } else if end < input.len() && input[end] == 0x0d && input.len() - end > 1 && input[end
            + 1] == 0x0a {
            end += 2;
        } else {
            return end;
        }
    }
}

/// What the parser was reading when it gave up.
#[derive(Clone, Copy, Debug, PartialEq, Eq, Structural)]
pub enum ParserNode {
    SectionHeader,
    ConfigName,
    ConfigValue,
}

/// Why a file could not be read, and the position of the byte that did not fit.
#[derive(Clone, Copy, Debug, PartialEq, Eq, Structural)]
pub struct ParseError {
    pub node: ParserNode,
    pub at: usize,
}

/// Adding an event that stands for the next bytes of the input keeps the events equal
/// to the input read so far.
proof fn lemma_read_on(input: Seq<u8>, events: Seq<Event>, pos: int, end: int, event: Event)
    requires
        0 <= pos <= end <= input.len(),
        written(events) == input.subrange(0, pos),
        event.bytes() == input.subrange(pos, end),
    ensures
        written(events.push(event)) == input.subrange(0, end),
{
    lemma_written_push(events, event);
    assert(input.subrange(0, pos) + input.subrange(pos, end) =~= input.subrange(0, end));
}

/// Events that grew by one say what that one says.
proof fn lemma_grown_push(before: Seq<Event>, mid: Seq<Event>, said: Seq<EventModel>, event: Event)
    requires
        grown(before, mid, said),
    ensures
        grown(before, mid.push(event), said.push(model_of(event))),
{
    let after = mid.push(event);
    assert(after.take(before.len() as int) =~= before) by {
        assert(mid.take(before.len() as int) == before);
        assert forall|i: int| 0 <= i < before.len() implies after.take(before.len() as int)[i]
            == before[i] by {
            assert(mid.take(before.len() as int)[i] == mid[i]);
        }
    }
    assert(models(after.skip(before.len() as int)) =~= said.push(model_of(event))) by {
        let a = models(after.skip(before.len() as int));
        let b = said.push(model_of(event));
        assert(a.len() == b.len());
        assert forall|i: int| 0 <= i < a.len() implies a[i] == b[i] by {
            if i < said.len() {
                assert(models(mid.skip(before.len() as int))[i] == said[i]);
                assert(mid.skip(before.len() as int)[i] == after.skip(before.len() as int)[i]);
            }
        }
    }
}

/// Events that did not grow say nothing more.
proof fn lemma_grown_none(before: Seq<Event>)
    ensures
        grown(before, before, Seq::<EventModel>::empty()),
{
    assert(before.take(before.len() as int) =~= before);
    assert(models(before.skip(before.len() as int)) =~= Seq::<EventModel>::empty());
}

/// Events that grew twice say what they said first and then what they said next.
proof fn lemma_grown_twice(
    before: Seq<Event>,
    mid: Seq<Event>,
    after: Seq<Event>,
    first: Seq<EventModel>,
    second: Seq<EventModel>,
)
    requires
        grown(before, mid, first),
        grown(mid, after, second),
    ensures
        grown(before, after, first + second),
{
    assert(after.take(before.len() as int) =~= before) by {
        assert forall|i: int| 0 <= i < before.len() implies after.take(before.len() as int)[i]
            == before[i] by {
            assert(after.take(mid.len() as int)[i] == after[i]);
            assert(mid.take(before.len() as int)[i] == mid[i]);
        }
    }
    let a = models(after.skip(before.len() as int));
    let b = first + second;
    assert(a =~= b) by {
        assert(a.len() == b.len());
        assert forall|i: int| 0 <= i < a.len() implies a[i] == b[i] by {
            if i < first.len() {
                assert(models(mid.skip(before.len() as int))[i] == first[i]);
                assert(after.take(mid.len() as int)[i + before.len()] == after[i + before.len()]);
                assert(mid.skip(before.len() as int)[i] == mid[i + before.len()]);
            } else {
                assert(models(after.skip(mid.len() as int))[i - first.len()] == second[i
                    - first.len()]);
                assert(after.skip(mid.len() as int)[i - first.len()] == after[i
                    + before.len()]);
            }
        }
    }
}

/// Reads what may stand between entries at `pos`: blanks, line ends or a comment. Gives
/// the position after it, or `pos` itself where none of them stands there.
fn read_filler(input: &[u8], pos: usize, events: &mut Vec<Event>) -> (end: usize)
    requires
        pos <= input@.len(),
        written(old(events)@) == input@.subrange(0, pos as int),
    ensures
        pos <= end <= input@.len(),
        written(final(events)@) == input@.subrange(0, end as int),
        match filler_at(input@, pos as int) {
            Some((said, after)) => end == after && end > pos && grown(
                old(events)@,
                final(events)@,
                seq![said],
            ),
            None => end == pos && final(events)@ == old(events)@,
        },
{
    if pos >= input.len() {
        return pos;
    }
    proof {
        lemma_grown_none(events@);
    }
    let c = input[pos];
    if c == 0x3b || c == 0x23 {
        let end = scan(input, pos + 1, Class::NotLineFeed);
        let event = Event::Comment(
            ParsedComment { comment_tag: c, comment: copy_range(input, pos + 1, end) },
        );
        proof {
            assert(event.bytes() =~= input@.subrange(pos as int, end as int));
            lemma_read_on(input@, events@, pos as int, end as int, event);
            lemma_grown_push(events@, events@, Seq::empty(), event);
            assert(Seq::<EventModel>::empty().push(model_of(event)) =~= seq![model_of(event)]);
        }
        events.push(event);
        return end;
    }
    let end = scan(input, pos, Class::Space);
    if end > pos {
        let event = Event::Whitespace(copy_range(input, pos, end));
        proof {
            lemma_read_on(input@, events@, pos as int, end as int, event);
            lemma_grown_push(events@, events@, Seq::empty(), event);
            assert(Seq::<EventModel>::empty().push(model_of(event)) =~= seq![model_of(event)]);
        }
        events.push(event);
        return end;
    }
    let end = scan_newlines(input, pos);
    if end > pos {
        let event = Event::Newline(copy_range(input, pos, end));
        proof {
            lemma_read_on(input@, events@, pos as int, end as int, event);
            lemma_grown_push(events@, events@, Seq::empty(), event);
            assert(Seq::<EventModel>::empty().push(model_of(event)) =~= seq![model_of(event)]);
        }
        events.push(event);
        return end;
    }
    pos
}

/// The position of the last dot in `name`, if it has one.
fn last_dot(name: &Vec<u8>) -> (at: Option<usize>)
    ensures
        match at {
            Some(i) => i == last_index_of(name@, DOT, name@.len() as int) && i < name@.len()
                && name@[i as int] == DOT,
            None => last_index_of(name@, DOT, name@.len() as int) == -1,
        },
{
    let mut i: usize = name.len();
    while i > 0
        invariant
            i <= name@.len(),
            last_index_of(name@, DOT, name@.len() as int) == last_index_of(name@, DOT, i as int),
        decreases i,
    {
        i -= 1;
        if name[i] == DOT {
            return Some(i);
        }
    }
    None
}

/// The first position at or after `from` where the text of a quoted subsection name
/// ends: before a quote, a line feed or a zero byte that no backslash escapes, or before
/// a backslash that escapes neither a quote nor a backslash.
pub open spec fn quoted_end(input: Seq<u8>, from: int) -> int
    decreases input.len() - from,
{
    if from < 0 || from >= input.len() {
        from
    } else if input[from] == ESCAPE {
        if from + 1 < input.len() && (input[from + 1] == QUOTE || input[from + 1] == ESCAPE) {
            quoted_end(input, from + 2)
        } else {
            from
        }
    } else if input[from] == QUOTE || input[from] == 0x0a || input[from] == 0 {
        from
    } else {
        quoted_end(input, from + 1)
    }
}

/// Skips the text of a quoted subsection name from `from` on.
fn scan_quoted(input: &[u8], from: usize) -> (end: usize)
    requires
        from <= input@.len(),
    ensures
        end == quoted_end(input@, from as int),
        from <= end <= input@.len(),
{
    let mut end = from;
    loop
        invariant
            from <= end <= input@.len(),
            quoted_end(input@, from as int) == quoted_end(input@, end as int),
        decreases input@.len() - end,
    {
        if end >= input.len() {
            return end;
        }
        let c = input[end];
        if c == ESCAPE {
            if input.len() - end > 1 && (input[end + 1] == QUOTE || input[end + 1] == ESCAPE) {
                end += 2;
            } else {
                return end;
            }
        } else if c == QUOTE || c == 0x0a || c == 0 {
            return end;
        } else {
            end += 1;
        }
    }
}

/// Reads the section header that starts at `pos`, and gives the position after it.
fn read_section_header(input: &[u8], pos: usize, events: &mut Vec<Event>) -> (end: Result<
    usize,
    ParseError,
>)
    requires
        pos <= input@.len(),
        written(old(events)@) == input@.subrange(0, pos as int),
    ensures
        match header_at(input@, pos as int) {
            Ok((said, after)) => {
                &&& end == Ok::<usize, ParseError>(after as usize)
                &&& pos < after <= input@.len()
                &&& written(final(events)@) == input@.subrange(0, after)
                &&& grown(old(events)@, final(events)@, seq![said])
            },
            Err(at) => end == Err::<usize, ParseError>(
                ParseError { node: ParserNode::SectionHeader, at: at as usize },
            ) && pos <= at <= input@.len(),
        },
{
    if pos >= input.len() || input[pos] != 0x5b {
        return Err(ParseError { node: ParserNode::SectionHeader, at: pos });
    }
    let name_end = scan(input, pos + 1, Class::SectionName);
    if name_end >= input.len() {
        return Err(ParseError { node: ParserNode::SectionHeader, at: name_end });
    }
    let name = copy_range(input, pos + 1, name_end);
    if input[name_end] == 0x5d {
        let header = match last_dot(&name) {
            Some(dot) => {
                let header = ParsedSectionHeader {
                    name: copy_range(input, pos + 1, pos + 1 + dot),
                    separator: Some(copy_range(input, pos + 1 + dot, pos + 2 + dot)),
                    subsection_name: Some(copy_range(input, pos + 2 + dot, name_end)),
                };
                proof {
                    assert(name@[dot as int] == input@[pos + 1 + dot]);
                    assert(header.separator.unwrap()@ =~= seq![DOT]);
                    assert(header.bytes() =~= input@.subrange(pos as int, name_end as int + 1));
                    assert(header.name@ =~= name@.subrange(0, dot as int));
                    assert(header.separator.unwrap()@ =~= name@.subrange(dot as int, dot + 1));
                    assert(header.subsection_name.unwrap()@ =~= name@.subrange(
                        dot + 1,
                        name@.len() as int,
                    ));
                }
                header
            },
            None => {
                let header = ParsedSectionHeader { name, separator: None, subsection_name: None };
                proof {
                    assert(header.bytes() =~= input@.subrange(pos as int, name_end as int + 1));
                }
                header
            },
        };
        let event = Event::SectionHeader(header);
        proof {
            lemma_read_on(input@, events@, pos as int, name_end as int + 1, event);
            lemma_grown_none(events@);
            lemma_grown_push(events@, events@, Seq::empty(), event);
            assert(Seq::<EventModel>::empty().push(model_of(event)) =~= seq![model_of(event)]);
        }
        events.push(event);
        return Ok(name_end + 1);
    }
    let space_end = scan(input, name_end, Class::Space);
    if space_end == name_end || space_end >= input.len() || input[space_end] != QUOTE {
        return Err(ParseError { node: ParserNode::SectionHeader, at: space_end });
    }
    let sub_end = scan_quoted(input, space_end + 1);
    if input.len() - sub_end < 2 || input[sub_end] != QUOTE || input[sub_end + 1] != 0x5d {
        return Err(ParseError { node: ParserNode::SectionHeader, at: sub_end });
    }
    let separator = copy_range(input, name_end, space_end);
    let event = Event::SectionHeader(
        ParsedSectionHeader {
            name,
            separator: Some(separator),
            subsection_name: Some(copy_range(input, space_end + 1, sub_end)),
        },
    );
    proof {
        assert(input@[name_end as int] != DOT) by {
            if input@[name_end as int] == DOT {
                assert(in_class(Class::SectionName, input@[name_end as int]));
            }
        }
        assert(input@.subrange(name_end as int, space_end as int)[0] == input@[name_end as int]);
        assert(event.bytes() =~= input@.subrange(pos as int, sub_end as int + 2));
        lemma_read_on(input@, events@, pos as int, sub_end as int + 2, event);
        lemma_grown_none(events@);
        lemma_grown_push(events@, events@, Seq::empty(), event);
        assert(Seq::<EventModel>::empty().push(model_of(event)) =~= seq![model_of(event)]);
    }
    events.push(event);
    Ok(sub_end + 2)
}

/// Ends a value whose last part runs from `offset` to `end`: blanks at the end of the
/// part are left to the events that follow, unless the part is made of blanks only.
fn finish_value(input: &[u8], offset: usize, end: usize, partial: bool, events: &mut Vec<Event>) -> (next:
    usize)
    requires
        offset <= end <= input@.len(),
        written(old(events)@) == input@.subrange(0, offset as int),
    ensures
        offset <= next <= end,
        written(final(events)@) == input@.subrange(0, next as int),
        next == value_finish(input@, offset as int, end as int, partial).1,
        grown(
            old(events)@,
            final(events)@,
            value_finish(input@, offset as int, end as int, partial).0,
        ),
{
    let mut i = end;
    let mut cut = end;
    let mut found = false;
    while i > offset && !found
        invariant
            offset <= i <= end <= input@.len(),
            !found ==> trimmed_end(input@, offset as int, end as int, end as int) == trimmed_end(
                input@,
                offset as int,
                end as int,
                i as int,
            ),
            !found ==> cut == end,
            found ==> cut == trimmed_end(input@, offset as int, end as int, end as int) && offset
                < cut <= end,
        decreases i - offset + (if found {
            0int
        } else {
            1int
        }),
    {
        let c = input[i - 1];
        if !(c == 0x20 || c == 0x09 || c == 0x0a || c == 0x0c || c == 0x0d) {
            cut = i;
            found = true;
        } else {
            i -= 1;
        }
    }
    let text = copy_range(input, offset, cut);
    let event = if partial {
        Event::ValueDone(text)
    } else {
        Event::Value(text)
    };
    proof {
        lemma_read_on(input@, events@, offset as int, cut as int, event);
        lemma_grown_none(events@);
        lemma_grown_push(events@, events@, Seq::empty(), event);
        assert(Seq::<EventModel>::empty().push(model_of(event)) =~= seq![model_of(event)]);
    }
    events.push(event);
    cut
}

/// Reads the value that starts at `start` and runs to the end of the line or to a
/// comment outside quotes, over every line that ends in a backslash. Gives the position
/// after the value.
fn read_value(input: &[u8], start: usize, events: &mut Vec<Event>) -> (end: Result<
    usize,
    ParseError,
>)
    requires
        start <= input@.len(),
        written(old(events)@) == input@.subrange(0, start as int),
    ensures
        match value_scan(input@, start as int, start as int, false, false, false) {
            Ok((said, after)) => {
                &&& end == Ok::<usize, ParseError>(after as usize)
                &&& start <= after <= input@.len()
                &&& written(final(events)@) == input@.subrange(0, after)
                &&& grown(old(events)@, final(events)@, said)
            },
            Err(at) => end == Err::<usize, ParseError>(
                ParseError { node: ParserNode::ConfigValue, at: at as usize },
            ) && start <= at <= input@.len(),
        },
{
    let mut p = start;
    let mut offset = start;
    let mut escaped = false;
    let mut in_quotes = false;
    let mut partial = false;
    let ghost mut said: Seq<EventModel> = Seq::empty();
    proof {
        lemma_grown_none(events@);
    }
    let mut stop = false;
    while !stop
        invariant
            start <= offset <= p <= input@.len(),
            written(events@) == input@.subrange(0, offset as int),
            escaped ==> offset < p && input@[p - 1] == ESCAPE,
            grown(old(events)@, events@, said),
            value_scan(input@, start as int, start as int, false, false, false) == after(
                said,
                value_scan(input@, p as int, offset as int, escaped, in_quotes, partial),
            ),
            stop ==> p >= input@.len() || (!escaped && (input@[p as int] == 0x0a || ((
            input@[p as int] == 0x3b || input@[p as int] == 0x23) && !in_quotes))),
        decreases input@.len() - p + (if stop {
            0int
        } else {
            1int
        }),
    {
        if p >= input.len() {
            stop = true;
        } else {
            let c = input[p];
            if escaped {
                escaped = false;
                if c == 0x0a {
                    let part = Event::ValueNotDone(copy_range(input, offset, p - 1));
                    proof {
                        assert(part.bytes() =~= input@.subrange(offset as int, p as int));
                        lemma_read_on(input@, events@, offset as int, p as int, part);
                        lemma_grown_push(old(events)@, events@, said, part);
                    }
                    events.push(part);
                    let newline = Event::Newline(copy_range(input, p, p + 1));
                    proof {
                        lemma_read_on(input@, events@, p as int, p + 1, newline);
                        lemma_grown_push(
                            old(events)@,
                            events@,
                            said.push(model_of(part)),
                            newline,
                        );
                        let more = seq![model_of(part), model_of(newline)];
                        let rest = value_scan(input@, p + 1, p + 1, false, in_quotes, true);
                        assert(after(said, after(more, rest)) == after(
                            said.push(model_of(part)).push(model_of(newline)),
                            rest,
                        )) by {
                            if let Ok((tail, e)) = rest {
                                assert(said + (more + tail) =~= said.push(model_of(part)).push(
                                    model_of(newline),
                                ) + tail);
                            }
                        }
                        said = said.push(model_of(part)).push(model_of(newline));
                    }
                    events.push(newline);
                    offset = p + 1;
                    partial = true;
                    p += 1;
                } else if !(c == 0x74 || c == ESCAPE || c == 0x6e || c == QUOTE) {
                    return Err(ParseError { node: ParserNode::ConfigValue, at: p });
                } else {
                    p += 1;
                }
            } else if c == 0x0a || ((c == 0x3b || c == 0x23) && !in_quotes) {
                stop = true;
            } else {
                if c == ESCAPE {
                    escaped = true;
                } else if c == QUOTE {
                    in_quotes = !in_quotes;
                }
                p += 1;
            }
        }
    }
    if escaped || in_quotes {
        return Err(ParseError { node: ParserNode::ConfigValue, at: p });
    }
    let ghost mid = events@;
    let next = finish_value(input, offset, p, partial, events);
    proof {
        let last = value_finish(input@, offset as int, p as int, partial);
        lemma_grown_twice(old(events)@, mid, events@, said, last.0);
    }
    Ok(next)
}

/// Reads the entry that starts at `pos`: the name of a key, then blanks, then `=` with
/// blanks and a value, or nothing, which stands for an empty value.
fn read_entry(input: &[u8], pos: usize, events: &mut Vec<Event>) -> (end: Result<
    usize,
    ParseError,
>)
    requires
        pos < input@.len(),
        is_alphabetic(input@[pos as int]),
        written(old(events)@) == input@.subrange(0, pos as int),
    ensures
        match entry_at(input@, pos as int) {
            Ok((said, after)) => {
                &&& end == Ok::<usize, ParseError>(after as usize)
                &&& pos < after <= input@.len()
                &&& written(final(events)@) == input@.subrange(0, after)
                &&& grown(old(events)@, final(events)@, said)
            },
            Err(at) => end == Err::<usize, ParseError>(
                ParseError { node: ParserNode::ConfigValue, at: at as usize },
            ) && pos <= at <= input@.len(),
        },
{
    let len = input.len();
    let name_end = scan(input, pos + 1, Class::KeyName);
    let key = Event::Key(copy_range(input, pos, name_end));
    let ghost mut said: Seq<EventModel> = Seq::empty();
    proof {
        lemma_read_on(input@, events@, pos as int, name_end as int, key);
        lemma_grown_none(events@);
        lemma_grown_push(old(events)@, events@, said, key);
        said = said.push(model_of(key));
    }
    events.push(key);
    let mut at = scan(input, name_end, Class::Space);
    if at > name_end {
        let blanks = Event::Whitespace(copy_range(input, name_end, at));
        proof {
            lemma_read_on(input@, events@, name_end as int, at as int, blanks);
            lemma_grown_push(old(events)@, events@, said, blanks);
            said = said.push(model_of(blanks));
        }
        events.push(blanks);
    }
    if at < len && input[at] == 0x3d {
        let separator = Event::KeyValueSeparator;
        proof {
            assert(separator.bytes() =~= input@.subrange(at as int, at + 1));
            lemma_read_on(input@, events@, at as int, at + 1, separator);
            lemma_grown_push(old(events)@, events@, said, separator);
            said = said.push(model_of(separator));
        }
        events.push(separator);
        at += 1;
        let value_start = scan(input, at, Class::Space);
        if value_start > at {
            let blanks = Event::Whitespace(copy_range(input, at, value_start));
            proof {
                lemma_read_on(input@, events@, at as int, value_start as int, blanks);
                lemma_grown_push(old(events)@, events@, said, blanks);
                said = said.push(model_of(blanks));
            }
            events.push(blanks);
        }
        let ghost mid = events@;
        let end = read_value(input, value_start, events);
        proof {
            let rest = value_scan(input@, value_start as int, value_start as int, false, false, false);
            let name_end_s = run_end(input@, pos + 1, Class::KeyName);
            let key_s = seq![plain(EventKind::Key, input@.subrange(pos as int, name_end_s))];
            assert(said =~= key_s + (if at - 1 > name_end {
                seq![plain(EventKind::Whitespace, input@.subrange(name_end as int, at - 1))]
            } else {
                Seq::<EventModel>::empty()
            }) + seq![plain(EventKind::KeyValueSeparator, Seq::<u8>::empty())] + (if value_start
                > at {
                seq![plain(EventKind::Whitespace, input@.subrange(at as int, value_start as int))]
            } else {
                Seq::<EventModel>::empty()
            }));
            if let Ok((tail, e)) = rest {
                lemma_grown_twice(old(events)@, mid, events@, said, tail);
            }
        }
        end
    } else {
        let value = Event::Value(Vec::new());
        proof {
            assert(value.bytes() =~= input@.subrange(at as int, at as int));
            lemma_read_on(input@, events@, at as int, at as int, value);
            lemma_grown_push(old(events)@, events@, said, value);
            let name_end_s = run_end(input@, pos + 1, Class::KeyName);
            let key_s = seq![plain(EventKind::Key, input@.subrange(pos as int, name_end_s))];
            assert(said.push(model_of(value)) =~= key_s + (if at > name_end {
                seq![plain(EventKind::Whitespace, input@.subrange(name_end as int, at as int))]
            } else {
                Seq::<EventModel>::empty()
            }) + seq![plain(EventKind::Value, Seq::<u8>::empty())]);
        }
        events.push(value);
        Ok(at)
    }
}

/// What events say that were read in two steps.
proof fn lemma_models_grown(before: Seq<Event>, after: Seq<Event>, said: Seq<EventModel>)
    requires
        grown(before, after, said),
    ensures
        models(after) == models(before) + said,
{
    assert(models(after) =~= models(before) + said) by {
        assert forall|i: int| 0 <= i < after.len() implies models(after)[i] == (models(before)
            + said)[i] by {
            if i < before.len() {
                assert(after.take(before.len() as int)[i] == after[i]);
            } else {
                assert(models(after.skip(before.len() as int))[i - before.len()] == said[i
                    - before.len()]);
                assert(after.skip(before.len() as int)[i - before.len()] == after[i]);
            }
        }
    }
}

/// Reads a configuration file into its events: first what stands before the first
/// section, which may be comments, blanks and line ends; then the sections, each a
/// header followed by entries, comments, blanks and line ends.
///
/// The events are those that the grammar gives, and they stand for the input byte for
/// byte. Input that the grammar does not take is refused, with the position of the
/// first byte that does not fit and what was being read there.
pub fn parse_from_bytes(input: &[u8]) -> (events: Result<Vec<Event>, ParseError>)
    ensures
        match parsed(input@) {
            Ok(said) => events matches Ok(list) && models(list@) == said && written(list@)
                == input@,
            Err((node, at)) => events == Err::<Vec<Event>, ParseError>(
                ParseError { node, at: at as usize },
            ) && 0 <= at <= input@.len() && input@.len() > 0,
        },
        input@.len() == 0 ==> parsed(input@) == Ok::<Seq<EventModel>, (ParserNode, int)>(
            Seq::empty(),
        ),
{
    let mut events: Vec<Event> = Vec::new();
    let mut pos: usize = 0;
    let mut in_section = false;
    proof {
        assert(written(events@) =~= input@.subrange(0, 0));
        assert(models(events@) =~= Seq::<EventModel>::empty());
        match parsed_from(input@, 0, false) {
            Ok(rest) => {
                assert(Seq::<EventModel>::empty() + rest =~= rest);
            },
            Err(_) => {},
        }
    }
    loop
        invariant
            pos <= input@.len(),
            written(events@) == input@.subrange(0, pos as int),
            parsed(input@) == before_all(
                models(events@),
                parsed_from(input@, pos as int, in_section),
            ),
        decreases input@.len() - pos,
    {
        if pos >= input.len() {
            proof {
                assert(input@.subrange(0, pos as int) =~= input@);
                assert(models(events@) + Seq::<EventModel>::empty() =~= models(events@));
            }
            return Ok(events);
        }
        let ghost then = events@;
        let after = read_filler(input, pos, &mut events);
        if after > pos {
            proof {
                let said = filler_at(input@, pos as int)->Some_0.0;
                lemma_models_grown(then, events@, seq![said]);
                let rest = parsed_from(input@, after as int, in_section);
                if let Ok(tail) = rest {
                    assert(models(then) + (seq![said] + tail) =~= models(then) + seq![said] + tail);
                }
            }
            pos = after;
        } else if in_section && byte_is_alphabetic(input[pos]) {
            pos = match read_entry(input, pos, &mut events) {
                Ok(end) => {
                    proof {
                        let said = entry_at(input@, pos as int)->Ok_0.0;
                        lemma_models_grown(then, events@, said);
                        let rest = parsed_from(input@, end as int, true);
                        if let Ok(tail) = rest {
                            assert(models(then) + (said + tail) =~= models(then) + said + tail);
                        }
                    }
                    end
                },
                Err(err) => {
                    return Err(err);
                },
            };
        } else {
            pos = match read_section_header(input, pos, &mut events) {
                Ok(end) => {
                    proof {
                        let said = header_at(input@, pos as int)->Ok_0.0;
                        lemma_models_grown(then, events@, seq![said]);
                        let rest = parsed_from(input@, end as int, true);
                        if let Ok(tail) = rest {
                            assert(models(then) + (seq![said] + tail) =~= models(then) + seq![
                                said,
                            ] + tail);
                        }
                    }
                    end
                },
                Err(err) => {
                    return Err(err);
                },
            };
            in_section = true;
        }
    }
}

} // verus!
