use gitkit::config::access::ValueLookupError;
use gitkit::config::events::{Event, ParsedComment, ParsedSectionHeader};
use gitkit::config::file::File;
use gitkit::config::lookup::{LookupError, SectionId};
use gitkit::config::mutate::ValueLocation;
use gitkit::config::parser::{parse_from_bytes, ParseError, ParserNode};
use gitkit::config::section::SectionBody;
use gitkit::config::values::{normalize, parse_boolean, parse_decimal, parse_integer, ParseErrorKind, Path, ValueError};

fn text(config: &File) -> String {
    String::from_utf8(config.to_bytes()).unwrap()
}

#[test]
fn files_are_written_as_they_were_read() {
    for input in [
        "",
        "; comment\n# another\n\n",
        "[core]\na=b\nc=d",
        "[core.sub]\na=b\nc=d",
        "[core \"sub\"]\n\ta = b ; comment\n\tc\n",
        "[core]\r\n  a = \"b ; no comment\" # comment\r\n",
        "[core]\na = one \\\n  two \\\n three\nb=c",
        "[url \"ssh://git@github.com/\"]\n   insteadOf = https://github.com/\n[url \"ssh://git@bitbucket.org\"]\n   insteadOf = https://bitbucket.org/\n",
        "  \t\n[a]b=\n[c \"d\\\"e\\\\\"]\nf = g\\th\\\\i\\nj\\\"k\n",
        "[a]\nb = c   \n",
        "[]\n",
    ] {
        let config = File::try_from(input).unwrap();
        assert_eq!(text(&config), input);
        let events = parse_from_bytes(input.as_bytes()).unwrap();
        let mut written = Vec::new();
        for event in &events {
            event.write_to(&mut written);
        }
        assert_eq!(written, input.as_bytes());
    }
}

#[test]
fn events_of_a_continued_value_and_a_comment() {
    let events = parse_from_bytes(b"#c\n[s \"t\"]\n k  = v \\\n w ;x").unwrap();
    assert_eq!(
        events,
        vec![
            Event::Comment(ParsedComment { comment_tag: b'#', comment: b"c".to_vec() }),
            Event::Newline(b"\n".to_vec()),
            Event::SectionHeader(ParsedSectionHeader {
                name: b"s".to_vec(),
                separator: Some(b" ".to_vec()),
                subsection_name: Some(b"t".to_vec()),
            }),
            Event::Newline(b"\n".to_vec()),
            Event::Whitespace(b" ".to_vec()),
            Event::Key(b"k".to_vec()),
            Event::Whitespace(b"  ".to_vec()),
            Event::KeyValueSeparator,
            Event::Whitespace(b" ".to_vec()),
            Event::ValueNotDone(b"v ".to_vec()),
            Event::Newline(b"\n".to_vec()),
            Event::ValueDone(b" w".to_vec()),
            Event::Whitespace(b" ".to_vec()),
            Event::Comment(ParsedComment { comment_tag: b';', comment: b"x".to_vec() }),
        ]
    );
}

#[test]
fn input_that_does_not_fit() {
    let error = |input: &str| File::try_from(input).unwrap_err();
    assert_eq!(error("a=b"), ParseError { node: ParserNode::SectionHeader, at: 0 });
    assert_eq!(error("[core"), ParseError { node: ParserNode::SectionHeader, at: 5 });
    assert_eq!(error("[core \"sub]"), ParseError { node: ParserNode::SectionHeader, at: 11 });
    assert_eq!(error("[core\"sub\"]"), ParseError { node: ParserNode::SectionHeader, at: 5 });
    assert_eq!(error("[core \"s\\x\"]"), ParseError { node: ParserNode::SectionHeader, at: 8 });
    assert_eq!(error("[core]\na=\\x"), ParseError { node: ParserNode::ConfigValue, at: 10 });
    assert_eq!(error("[core]\na=\"b"), ParseError { node: ParserNode::ConfigValue, at: 11 });
    assert_eq!(error("[core]\na=b\\"), ParseError { node: ParserNode::ConfigValue, at: 11 });
    assert_eq!(error("[core]\n1=b"), ParseError { node: ParserNode::SectionHeader, at: 7 });
    assert_eq!(error("[core]\na=b\n]"), ParseError { node: ParserNode::SectionHeader, at: 11 });
}

#[test]
fn raw_values_follow_the_last_one_wins_rule() {
    let config = File::try_from("[core]a=b\n[core]\na=c\na=d\n[core \"x\"]\na=e\n[Other]\nKey").unwrap();
    assert_eq!(config.raw_value("core", None, "a"), Ok(b"d".to_vec()));
    assert_eq!(config.raw_value("CORE", None, "A"), Ok(b"d".to_vec()));
    assert_eq!(config.raw_value("core", Some("x"), "a"), Ok(b"e".to_vec()));
    assert_eq!(config.raw_value("core", Some("X"), "a"), Err(LookupError::SubSectionMissing));
    assert_eq!(config.raw_value("core", None, "b"), Err(LookupError::KeyMissing));
    assert_eq!(config.raw_value("none", None, "a"), Err(LookupError::SectionMissing));
    assert_eq!(config.raw_value("other", None, "key"), Ok(Vec::new()));
    assert_eq!(config.raw_value("other", Some("x"), "key"), Err(LookupError::SubSectionMissing));
    assert_eq!(
        config.raw_multi_value("core", None, "a"),
        Ok(vec![b"b".to_vec(), b"c".to_vec(), b"d".to_vec()])
    );
    assert_eq!(config.raw_multi_value("core", None, "z"), Err(LookupError::KeyMissing));
    assert_eq!(config.raw_multi_value("z", None, "a"), Err(LookupError::SectionMissing));
    assert_eq!(config.len(), 5);
    assert!(!config.is_empty());
}

#[test]
fn continued_values_are_joined() {
    let config = File::try_from("[core]\na = one \\\n two\n").unwrap();
    assert_eq!(config.raw_value("core", None, "a"), Ok(b"one  two".to_vec()));
}

#[test]
fn sections_by_name_ignores_subsections() {
    let config = File::try_from("[core]\na = b\n[core \"\"]\nc = d\n[core \"apple\"]\ne = f\n").unwrap();
    assert_eq!(config.sections_by_name("core").len(), 3);
    assert_eq!(config.sections_by_name("none").len(), 0);
    assert_eq!(config.section_ids_by_name("core"), Ok(vec![SectionId(0), SectionId(1), SectionId(2)]));
    assert_eq!(config.section_ids_by_name("none"), Err(LookupError::SectionMissing));
    assert_eq!(config.section_ids_by_name_and_subname("core", Some("apple")), Ok(vec![SectionId(2)]));
    assert_eq!(config.section("core", Some("apple")).unwrap().value(b"e"), Some(b"f".to_vec()));
    assert_eq!(config.section("core", Some("pear")).err(), Some(LookupError::SubSectionMissing));
}

#[test]
fn sections_by_name_with_header_gives_both() {
    let input = "[url \"ssh://git@github.com/\"]\n   insteadOf = https://github.com/\n[url \"ssh://git@bitbucket.org\"]\n   insteadOf = https://bitbucket.org/\n";
    let config = File::try_from(input).unwrap();
    let url = config.sections_by_name_with_header("url");
    assert_eq!(url.len(), 2);
    assert_eq!(url[0].0.subsection_name, Some(b"ssh://git@github.com/".to_vec()));
    assert_eq!(url[0].1.value(b"insteadOf"), Some(b"https://github.com/".to_vec()));
    assert_eq!(url[1].0.subsection_name, Some(b"ssh://git@bitbucket.org".to_vec()));
    assert_eq!(url[1].1.value(b"insteadof"), Some(b"https://bitbucket.org/".to_vec()));
    assert!(config.sections_by_name_with_header("none").is_empty());
}

#[test]
fn new_sections_are_written_with_quoted_subsections() {
    let mut config = File::new();
    assert!(config.is_empty());
    assert_eq!(config.new_section("hello", Some("world")), SectionId(0));
    assert_eq!(text(&config), "[hello \"world\"]\n");
    assert_eq!(config.new_section("core", None), SectionId(1));
    assert_eq!(text(&config), "[hello \"world\"]\n[core]\n");
    assert_eq!(config.len(), 0);
    let id = config.push_section("core", None, SectionBody::from_events(vec![
        Event::Key(b"a".to_vec()),
        Event::KeyValueSeparator,
        Event::Value(b"b".to_vec()),
    ]));
    assert_eq!(id, SectionId(2));
    assert_eq!(text(&config), "[hello \"world\"]\n[core]\n[core]a=b");
    assert_eq!(config.section_ids_by_name_and_subname("core", None), Ok(vec![SectionId(1), SectionId(2)]));
    assert_eq!(config.len(), 1);
}

#[test]
fn removing_takes_the_newest_section() {
    let mut config = File::try_from("[hello \"world\"]\n    some-value = 4\n").unwrap();
    let removed = config.remove_section("hello", Some("world")).unwrap();
    assert_eq!(removed.value(b"some-value"), Some(b"4".to_vec()));
    assert_eq!(text(&config), "");
    assert_eq!(config.raw_value("hello", Some("world"), "some-value"), Err(LookupError::KeyMissing));
    assert!(config.remove_section("hello", Some("world")).is_none());
    assert!(config.remove_section("no", None).is_none());

    let mut config = File::try_from("[hello \"world\"]\n    some-value = 4\n[hello \"world\"]\n    some-value = 5\n").unwrap();
    assert_eq!(config.raw_value("hello", Some("world"), "some-value"), Ok(b"5".to_vec()));
    config.remove_section("hello", Some("world"));
    assert_eq!(text(&config), "[hello \"world\"]\n    some-value = 4\n");
    assert_eq!(config.raw_value("hello", Some("world"), "some-value"), Ok(b"4".to_vec()));
    assert_eq!(config.section_id_counter, 2);
    assert_eq!(config.new_section("next", None), SectionId(2));
}

#[test]
fn renaming_changes_the_header_of_the_newest_section() {
    let mut config = File::try_from("[a]\nx=1\n[a]\nx=2\n").unwrap();
    assert_eq!(config.rename_section("a", None, "b", None), Ok(()));
    assert_eq!(text(&config), "[a]\nx=1\n[b]\nx=2\n");
    assert_eq!(config.rename_section("none", None, "b", None), Err(LookupError::SectionMissing));
    assert_eq!(config.rename_section("a", Some("s"), "b", None), Err(LookupError::SubSectionMissing));
    let mut config = File::try_from("[a \"s\"]\n").unwrap();
    assert_eq!(config.rename_section("a", Some("s"), "c", Some("t")), Ok(()));
    assert_eq!(text(&config), "[c \"t\"]\n");
}

#[test]
fn appending_adds_the_sections_of_the_other_file() {
    let mut config = File::try_from("; front\n[a]\nx=1\n").unwrap();
    let mut other = File::try_from("# dropped\n[b.sub]\ny=2\n[c]\nz=3\n[a]\nx=4").unwrap();
    other.remove_section("c", None);
    config.append(other);
    assert_eq!(text(&config), "; front\n[a]\nx=1\n[b \"sub\"]\ny=2\n[a]\nx=4");
    assert_eq!(config.raw_value("a", None, "x"), Ok(b"4".to_vec()));
    assert_eq!(config.raw_value("b", Some("sub"), "y"), Ok(b"2".to_vec()));
    assert_eq!(config.section_id_counter, 3);
}

#[test]
fn booleans() {
    let config = File::try_from("[core]\na = true\nb\nc = OFF\nd = maybe\ne = \"\"\nf = One\n").unwrap();
    assert_eq!(config.boolean("core", None, "a"), Some(Ok(true)));
    assert_eq!(config.boolean("core", None, "b"), Some(Ok(true)));
    assert_eq!(config.boolean("core", None, "c"), Some(Ok(false)));
    assert_eq!(
        config.boolean("core", None, "d"),
        Some(Err(ValueError { kind: ParseErrorKind::Boolean, input: b"maybe".to_vec() }))
    );
    assert_eq!(config.boolean("core", None, "e"), Some(Ok(false)));
    assert_eq!(config.boolean("core", None, "f"), Some(Ok(true)));
    assert_eq!(config.boolean("core", None, "g"), None);
    for (word, truth) in [("yes", true), ("on", true), ("TRUE", true), ("no", false), ("false", false), ("zero", false)] {
        assert_eq!(parse_boolean(word.as_bytes()), Some(truth));
    }
    assert_eq!(parse_boolean(b"1"), None);
}

#[test]
fn integers() {
    let config = File::try_from("[core]\na = 10k\nb = -3\nc = x\nd = 9223372036854775807\nd = 9223372036854775808\nm = 1\nm = 2m\nm = 3G\nn = 8589934592g\n").unwrap();
    assert_eq!(config.integer("core", None, "a"), Some(Ok(10240)));
    assert_eq!(config.integer("core", None, "b"), Some(Ok(-3)));
    assert_eq!(
        config.integer("core", None, "c"),
        Some(Err(ValueError { kind: ParseErrorKind::Integer, input: b"x".to_vec() }))
    );
    assert_eq!(
        config.integer("core", None, "d"),
        Some(Err(ValueError { kind: ParseErrorKind::Integer, input: b"9223372036854775808".to_vec() }))
    );
    assert_eq!(config.integer("core", None, "z"), None);
    assert_eq!(config.integers("core", None, "m"), Some(Ok(vec![1, 2 * 1024 * 1024, 3 * 1024 * 1024 * 1024])));
    assert_eq!(
        config.integers("core", None, "d"),
        Some(Err(ValueError { kind: ParseErrorKind::Integer, input: b"9223372036854775808".to_vec() }))
    );
    assert_eq!(
        config.integer("core", None, "n"),
        Some(Err(ValueError { kind: ParseErrorKind::IntegerOverflow, input: b"8589934592g".to_vec() }))
    );
    assert_eq!(config.integers("core", None, "z"), None);
    assert_eq!(parse_decimal(b"-9223372036854775808"), Some(i64::MIN));
    assert_eq!(parse_decimal(b"-9223372036854775809"), None);
    assert_eq!(parse_decimal(b"+7"), Some(7));
    assert_eq!(parse_decimal(b"+"), None);
    assert_eq!(parse_decimal(b""), None);
    assert_eq!(parse_decimal(b"1 "), None);
    assert_eq!(parse_integer(b"k"), Err(ParseErrorKind::Integer));
    assert_eq!(parse_integer(b"-1K"), Ok(-1024));
    assert_eq!(parse_integer(b"1x"), Err(ParseErrorKind::Integer));
}

#[test]
fn paths_and_converted_values() {
    let config = File::try_from("[core]\np = ~/dir\nn = 42\n").unwrap();
    assert_eq!(config.path("core", None, "p"), Some(Path { value: b"~/dir".to_vec() }));
    assert_eq!(config.path("core", None, "q"), None);
    let text: String = config.value("core", None, "p").unwrap();
    assert_eq!(text, "~/dir");
    assert!(matches!(
        config.value::<String>("core", None, "q"),
        Err(ValueLookupError::ValueMissing(LookupError::KeyMissing))
    ));
    assert!(matches!(
        config.value::<String>("none", None, "q"),
        Err(ValueLookupError::ValueMissing(LookupError::SectionMissing))
    ));
    assert_eq!(config.try_value::<String>("core", None, "n"), Some(Ok("42".to_string())));
    assert_eq!(config.try_value::<String>("core", None, "z"), None);
    let config = File::try_from("[core]\nv = a\nv = b\n").unwrap();
    assert_eq!(config.multi_value::<String>("core", None, "v").unwrap(), vec!["a".to_string(), "b".to_string()]);
    assert!(matches!(
        config.multi_value::<String>("core", None, "w"),
        Err(ValueLookupError::ValueMissing(LookupError::KeyMissing))
    ));
    let config = File::try_from("[core]\nv = a\nv = \"\\\\xff\"\n").unwrap();
    assert!(config.multi_value::<String>("core", None, "v").is_ok());
}

#[test]
fn setting_a_value_replaces_the_entry_that_wins() {
    let mut config = File::try_from("[core]a=b\n[core]\na=c\na = d  ; keep\n").unwrap();
    assert_eq!(
        config.raw_value_mut("core", None, "a"),
        Ok(ValueLocation { section: SectionId(1), index: 5, size: 4 })
    );
    assert_eq!(config.set_raw_value("core", None, "a", vec![b'e']), Ok(()));
    assert_eq!(config.raw_value("core", None, "a"), Ok(b"e".to_vec()));
    assert_eq!(text(&config), "[core]a=b\n[core]\na=c\na=e  ; keep\n");
    assert_eq!(config.raw_multi_value("core", None, "a"), Ok(vec![b"b".to_vec(), b"c".to_vec(), b"e".to_vec()]));
    assert_eq!(config.set_raw_value("core", None, "z", vec![b'e']), Err(LookupError::KeyMissing));
    assert_eq!(config.set_raw_value("none", None, "a", vec![b'e']), Err(LookupError::SectionMissing));
    assert_eq!(config.raw_value_mut("core", Some("s"), "a"), Err(LookupError::SubSectionMissing));
}

#[test]
fn setting_many_values() {
    let start = "[core]a=b\n[core]\na=c\na=d";
    let values = |list: &[&str]| list.iter().map(|v| v.as_bytes().to_vec()).collect::<Vec<_>>();
    let mut config = File::try_from(start).unwrap();
    assert_eq!(config.raw_multi_value_mut("core", None, "a").unwrap().len(), 3);
    assert_eq!(config.set_raw_multi_value("core", None, "a", values(&["x", "y", "z"])), Ok(()));
    assert_eq!(config.raw_multi_value("core", None, "a"), Ok(values(&["x", "y", "z"])));
    assert_eq!(text(&config), "[core]a=x\n[core]\na=y\na=z");

    let mut config = File::try_from(start).unwrap();
    assert_eq!(config.set_raw_multi_value("core", None, "a", values(&["x", "y"])), Ok(()));
    assert_eq!(config.raw_multi_value("core", None, "a"), Ok(values(&["x", "y", "d"])));

    let mut config = File::try_from(start).unwrap();
    assert_eq!(config.set_raw_multi_value("core", None, "a", values(&["x", "y", "z", "discarded"])), Ok(()));
    assert_eq!(config.raw_multi_value("core", None, "a"), Ok(values(&["x", "y", "z"])));

    assert_eq!(config.set_raw_multi_value("core", None, "q", values(&["x"])), Err(LookupError::KeyMissing));
    assert_eq!(config.set_raw_multi_value("q", None, "a", values(&["x"])), Err(LookupError::SectionMissing));
    assert_eq!(config.raw_multi_value_mut("core", None, "q"), Err(LookupError::KeyMissing));
}

#[test]
fn changing_a_section_in_place() {
    let mut config = File::try_from("[core]\na=b\n[core]\n").unwrap();
    config.section_mut("core", None).unwrap().0.push(Event::Key(b"k".to_vec()));
    config.section_mut("core", None).unwrap().0.push(Event::Value(b"v".to_vec()));
    assert_eq!(config.raw_value("core", None, "k"), Ok(b"v".to_vec()));
    assert_eq!(text(&config), "[core]\na=b\n[core]\nkv");
    assert_eq!(config.section_mut("none", None).err(), Some(LookupError::SectionMissing));
}

#[test]
fn strings_lose_their_quotes() {
    let config = File::try_from("[core]\na = \"b c\" d\na = \"say \\\"hi\\\"\"\nb = x\\ty\n").unwrap();
    assert_eq!(config.string("core", None, "a"), Some(b"say \"hi\"".to_vec()));
    assert_eq!(config.string("core", None, "b"), Some(b"x\\ty".to_vec()));
    assert_eq!(config.string("core", None, "c"), None);
    assert_eq!(config.strings("core", None, "a"), Some(vec![b"b c d".to_vec(), b"say \"hi\"".to_vec()]));
    assert_eq!(config.strings("core", None, "c"), None);
    assert_eq!(normalize(b"\"\""), Vec::<u8>::new());
    assert_eq!(normalize(b"a\\"), b"a\\".to_vec());
    assert_eq!(normalize(b""), Vec::<u8>::new());
}

#[test]
fn a_file_tells_whether_it_can_be_written() {
    let mut config = File::try_from("[core]\na=b\n[other]\nc=d").unwrap();
    assert!(config.is_writable());
    assert!(File::new().is_writable());
    config.section_headers[1] = None;
    assert!(!config.is_writable());
    let mut config = File::try_from("[core]\na=b").unwrap();
    config.section_order.push(SectionId(7));
    assert!(!config.is_writable());
}

#[test]
fn a_new_section_is_written_last() {
    let mut config = File::try_from("; first\n[core]\na=b\n").unwrap();
    config.new_section("hello", Some("world"));
    config.new_section("Core", None);
    assert_eq!(text(&config), "; first\n[core]\na=b\n[hello \"world\"]\n[Core]\n");
    assert_eq!(config.section_lookup_tree.len(), 2);
    assert_eq!(config.section_ids_by_name_and_subname("core", None).unwrap(), vec![SectionId(0), SectionId(2)]);
}
