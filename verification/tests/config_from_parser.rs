use gitkit::config::events::{Event, ParsedSectionHeader};
use gitkit::config::file::File;
use gitkit::config::lookup::{LookupEntry, LookupTreeNode, SectionId, SubsectionIds};
use gitkit::config::section::SectionBody;

fn name_event(name: &str) -> Event {
    Event::Key(name.as_bytes().to_vec())
}

fn value_event(value: &str) -> Event {
    Event::Value(value.as_bytes().to_vec())
}

fn newline_event() -> Event {
    Event::Newline(b"\n".to_vec())
}

fn section_header(name: &str, subsection: Option<(&str, &str)>) -> ParsedSectionHeader {
    ParsedSectionHeader {
        name: name.as_bytes().to_vec(),
        separator: subsection.map(|(separator, _)| separator.as_bytes().to_vec()),
        subsection_name: subsection.map(|(_, name)| name.as_bytes().to_vec()),
    }
}

#[test]
fn parse_empty() {
    let config = File::try_from("").unwrap();
    assert!(config.section_headers.is_empty());
    assert_eq!(config.section_id_counter, 0);
    assert!(config.section_lookup_tree.is_empty());
    assert!(config.sections.is_empty());
    assert!(config.section_order.is_empty());
}

#[test]
fn parse_single_section() {
    let config = File::try_from("[core]\na=b\nc=d").unwrap();
    let expected_separators = vec![Some(section_header("core", None))];
    assert_eq!(config.section_headers, expected_separators);
    assert_eq!(config.section_id_counter, 1);
    let expected_lookup_tree = vec![LookupEntry {
        name: b"core".to_vec(),
        nodes: vec![LookupTreeNode::Terminal(vec![SectionId(0)])],
    }];
    assert_eq!(config.section_lookup_tree, expected_lookup_tree);
    let expected_sections = vec![Some(SectionBody::from_events(vec![
        newline_event(),
        name_event("a"),
        Event::KeyValueSeparator,
        value_event("b"),
        newline_event(),
        name_event("c"),
        Event::KeyValueSeparator,
        value_event("d"),
    ]))];
    assert_eq!(config.sections, expected_sections);
    assert_eq!(config.section_order, vec![SectionId(0)]);
}

#[test]
fn parse_single_subsection() {
    let config = File::try_from("[core.sub]\na=b\nc=d").unwrap();
    let expected_separators = vec![Some(section_header("core", Some((".", "sub"))))];
    assert_eq!(config.section_headers, expected_separators);
    assert_eq!(config.section_id_counter, 1);
    let expected_lookup_tree = vec![LookupEntry {
        name: b"core".to_vec(),
        nodes: vec![LookupTreeNode::NonTerminal(vec![SubsectionIds {
            name: b"sub".to_vec(),
            ids: vec![SectionId(0)],
        }])],
    }];
    assert_eq!(config.section_lookup_tree, expected_lookup_tree);
    let expected_sections = vec![Some(SectionBody::from_events(vec![
        newline_event(),
        name_event("a"),
        Event::KeyValueSeparator,
        value_event("b"),
        newline_event(),
        name_event("c"),
        Event::KeyValueSeparator,
        value_event("d"),
    ]))];
    assert_eq!(config.sections, expected_sections);
    assert_eq!(config.section_order, vec![SectionId(0)]);
}

#[test]
fn parse_multiple_sections() {
    let config = File::try_from("[core]\na=b\nc=d\n[other]e=f").unwrap();
    let expected_separators = vec![
        Some(section_header("core", None)),
        Some(section_header("other", None)),
    ];
    assert_eq!(config.section_headers, expected_separators);
    assert_eq!(config.section_id_counter, 2);
    let expected_lookup_tree = vec![
        LookupEntry {
            name: b"core".to_vec(),
            nodes: vec![LookupTreeNode::Terminal(vec![SectionId(0)])],
        },
        LookupEntry {
            name: b"other".to_vec(),
            nodes: vec![LookupTreeNode::Terminal(vec![SectionId(1)])],
        },
    ];
    assert_eq!(config.section_lookup_tree, expected_lookup_tree);
    let expected_sections = vec![
        Some(SectionBody::from_events(vec![
            newline_event(),
            name_event("a"),
            Event::KeyValueSeparator,
            value_event("b"),
            newline_event(),
            name_event("c"),
            Event::KeyValueSeparator,
            value_event("d"),
            newline_event(),
        ])),
        Some(SectionBody::from_events(vec![
            name_event("e"),
            Event::KeyValueSeparator,
            value_event("f"),
        ])),
    ];
    assert_eq!(config.sections, expected_sections);
    assert_eq!(config.section_order, vec![SectionId(0), SectionId(1)]);
}

#[test]
fn parse_multiple_duplicate_sections() {
    let config = File::try_from("[core]\na=b\nc=d\n[core]e=f").unwrap();
    let expected_separators = vec![
        Some(section_header("core", None)),
        Some(section_header("core", None)),
    ];
    assert_eq!(config.section_headers, expected_separators);
    assert_eq!(config.section_id_counter, 2);
    let expected_lookup_tree = vec![LookupEntry {
        name: b"core".to_vec(),
        nodes: vec![LookupTreeNode::Terminal(vec![SectionId(0), SectionId(1)])],
    }];
    assert_eq!(config.section_lookup_tree, expected_lookup_tree);
    let expected_sections = vec![
        Some(SectionBody::from_events(vec![
            newline_event(),
            name_event("a"),
            Event::KeyValueSeparator,
            value_event("b"),
            newline_event(),
            name_event("c"),
            Event::KeyValueSeparator,
            value_event("d"),
            newline_event(),
        ])),
        Some(SectionBody::from_events(vec![
            name_event("e"),
            Event::KeyValueSeparator,
            value_event("f"),
        ])),
    ];
    assert_eq!(config.sections, expected_sections);
    assert_eq!(config.section_order, vec![SectionId(0), SectionId(1)]);
}
