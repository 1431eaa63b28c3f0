use std::collections::HashMap;

use ci_log::line::{find_matches, links_from_spans};
use ci_log::{Command, Line, Parser};

fn ingest(lines: &[&str]) -> Parser {
    let mut parser = Parser::new();
    for l in lines {
        parser.add_line("", l);
    }
    parser
}

#[test]
fn two_groups_then_a_plain_line() {
    let parser = ingest(&[
        "##[group]A",
        "lineX",
        "##[endgroup]",
        "##[group]B",
        "lineY",
        "##[endgroup]",
        "lineZ",
    ]);
    assert_eq!(parser.lines.len(), 3);
    for line in &parser.lines[..2] {
        let group = line.group.as_ref().unwrap();
        assert!(group.ended);
        assert_eq!(group.children.len(), 1);
    }
    assert!(parser.lines[2].group.is_none());
    assert_eq!(parser.lines[2].content, "lineZ");
    assert_eq!(parser.idx, 8);
}

#[test]
fn stray_endgroups_are_plain_lines() {
    let parser = ingest(&["##[endgroup]", "x", "##[endgroup]"]);
    assert_eq!(parser.lines.len(), 3);
    assert_eq!(parser.lines[0].cmd, Some(Command::EndGroup));
    assert_eq!(parser.lines[2].cmd, Some(Command::EndGroup));
    assert!(parser.lines.iter().all(|l| l.group.is_none()));
}

#[test]
fn group_closes_open_group() {
    let parser = ingest(&["##[group]A", "x", "##[group]B", "y"]);
    assert_eq!(parser.lines.len(), 2);
    assert!(parser.lines[0].group.as_ref().unwrap().ended);
    assert!(!parser.lines[1].group.as_ref().unwrap().ended);
    assert_eq!(parser.lines[1].group.as_ref().unwrap().children[0].content, "y");
}

#[test]
fn search_ignores_case() {
    for term in ["BAR", "bar"] {
        let mut parser = ingest(&["foo bar baz bAr"]);
        parser.set_search(term);
        assert_eq!(parser.search, "bar");
        assert_eq!(parser.lines[0].highlights, HashMap::from([(4, 7), (12, 15)]));
        assert_eq!(parser.matches(), 2);
    }
    let mut parser = ingest(&["foo bar baz bAr"]);
    parser.set_search("bar");
    parser.set_search("");
    assert_eq!(parser.matches(), 0);
    assert!(parser.lines[0].highlights.is_empty());
}

#[test]
fn search_applies_to_new_lines_and_children() {
    let mut parser = Parser::new();
    parser.set_search("Hit");
    parser.add_line("", "##[group]hit");
    parser.add_line("", "a hit b HIT");
    assert_eq!(parser.matches(), 3);
    let child = &parser.lines[0].group.as_ref().unwrap().children[0];
    assert_eq!(child.highlights, HashMap::from([(2, 5), (8, 11)]));
}

#[test]
fn raw_text_is_split_into_lines() {
    let mut parser = Parser::new();
    parser.set_raw("a\r\nb\n\nc");
    let contents: Vec<&str> = parser.lines.iter().map(|l| l.content.as_str()).collect();
    assert_eq!(contents, vec!["a", "b", "", "c"]);
    let numbers: Vec<usize> = parser.lines.iter().map(|l| l.number).collect();
    assert_eq!(numbers, vec![1, 2, 3, 4]);
}

#[test]
fn timestamp_sources() {
    let line = Line::new_at(3, Some("1705277683580-7"), "x", 5);
    assert_eq!(line.ts, 1705277683580);
    assert_eq!(line.content, "x");
    let line = Line::new_at(3, Some("nope"), "x", 5);
    assert_eq!(line.ts, 5);
    let line = Line::new_at(3, None, "2024-01-15T00:14:43.5805748Z", 5);
    assert_eq!(line.ts, 1705277683580);
    assert_eq!(line.content, "");
    let line = Line::new_at(3, None, "2024-01-15T00:14:43.5805748Z ##[error]boom", 5);
    assert_eq!(line.cmd, Some(Command::Error));
    assert_eq!(line.content, "boom");
}

#[test]
fn unknown_command_keeps_text() {
    let line = Line::new_at(1, None, "[nope] text", 0);
    assert_eq!(line.cmd, None);
    assert_eq!(line.content, "[nope] text");
    assert_eq!(Command::from("warning"), Some(Command::Warning));
    assert_eq!(Command::EndGroup.tag(), 9);
    assert_eq!(Command::Command.tag(), 1);
}

#[test]
fn match_spans_by_byte_offset() {
    assert_eq!(find_matches("aaaa", "aa", 2), HashMap::from([(0, 2), (2, 4)]));
    assert_eq!(find_matches("éa", "a", 1), HashMap::from([(2, 3)]));
    assert_eq!(find_matches("abc", "x", 1), HashMap::new());
    assert_eq!(links_from_spans(&vec![(1, 2), (5, 9)]), HashMap::from([(1, 2), (5, 9)]));
}
