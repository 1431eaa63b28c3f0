use std::collections::HashMap;

use ci_log::{extract_ansi, ANSISequence};

#[test]
fn every_single_code_decodes_alone() {
    let mut cases: Vec<(u8, ANSISequence)> = vec![
        (0, ANSISequence::Reset),
        (1, ANSISequence::Bold),
        (3, ANSISequence::Italic),
        (4, ANSISequence::Underline),
        (22, ANSISequence::NotBold),
        (23, ANSISequence::NotItalic),
        (24, ANSISequence::NotUnderline),
        (39, ANSISequence::DefaultFG),
        (49, ANSISequence::DefaultBG),
    ];
    for c in 30..=37u8 {
        cases.push((c, ANSISequence::SetFG8(c - 30)));
    }
    for c in 40..=47u8 {
        cases.push((c, ANSISequence::SetBG8(c - 40)));
    }
    for c in 90..=97u8 {
        cases.push((c, ANSISequence::SetFG8(c - 90 + 8)));
    }
    for c in 100..=107u8 {
        cases.push((c, ANSISequence::SetBG8(c - 100 + 8)));
    }
    for (c, event) in cases {
        let (text, events) = extract_ansi(format!("\u{1b}[{}mX", c));
        assert_eq!(text, "X");
        assert_eq!(events, HashMap::from([(0, vec![event])]));
    }
}

#[test]
fn out_of_range_component_is_inert() {
    for raw in ["\u{1b}[38;5;256mX", "\u{1b}[48;2;256;0;0mX"] {
        let (text, events) = extract_ansi(raw.to_string());
        assert_eq!(text, raw);
        assert!(events.is_empty());
    }
}

#[test]
fn bold_cyan_events() {
    let (text, events) = extract_ansi("\u{1b}[36;1mbold cyan\u{1b}[0m".to_string());
    assert_eq!(text, "bold cyan");
    assert_eq!(
        events,
        HashMap::from([
            (0, vec![ANSISequence::SetFG8(6), ANSISequence::Bold]),
            (9, vec![ANSISequence::Reset]),
        ])
    );
}

#[test]
fn palette_colour_then_more_codes() {
    let (text, events) = extract_ansi("\u{1b}[38;5;1;1mX".to_string());
    assert_eq!(text, "X");
    assert_eq!(events, HashMap::from([(0, vec![ANSISequence::SetFG8(1), ANSISequence::Bold])]));
}

#[test]
fn one_bad_code_poisons_the_sequence() {
    let raw = "\u{1b}[1;2mX";
    let (text, events) = extract_ansi(raw.to_string());
    assert_eq!(text, raw);
    assert!(events.is_empty());
}

#[test]
fn empty_and_unterminated_sequences_stay_text() {
    for raw in ["\u{1b}[mX", "X\u{1b}[", "X\u{1b}[31", "\u{1b}X", "\u{1b}"] {
        let (text, events) = extract_ansi(raw.to_string());
        assert_eq!(text, raw);
        assert!(events.is_empty());
    }
}

#[test]
fn plus_sign_and_leading_zeros() {
    let (text, events) = extract_ansi("\u{1b}[+01;031mX".to_string());
    assert_eq!(text, "X");
    assert_eq!(events, HashMap::from([(0, vec![ANSISequence::Bold, ANSISequence::SetFG8(1)])]));
}

#[test]
fn adjacent_sequences_append_at_one_offset() {
    let (text, events) = extract_ansi("a\u{1b}[1m\u{1b}[3mb".to_string());
    assert_eq!(text, "ab");
    assert_eq!(events, HashMap::from([(1, vec![ANSISequence::Bold, ANSISequence::Italic])]));
}

#[test]
fn offsets_count_bytes() {
    let (text, events) = extract_ansi("é\u{1b}[1mx".to_string());
    assert_eq!(text, "éx");
    assert_eq!(events, HashMap::from([(2, vec![ANSISequence::Bold])]));
}

#[test]
fn sequence_from_parameter_text() {
    assert_eq!(
        ANSISequence::from("38;2;1;2;3".to_string()),
        Some(vec![ANSISequence::SetFG24(1, 2, 3)])
    );
    assert_eq!(ANSISequence::from("38;2;1;2".to_string()), None);
    assert_eq!(ANSISequence::from("".to_string()), None);
    assert_eq!(ANSISequence::from("1337".to_string()), None);
}
