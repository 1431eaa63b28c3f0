use std::collections::HashMap;

use ci_log::{extract_ansi, ANSISequence};

#[test]
fn reset() {
    let raw = "\u{1b}[0mreset\u{1b}[0m";
    let got = extract_ansi(raw.to_string());
    let want = (
        String::from("reset"),
        HashMap::from([
            (0, vec![ANSISequence::Reset]),
            (5, vec![ANSISequence::Reset]),
        ]),
    );
    assert_eq!(want.0, got.0);
    assert_eq!(want.1, got.1);
}

#[test]
fn bold() {
    let raw = "\u{1b}[1mbold\u{1b}[22m";
    let got = extract_ansi(raw.to_string());
    let want = (
        String::from("bold"),
        HashMap::from([
            (0, vec![ANSISequence::Bold]),
            (4, vec![ANSISequence::NotBold]),
        ]),
    );
    assert_eq!(want.0, got.0);
    assert_eq!(want.1, got.1);
}

#[test]
fn italic() {
    let raw = "\u{1b}[3mitalic\u{1b}[23m";
    let got = extract_ansi(raw.to_string());
    let want = (
        String::from("italic"),
        HashMap::from([
            (0, vec![ANSISequence::Italic]),
            (6, vec![ANSISequence::NotItalic]),
        ]),
    );
    assert_eq!(want.0, got.0);
    assert_eq!(want.1, got.1);
}

#[test]
fn underline() {
    let raw = "\u{1b}[4munderline\u{1b}[24m";
    let got = extract_ansi(raw.to_string());
    let want = (
        String::from("underline"),
        HashMap::from([
            (0, vec![ANSISequence::Underline]),
            (9, vec![ANSISequence::NotUnderline]),
        ]),
    );
    assert_eq!(want.0, got.0);
    assert_eq!(want.1, got.1);
}

#[test]
fn color_4bit_fg() {
    let raw = "\u{1b}[30m\u{1b}[31m\u{1b}[32m\u{1b}[33m\u{1b}[34m\u{1b}[35m\u{1b}[36m\u{1b}[37m4bit-colors\u{1b}[39m";
    let got = extract_ansi(raw.to_string());
    let want = (
        String::from("4bit-colors"),
        HashMap::from([
            (
                0,
                vec![
                    ANSISequence::SetFG8(0),
                    ANSISequence::SetFG8(1),
                    ANSISequence::SetFG8(2),
                    ANSISequence::SetFG8(3),
                    ANSISequence::SetFG8(4),
                    ANSISequence::SetFG8(5),
                    ANSISequence::SetFG8(6),
                    ANSISequence::SetFG8(7),
                ],
            ),
            (11, vec![ANSISequence::DefaultFG]),
        ]),
    );
    assert_eq!(want.0, got.0);
    assert_eq!(want.1, got.1);
}

#[test]
fn color_4bit_bg() {
    let raw = "\u{1b}[40m\u{1b}[41m\u{1b}[42m\u{1b}[43m\u{1b}[44m\u{1b}[45m\u{1b}[46m\u{1b}[47m4bit-colors\u{1b}[49m";
    let got = extract_ansi(raw.to_string());
    let want = (
        String::from("4bit-colors"),
        HashMap::from([
            (
                0,
                vec![
                    ANSISequence::SetBG8(0),
                    ANSISequence::SetBG8(1),
                    ANSISequence::SetBG8(2),
                    ANSISequence::SetBG8(3),
                    ANSISequence::SetBG8(4),
                    ANSISequence::SetBG8(5),
                    ANSISequence::SetBG8(6),
                    ANSISequence::SetBG8(7),
                ],
            ),
            (11, vec![ANSISequence::DefaultBG]),
        ]),
    );

    assert_eq!(want.0, got.0);
    assert_eq!(want.1, got.1);
}

#[test]
fn color_4bit_hi_fg() {
    let raw = "\u{1b}[90m\u{1b}[91m\u{1b}[92m\u{1b}[93m\u{1b}[94m\u{1b}[95m\u{1b}[96m\u{1b}[97m4bit-colors high intensity\u{1b}[39m";
    let got = extract_ansi(raw.to_string());
    let want = (
        String::from("4bit-colors high intensity"),
        HashMap::from([
            (
                0,
                vec![
                    ANSISequence::SetFG8(8),
                    ANSISequence::SetFG8(9),
                    ANSISequence::SetFG8(10),
                    ANSISequence::SetFG8(11),
                    ANSISequence::SetFG8(12),
                    ANSISequence::SetFG8(13),
                    ANSISequence::SetFG8(14),
                    ANSISequence::SetFG8(15),
                ],
            ),
            (26, vec![ANSISequence::DefaultFG]),
        ]),
    );

    assert_eq!(want.0, got.0);
    assert_eq!(want.1, got.1);
}

#[test]
fn color_4bit_hi_bg() {
    let raw = "\u{1b}[100m\u{1b}[101m\u{1b}[102m\u{1b}[103m\u{1b}[104m\u{1b}[105m\u{1b}[106m\u{1b}[107m4bit-colors high intensity\u{1b}[49m";
    let got = extract_ansi(raw.to_string());
    let want = (
        String::from("4bit-colors high intensity"),
        HashMap::from([
            (
                0,
                vec![
                    ANSISequence::SetBG8(8),
                    ANSISequence::SetBG8(9),
                    ANSISequence::SetBG8(10),
                    ANSISequence::SetBG8(11),
                    ANSISequence::SetBG8(12),
                    ANSISequence::SetBG8(13),
                    ANSISequence::SetBG8(14),
                    ANSISequence::SetBG8(15),
                ],
            ),
            (26, vec![ANSISequence::DefaultBG]),
        ]),
    );

    assert_eq!(want.0, got.0);
    assert_eq!(want.1, got.1);
}

#[test]
fn color_8bit_fg() {
    let raw = "\u{1b}[38;5;111m8-bit\u{1b}[0m";
    let got = extract_ansi(raw.to_string());
    let want = (
        String::from("8-bit"),
        HashMap::from([
            (0, vec![ANSISequence::SetFG8(111)]),
            (5, vec![ANSISequence::Reset]),
        ]),
    );

    assert_eq!(want.0, got.0);
    assert_eq!(want.1, got.1);
}

#[test]
fn color_8bit_bg() {
    let raw = "\u{1b}[48;5;111m8-bit\u{1b}[0m";
    let got = extract_ansi(raw.to_string());
    let want = (
        String::from("8-bit"),
        HashMap::from([
            (0, vec![ANSISequence::SetBG8(111)]),
            (5, vec![ANSISequence::Reset]),
        ]),
    );

    assert_eq!(want.0, got.0);
    assert_eq!(want.1, got.1);
}

#[test]
fn color_8bit_invalid() {
    let raw = "\u{1b}[38;5;256m\u{1b}[48;5;256minvalid";
    let got = extract_ansi(raw.to_string());
    assert_eq!(raw, got.0);
    assert!(got.1.is_empty());
}

#[test]
fn color_24bit_fg() {
    let raw = "\u{1b}[38;2;100;110;111m24-bit\u{1b}[0m";
    let got = extract_ansi(raw.to_string());
    let want = (
        String::from("24-bit"),
        HashMap::from([
            (0, vec![ANSISequence::SetFG24(100, 110, 111)]),
            (6, vec![ANSISequence::Reset]),
        ]),
    );

    assert_eq!(want.0, got.0);
    assert_eq!(want.1, got.1);
}

#[test]
fn color_24bit_bg() {
    let raw = "\u{1b}[48;2;100;110;111m24-bit\u{1b}[0m";
    let got = extract_ansi(raw.to_string());
    let want = (
        String::from("24-bit"),
        HashMap::from([
            (0, vec![ANSISequence::SetBG24(100, 110, 111)]),
            (6, vec![ANSISequence::Reset]),
        ]),
    );

    assert_eq!(want.0, got.0);
    assert_eq!(want.1, got.1);
}

#[test]
fn color_24bit_invalid() {
    let raw = "\u{1b}[38;2;256;100;100m\u{1b}[48;2;256;100;100minvalid";
    let got = extract_ansi(raw.to_string());
    assert_eq!(raw, got.0);
    assert!(got.1.is_empty());
}

#[test]
fn invalid_junk() {
    let raw = "\u{1b}[1337minvalid\u{1b}[1337;1337;1337;1337mwithout an m:\u{1b}[0";
    let got = extract_ansi(raw.to_string());
    assert_eq!(raw, got.0);
    assert!(got.1.is_empty());
}

#[test]
fn multi_seq() {
    let raw = "\u{1b}[36;1mbold cyan\u{1b}[0m";
    let got = extract_ansi(raw.to_string());
    let want = (
        String::from("bold cyan"),
        HashMap::from([
            (0, vec![ANSISequence::SetFG8(6), ANSISequence::Bold]),
            (9, vec![ANSISequence::Reset]),
        ]),
    );

    assert_eq!(want.0, got.0);
    assert_eq!(want.1, got.1);
}
