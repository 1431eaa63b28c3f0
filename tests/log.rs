use chrono::Utc;
use ci_log::{ANSISequence, Command, Line};

#[test]
fn log_commands() {
    let commands = [
        ("command", Some(Command::Command)),
        ("debug", Some(Command::Debug)),
        ("error", Some(Command::Error)),
        ("info", Some(Command::Info)),
        ("notice", Some(Command::Notice)),
        ("verbose", Some(Command::Verbose)),
        ("warning", Some(Command::Warning)),
        ("group", Some(Command::Group)),
        ("endgroup", Some(Command::EndGroup)),
        ("foo", None),
    ];

    for (cmd, expected) in commands.iter() {
        let line = Line::new(1, None, format!("##[{}] with double #", cmd).as_str());
        assert_eq!(line.cmd, *expected);
    }

    for (cmd, expected) in commands.iter() {
        let line = Line::new(1, None, format!("[{}] with just [", cmd).as_str());
        assert_eq!(line.cmd, *expected);
    }
}

#[test]
fn log_timestamps() {
    let line = Line::new(1, None, "2024-01-15T00:14:43.5805748Z foo");
    assert_eq!(line.ts, 1705277683580);

    let line = Line::new(1, Some("1705277683580-0"), "foo");
    assert_eq!(line.ts, 1705277683580);

    let line = Line::new(1, Some("foo"), "bar");
    let diff = (Utc::now().timestamp_millis() - line.ts).abs();
    assert!(diff >= 0 && diff < 1000)
}

#[test]
fn log_ansi() {
    let line = Line::new(1, None, "\u{1b}[31mfoo\u{1b}[0m");
    assert_eq!(line.ansis.len(), 2);
    assert_eq!(line.ansis[&(0 as usize)], vec![ANSISequence::SetFG8(1)]);
    assert_eq!(line.ansis[&(3 as usize)], vec![ANSISequence::Reset]);
}

#[test]
fn log_links() {
    let line = Line::new(1, None, "foo https://reb.gg bar");
    assert_eq!(line.links.len(), 1);
    assert_eq!(line.links[&(4 as usize)], 18);
}
