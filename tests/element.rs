use ci_log::{build_elements, Color, Element, Line, Styles};

#[test]
fn simple() {
    let line = Line::from("foo bar");
    let elements = build_elements(&line);

    let expected = vec![Element::Text("foo bar".to_string(), Styles::new())];

    assert_eq!(elements, expected);
}

#[test]
fn link() {
    let line = Line::from("foo https://reb.gg bar");
    let elements = build_elements(&line);

    let expected = vec![
        Element::Text("foo ".to_string(), Styles::new()),
        Element::Link(
            "https://reb.gg".to_string(),
            vec![Element::Text("https://reb.gg".to_string(), Styles::new())],
        ),
        Element::Text(" bar".to_string(), Styles::new()),
    ];

    assert_eq!(elements, expected);
}

#[test]
fn ends_with_link() {
    let line = Line::from("foo https://reb.gg");
    let elements = build_elements(&line);

    let expected = vec![
        Element::Text("foo ".to_string(), Styles::new()),
        Element::Link(
            "https://reb.gg".to_string(),
            vec![Element::Text("https://reb.gg".to_string(), Styles::new())],
        ),
    ];

    assert_eq!(elements, expected);
}

#[test]
fn highlight() {
    let mut line = Line::from("foo bar");
    line.highlight("oo");
    let elements = build_elements(&line);

    let expected = vec![
        Element::Text("f".to_string(), Styles::new()),
        Element::Text(
            "oo".to_string(),
            Styles {
                highlight: true,
                ..Styles::new()
            },
        ),
        Element::Text(" bar".to_string(), Styles::new()),
    ];

    assert_eq!(elements, expected);
}

#[test]
fn ansis() {
    let line = Line::from("\u{1b}[36;1mbold cyan\u{1b}[0m");
    let elements = build_elements(&line);

    let expected = vec![Element::Text(
        "bold cyan".to_string(),
        Styles {
            fg: Some(Color::Bit8(6)),
            bold: true,
            ..Styles::new()
        },
    )];

    assert_eq!(elements, expected);
}

#[test]
fn mixed() {
    let mut line = Line::from("do re me https://\u{1b}[31mreb.gg\u{1b}[0m fa la ti do");
    line.highlight("re");
    let elements = build_elements(&line);

    let expected = vec![
        Element::Text("do ".to_string(), Styles::new()),
        Element::Text(
            "re".to_string(),
            Styles {
                highlight: true,
                ..Styles::new()
            },
        ),
        Element::Text(" me ".to_string(), Styles::new()),
        Element::Link(
            "https://reb.gg".to_string(),
            vec![
                Element::Text("https://".to_string(), Styles::new()),
                Element::Text(
                    "re".to_string(),
                    Styles {
                        fg: Some(Color::Bit8(1)),
                        highlight: true,
                        ..Styles::new()
                    },
                ),
                Element::Text(
                    "b.gg".to_string(),
                    Styles {
                        fg: Some(Color::Bit8(1)),
                        ..Styles::new()
                    },
                ),
            ],
        ),
        Element::Text(" fa la ti do".to_string(), Styles::new()),
    ];

    assert_eq!(elements, expected);
}
