use std::collections::HashMap;

use ci_log::{build_elements, Element, Line, Styles};

fn shown(elements: &[Element]) -> String {
    let mut out = String::new();
    for e in elements {
        match e {
            Element::Text(t, _) => out.push_str(t),
            Element::Link(_, children) => out.push_str(&shown(children)),
        }
    }
    out
}

fn highlighted(elements: &[Element]) -> bool {
    elements.iter().any(|e| match e {
        Element::Text(_, s) => s.highlight,
        Element::Link(_, children) => highlighted(children),
    })
}

#[test]
fn elements_reproduce_content() {
    for raw in [
        "plain",
        "do re me https://\u{1b}[31mreb.gg\u{1b}[0m fa la ti do",
        "\u{1b}[1mbold\u{1b}[0m and https://a.example/x and é",
        "",
    ] {
        let mut line = Line::from(raw);
        line.highlight("e");
        assert_eq!(shown(&build_elements(&line)), line.content);
        assert_eq!(shown(&line.elements), line.content);
    }
}

#[test]
fn link_span_and_elements() {
    let line = Line::from("foo https://reb.gg bar");
    assert_eq!(line.links, HashMap::from([(4, 18)]));
    assert_eq!(
        line.elements,
        vec![
            Element::Text("foo ".to_string(), Styles::new()),
            Element::Link(
                "https://reb.gg".to_string(),
                vec![Element::Text("https://reb.gg".to_string(), Styles::new())],
            ),
            Element::Text(" bar".to_string(), Styles::new()),
        ]
    );
}

#[test]
fn adjacent_texts_differ_in_style() {
    let mut line = Line::from("\u{1b}[1ma\u{1b}[1mb\u{1b}[22mc\u{1b}[0md");
    line.highlight("");
    assert_eq!(
        line.elements,
        vec![
            Element::Text("ab".to_string(), Styles { bold: true, ..Styles::new() }),
            Element::Text("cd".to_string(), Styles::new()),
        ]
    );
}

#[test]
fn highlight_survives_reset() {
    let mut line = Line::from("a\u{1b}[1mbc\u{1b}[0mde");
    line.highlight("bcd");
    assert_eq!(
        line.elements,
        vec![
            Element::Text("a".to_string(), Styles::new()),
            Element::Text("bc".to_string(), Styles { bold: true, highlight: true, ..Styles::new() }),
            Element::Text("d".to_string(), Styles { highlight: true, ..Styles::new() }),
            Element::Text("e".to_string(), Styles::new()),
        ]
    );
}

#[test]
fn empty_search_clears_styling() {
    let mut line = Line::from("foo bar baz bAr");
    line.highlight("bar");
    assert!(highlighted(&line.elements));
    line.highlight("");
    assert!(line.highlights.is_empty());
    assert!(!highlighted(&line.elements));
}

#[test]
fn multibyte_content_links() {
    let line = Line::from("é https://a.io ü");
    assert_eq!(line.links, HashMap::from([(3, 15)]));
    assert_eq!(shown(&line.elements), "é https://a.io ü");
}

#[test]
fn builder_leaves_nothing_pending() {
    let mut line = Line::from("a https://x.io/\u{1b}[1mb\u{1b}[0m c");
    line.highlight("x");
    let mut builder = ci_log::Builder::new();
    builder.elements_from(&line);
    assert_eq!(builder.elements, build_elements(&line));
    assert!(builder.text.is_empty());
    assert!(builder.link_elements.is_empty());
    assert!(builder.end_link_idx.is_none());
    assert!(builder.link_href.is_none());
}

#[test]
fn every_link_holds_text() {
    let line = Line::from("https://a.io https://b.io/\u{1b}[31mx\u{1b}[0m");
    assert_eq!(line.links, HashMap::from([(0, 12), (13, 27)]));
    for e in &line.elements {
        if let Element::Link(_, children) = e {
            assert!(!children.is_empty());
        }
    }
}
