//! The render tree of a line: styled text runs and links, built in one
//! forward pass over the content.

use vstd::prelude::*;

use crate::ansi::{events_view, ANSISequence};
use crate::line::Line;
use crate::style::{
    apply_all, lemma_apply_all_concat, lemma_apply_all_highlight, lemma_apply_all_keeps_highlight,
    plain, Styles,
};
use crate::text::{chars_of, push_char, str_byte_len, string_of, utf8_len, width_of, lemma_utf8_len_split};

verus! {

broadcast use vstd::std_specs::hash::group_hash_axioms;

/// A node of the render tree.
#[derive(Debug, PartialEq, Eq)]
pub enum Element {
    /// Text and its style.
    Text(String, Styles),
    /// A link: its target, and the styled text that shows it.
    Link(String, Vec<Element>),
}

/// What an element is, as a mathematical value.
pub enum Node {
    Text(Seq<char>, Styles),
    Link(Seq<char>, Seq<Node>),
}

/// The view of an element inside a link, where only text occurs.
pub open spec fn leaf_view(e: Element) -> Node {
    match e {
        Element::Text(s, st) => Node::Text(s@, st),
        Element::Link(h, _) => Node::Link(h@, Seq::empty()),
    }
}

pub open spec fn node_of(e: Element) -> Node {
    match e {
        Element::Text(s, st) => Node::Text(s@, st),
        Element::Link(h, cs) => Node::Link(h@, cs@.map_values(|c: Element| leaf_view(c))),
    }
}

pub open spec fn nodes_of(v: Seq<Element>) -> Seq<Node> {
    v.map_values(|e: Element| node_of(e))
}

/// What the builder works on: the content and its three annotation layers,
/// each keyed by byte offset.
pub struct Annotated {
    pub content: Seq<char>,
    pub links: Map<usize, usize>,
    pub highlights: Map<usize, usize>,
    pub ansis: Map<usize, Seq<ANSISequence>>,
}

pub open spec fn annotated(line: &Line) -> Annotated {
    Annotated {
        content: line.content@,
        links: line.links@,
        highlights: line.highlights@,
        ansis: events_view(line.ansis@),
    }
}

/// The builder's state between two characters.
pub struct BuildState {
    /// Finished top-level nodes.
    pub out: Seq<Node>,
    /// Finished nodes of the open link.
    pub link_nodes: Seq<Node>,
    /// Text not yet emitted.
    pub text: Seq<char>,
    /// Style of `text`.
    pub styles: Styles,
    /// Where the current highlight ends, if one is open.
    pub end_hl: Option<usize>,
    /// Where the open link ends, if one is open.
    pub end_link: Option<usize>,
    /// Target of the open link, if one is open.
    pub href: Option<Seq<char>>,
}

pub open spec fn initial_state() -> BuildState {
    BuildState {
        out: Seq::empty(),
        link_nodes: Seq::empty(),
        text: Seq::empty(),
        styles: plain(),
        end_hl: None,
        end_link: None,
        href: None,
    }
}

/// Emits the pending text, into the open link if there is one.
pub open spec fn flush_spec(s: BuildState) -> BuildState {
    if s.text.len() == 0 {
        s
    } else if s.end_link is Some {
        BuildState { link_nodes: s.link_nodes.push(Node::Text(s.text, s.styles)), text: Seq::empty(), ..s }
    } else {
        BuildState { out: s.out.push(Node::Text(s.text, s.styles)), text: Seq::empty(), ..s }
    }
}

pub open spec fn href_or_empty(h: Option<Seq<char>>) -> Seq<char> {
    match h {
        Some(t) => t,
        None => Seq::empty(),
    }
}

/// Closes the open link.
pub open spec fn end_link_spec(s: BuildState) -> BuildState {
    BuildState {
        out: s.out.push(Node::Link(href_or_empty(s.href), s.link_nodes)),
        link_nodes: Seq::empty(),
        end_link: None,
        href: None,
        ..s
    }
}

/// Byte offset of character `k` of `content`.
pub open spec fn offset(content: Seq<char>, k: int) -> nat {
    utf8_len(content.take(k))
}

/// The first character index from `k` on that starts at or after byte `e`,
/// or the end of the content.
pub open spec fn char_end(content: Seq<char>, k: int, e: usize) -> int
    decreases content.len() - k,
{
    if k >= content.len() || offset(content, k) >= e {
        k
    } else {
        char_end(content, k + 1, e)
    }
}

/// The target of a link that starts at character `k` and ends at byte `e`.
pub open spec fn href_spec(content: Seq<char>, k: int, e: usize) -> Seq<char> {
    content.subrange(k, char_end(content, k, e))
}

/// The state after the link step at character `k`: a link that starts
/// there closes any open one and opens; one that ends there closes.
pub open spec fn link_step(a: Annotated, s: BuildState, k: int) -> BuildState {
    let i = offset(a.content, k) as usize;
    let s1 = if a.links.contains_key(i) {
        let f = flush_spec(s);
        let g = if f.end_link is Some { end_link_spec(f) } else { f };
        BuildState { end_link: Some(a.links[i]), href: Some(href_spec(a.content, k, a.links[i])), ..g }
    } else {
        s
    };
    if s1.end_link == Some(i) {
        end_link_spec(flush_spec(s1))
    } else {
        s1
    }
}

/// The open highlight's end after character `k`'s highlight step.
pub open spec fn end_hl_after(a: Annotated, s: BuildState, k: int) -> Option<usize> {
    let i = offset(a.content, k) as usize;
    let e = if a.highlights.contains_key(i) { Some(a.highlights[i]) } else { s.end_hl };
    if e == Some(i) { None } else { e }
}

/// The style of character `k`, from the style before it.
pub open spec fn styles_at(a: Annotated, s: BuildState, k: int) -> Styles {
    let i = offset(a.content, k) as usize;
    let h1 = if a.highlights.contains_key(i) { Styles { highlight: true, ..s.styles } } else { s.styles };
    let e = if a.highlights.contains_key(i) { Some(a.highlights[i]) } else { s.end_hl };
    let h2 = if e == Some(i) { Styles { highlight: false, ..h1 } } else { h1 };
    if a.ansis.contains_key(i) { apply_all(h2, a.ansis[i]) } else { h2 }
}

/// The builder's step over character `k`.
pub open spec fn step(a: Annotated, s: BuildState, k: int) -> BuildState {
    let s2 = link_step(a, s, k);
    let ns = styles_at(a, s2, k);
    let s3 = BuildState { end_hl: end_hl_after(a, s2, k), ..s2 };
    let s4 = if ns != s3.styles { BuildState { styles: ns, ..flush_spec(s3) } } else { s3 };
    BuildState { text: s4.text.push(a.content[k]), ..s4 }
}

/// The state after the first `k` characters, from state `s0`.
pub open spec fn run(a: Annotated, s0: BuildState, k: int) -> BuildState
    decreases k,
{
    if k <= 0 {
        s0
    } else {
        step(a, run(a, s0, k - 1), k - 1)
    }
}

/// The state after the last character: pending text emitted, an open link
/// closed.
pub open spec fn finish(s: BuildState) -> BuildState {
    let f = flush_spec(s);
    if f.end_link is Some { end_link_spec(f) } else { f }
}

/// The render tree of annotated content.
pub open spec fn build_spec(a: Annotated) -> Seq<Node> {
    finish(run(a, initial_state(), a.content.len() as int)).out
}

/// The text of the text nodes of `ns`, in order.
pub open spec fn leaf_texts(ns: Seq<Node>) -> Seq<char>
    decreases ns.len(),
{
    if ns.len() == 0 {
        Seq::empty()
    } else {
        leaf_texts(ns.drop_last()) + match ns.last() {
            Node::Text(s, _) => s,
            Node::Link(_, _) => Seq::empty(),
        }
    }
}

/// The text that the nodes `ns` show, in order: that of each text node and
/// of the text inside each link.
pub open spec fn texts(ns: Seq<Node>) -> Seq<char>
    decreases ns.len(),
{
    if ns.len() == 0 {
        Seq::empty()
    } else {
        texts(ns.drop_last()) + match ns.last() {
            Node::Text(s, _) => s,
            Node::Link(_, cs) => leaf_texts(cs),
        }
    }
}

/// The text that a build state has taken in.
pub open spec fn shown(s: BuildState) -> Seq<char> {
    texts(s.out) + leaf_texts(s.link_nodes) + s.text
}

pub open spec fn link_nodes_only_open(s: BuildState) -> bool {
    s.end_link is None ==> s.link_nodes.len() == 0
}

proof fn lemma_flush_shown(s: BuildState)
    requires
        link_nodes_only_open(s),
    ensures
        shown(flush_spec(s)) == shown(s),
        link_nodes_only_open(flush_spec(s)),
        flush_spec(s).text.len() == 0,
{
    let f = flush_spec(s);
    if s.text.len() > 0 {
        let n = Node::Text(s.text, s.styles);
        if s.end_link is Some {
            assert(s.link_nodes.push(n).drop_last() =~= s.link_nodes);
            assert(leaf_texts(s.link_nodes.push(n)) == leaf_texts(s.link_nodes) + s.text);
            assert(shown(f) =~= shown(s));
        } else {
            assert(s.out.push(n).drop_last() =~= s.out);
            assert(texts(s.out.push(n)) == texts(s.out) + s.text);
            assert(leaf_texts(s.link_nodes) =~= Seq::<char>::empty());
            assert(shown(f) =~= shown(s));
        }
    }
}

proof fn lemma_end_link_shown(s: BuildState)
    requires
        s.text.len() == 0,
    ensures
        shown(end_link_spec(s)) == shown(s),
        link_nodes_only_open(end_link_spec(s)),
{
    let n = Node::Link(href_or_empty(s.href), s.link_nodes);
    assert(s.out.push(n).drop_last() =~= s.out);
    assert(texts(s.out.push(n)) == texts(s.out) + leaf_texts(s.link_nodes));
    assert(leaf_texts(Seq::<Node>::empty()) =~= Seq::<char>::empty());
    assert(shown(end_link_spec(s)) =~= shown(s));
}

proof fn lemma_step_shown(a: Annotated, s: BuildState, k: int)
    requires
        0 <= k < a.content.len(),
        link_nodes_only_open(s),
    ensures
        shown(step(a, s, k)) == shown(s).push(a.content[k]),
        link_nodes_only_open(step(a, s, k)),
{
    let i = offset(a.content, k) as usize;
    let s1 = if a.links.contains_key(i) {
        let f = flush_spec(s);
        lemma_flush_shown(s);
        let g = if f.end_link is Some {
            lemma_end_link_shown(f);
            end_link_spec(f)
        } else {
            f
        };
        assert(shown(g) == shown(s));
        let h = BuildState { end_link: Some(a.links[i]), href: Some(href_spec(a.content, k, a.links[i])), ..g };
        assert(g.link_nodes.len() == 0);
        assert(shown(h) == shown(g));
        h
    } else {
        s
    };
    assert(shown(s1) == shown(s));
    let s2 = link_step(a, s, k);
    if s1.end_link == Some(i) {
        lemma_flush_shown(s1);
        lemma_end_link_shown(flush_spec(s1));
    }
    assert(shown(s2) == shown(s));
    let ns = styles_at(a, s2, k);
    let s3 = BuildState { end_hl: end_hl_after(a, s2, k), ..s2 };
    assert(shown(s3) == shown(s2));
    let s4 = if ns != s3.styles {
        lemma_flush_shown(s3);
        BuildState { styles: ns, ..flush_spec(s3) }
    } else {
        s3
    };
    assert(shown(s4) == shown(s3));
    assert(shown(step(a, s, k)) =~= shown(s4).push(a.content[k]));
}

proof fn lemma_run_shown(a: Annotated, k: int)
    requires
        0 <= k <= a.content.len(),
    ensures
        shown(run(a, initial_state(), k)) == a.content.take(k),
        link_nodes_only_open(run(a, initial_state(), k)),
    decreases k,
{
    if k == 0 {
        assert(shown(initial_state()) =~= Seq::<char>::empty());
        assert(a.content.take(0) =~= Seq::<char>::empty());
    } else {
        lemma_run_shown(a, k - 1);
        lemma_step_shown(a, run(a, initial_state(), k - 1), k - 1);
        assert(a.content.take(k - 1).push(a.content[k - 1]) =~= a.content.take(k));
    }
}

/// The render tree shows the content exactly: the text of its text nodes
/// and of the text inside its links, in order, is the content.
pub proof fn elements_show_content(a: Annotated)
    ensures
        texts(build_spec(a)) == a.content,
{
    let n = a.content.len() as int;
    lemma_run_shown(a, n);
    let s = run(a, initial_state(), n);
    lemma_flush_shown(s);
    let f = flush_spec(s);
    if f.end_link is Some {
        lemma_end_link_shown(f);
    }
    let e = finish(s);
    assert(e.link_nodes.len() == 0 && e.text.len() == 0);
    assert(leaf_texts(e.link_nodes) =~= Seq::<char>::empty());
    assert(shown(e) =~= texts(e.out));
    assert(a.content.take(n) =~= a.content);
}

/// A node inside a link that is not highlighted.
pub open spec fn leaf_unlit(n: Node) -> bool {
    match n {
        Node::Text(_, st) => !st.highlight,
        Node::Link(_, _) => true,
    }
}

/// No text of `n` is highlighted.
pub open spec fn unlit(n: Node) -> bool {
    match n {
        Node::Text(_, st) => !st.highlight,
        Node::Link(_, cs) => forall|j: int| 0 <= j < cs.len() ==> leaf_unlit(#[trigger] cs[j]),
    }
}

pub open spec fn state_unlit(s: BuildState) -> bool {
    &&& !s.styles.highlight
    &&& forall|j: int| 0 <= j < s.out.len() ==> unlit(#[trigger] s.out[j])
    &&& forall|j: int| 0 <= j < s.link_nodes.len() ==> leaf_unlit(#[trigger] s.link_nodes[j])
}

proof fn lemma_flush_unlit(s: BuildState)
    requires
        state_unlit(s),
    ensures
        state_unlit(flush_spec(s)),
{
    let f = flush_spec(s);
    assert forall|j: int| 0 <= j < f.out.len() implies unlit(#[trigger] f.out[j]) by {
        if j < s.out.len() {
            assert(f.out[j] == s.out[j]);
        }
    }
    assert forall|j: int| 0 <= j < f.link_nodes.len() implies leaf_unlit(#[trigger] f.link_nodes[j]) by {
        if j < s.link_nodes.len() {
            assert(f.link_nodes[j] == s.link_nodes[j]);
        }
    }
}

proof fn lemma_end_link_unlit(s: BuildState)
    requires
        state_unlit(s),
    ensures
        state_unlit(end_link_spec(s)),
{
    let f = end_link_spec(s);
    assert forall|j: int| 0 <= j < f.out.len() implies unlit(#[trigger] f.out[j]) by {
        if j < s.out.len() {
            assert(f.out[j] == s.out[j]);
        }
    }
}

proof fn lemma_run_unlit(a: Annotated, k: int)
    requires
        0 <= k <= a.content.len(),
        a.highlights == Map::<usize, usize>::empty(),
    ensures
        state_unlit(run(a, initial_state(), k)),
    decreases k,
{
    if k > 0 {
        lemma_run_unlit(a, k - 1);
        let s = run(a, initial_state(), k - 1);
        let i = offset(a.content, k - 1) as usize;
        if a.links.contains_key(i) {
            lemma_flush_unlit(s);
            if flush_spec(s).end_link is Some {
                lemma_end_link_unlit(flush_spec(s));
            }
        }
        let s1 = if a.links.contains_key(i) {
            let f = flush_spec(s);
            let g = if f.end_link is Some { end_link_spec(f) } else { f };
            BuildState { end_link: Some(a.links[i]), href: Some(href_spec(a.content, k - 1, a.links[i])), ..g }
        } else {
            s
        };
        if s1.end_link == Some(i) {
            lemma_flush_unlit(s1);
            lemma_end_link_unlit(flush_spec(s1));
        }
        let s2 = link_step(a, s, k - 1);
        assert(state_unlit(s2));
        let h2 = s2.styles;
        if a.ansis.contains_key(i) {
            lemma_apply_all_keeps_highlight(h2, a.ansis[i]);
        }
        let ns = styles_at(a, s2, k - 1);
        assert(!ns.highlight);
        let s3 = BuildState { end_hl: end_hl_after(a, s2, k - 1), ..s2 };
        if ns != s3.styles {
            lemma_flush_unlit(s3);
        }
    }
}

/// Where a line has no highlight spans, no text of its render tree is
/// highlighted.
pub proof fn no_spans_no_highlight(a: Annotated)
    requires
        a.highlights == Map::<usize, usize>::empty(),
    ensures
        forall|j: int| 0 <= j < build_spec(a).len() ==> unlit(#[trigger] build_spec(a)[j]),
{
    let n = a.content.len() as int;
    lemma_run_unlit(a, n);
    let s = run(a, initial_state(), n);
    lemma_flush_unlit(s);
    if flush_spec(s).end_link is Some {
        lemma_end_link_unlit(flush_spec(s));
    }
}

/// Whether `a` and `b` are text nodes of one style.
pub open spec fn same_style_texts(a: Node, b: Node) -> bool {
    match a {
        Node::Text(_, s1) => match b {
            Node::Text(_, s2) => s1 == s2,
            Node::Link(_, _) => false,
        },
        Node::Link(_, _) => false,
    }
}

/// No two neighbouring nodes of `ns` are text nodes of one style.
pub open spec fn coalesced(ns: Seq<Node>) -> bool {
    forall|i: int| 0 <= i < ns.len() - 1 ==> !same_style_texts(#[trigger] ns[i], ns[i + 1])
}

/// `ns` is coalesced, and so are the nodes inside each of its links.
pub open spec fn tree_coalesced(ns: Seq<Node>) -> bool {
    &&& coalesced(ns)
    &&& forall|i: int|
        0 <= i < ns.len() ==> match #[trigger] ns[i] {
            Node::Link(_, cs) => coalesced(cs),
            Node::Text(_, _) => true,
        }
}

/// The nodes that pending text is emitted into.
pub open spec fn target(s: BuildState) -> Seq<Node> {
    if s.end_link is Some { s.link_nodes } else { s.out }
}

pub open spec fn core_coalesced(s: BuildState) -> bool {
    &&& tree_coalesced(s.out)
    &&& coalesced(s.link_nodes)
    &&& link_nodes_only_open(s)
}

/// The last emitted node, if text, differs in style from the pending text.
pub open spec fn last_differs(s: BuildState) -> bool {
    target(s).len() > 0 ==> match target(s).last() {
        Node::Text(_, st) => st != s.styles,
        Node::Link(_, _) => true,
    }
}

/// Without pending text, the last emitted node is no text.
pub open spec fn quiet(s: BuildState) -> bool {
    s.text.len() == 0 ==> target(s).len() == 0 || target(s).last() is Link
}

proof fn lemma_push_coalesced(ns: Seq<Node>, n: Node)
    requires
        coalesced(ns),
        ns.len() > 0 ==> !same_style_texts(ns.last(), n),
    ensures
        coalesced(ns.push(n)),
{
    let m = ns.push(n);
    assert forall|i: int| 0 <= i < m.len() - 1 implies !same_style_texts(#[trigger] m[i], m[i + 1]) by {
        if i < ns.len() - 1 {
            assert(m[i] == ns[i] && m[i + 1] == ns[i + 1]);
        } else {
            assert(m[i] == ns.last() && m[i + 1] == n);
        }
    }
}

proof fn lemma_flush_coalesced(s: BuildState)
    requires
        core_coalesced(s),
        last_differs(s),
    ensures
        core_coalesced(flush_spec(s)),
        s.text.len() > 0 ==> target(flush_spec(s)).last() == Node::Text(s.text, s.styles)
            && target(flush_spec(s)).len() > 0,
        s.text.len() == 0 ==> flush_spec(s) == s,
        flush_spec(s).text.len() == 0,
{
    if s.text.len() > 0 {
        let n = Node::Text(s.text, s.styles);
        let t = target(s);
        if t.len() > 0 {
            match t.last() {
                Node::Text(_, st) => assert(st != s.styles),
                Node::Link(_, _) => {},
            }
        }
        lemma_push_coalesced(t, n);
        if s.end_link is None {
            let o = s.out.push(n);
            assert forall|i: int| 0 <= i < o.len() implies match #[trigger] o[i] {
                Node::Link(_, cs) => coalesced(cs),
                Node::Text(_, _) => true,
            } by {
                if i < s.out.len() {
                    assert(o[i] == s.out[i]);
                }
            }
        }
    }
}

proof fn lemma_end_link_coalesced(s: BuildState)
    requires
        core_coalesced(s),
    ensures
        core_coalesced(end_link_spec(s)),
        end_link_spec(s).out.last() is Link,
{
    let n = Node::Link(href_or_empty(s.href), s.link_nodes);
    lemma_push_coalesced(s.out, n);
    let o = s.out.push(n);
    assert forall|i: int| 0 <= i < o.len() implies match #[trigger] o[i] {
        Node::Link(_, cs) => coalesced(cs),
        Node::Text(_, _) => true,
    } by {
        if i < s.out.len() {
            assert(o[i] == s.out[i]);
        }
    }
    assert(coalesced(Seq::<Node>::empty()));
}

proof fn lemma_step_coalesced(a: Annotated, s: BuildState, k: int)
    requires
        0 <= k < a.content.len(),
        core_coalesced(s),
        last_differs(s),
        quiet(s),
    ensures
        core_coalesced(step(a, s, k)),
        last_differs(step(a, s, k)),
        quiet(step(a, s, k)),
{
    let i = offset(a.content, k) as usize;
    let s1 = if a.links.contains_key(i) {
        let f = flush_spec(s);
        lemma_flush_coalesced(s);
        let g = if f.end_link is Some {
            lemma_end_link_coalesced(f);
            end_link_spec(f)
        } else {
            f
        };
        BuildState { end_link: Some(a.links[i]), href: Some(href_spec(a.content, k, a.links[i])), ..g }
    } else {
        s
    };
    assert(core_coalesced(s1) && last_differs(s1) && quiet(s1));
    let s2 = link_step(a, s, k);
    if s1.end_link == Some(i) {
        lemma_flush_coalesced(s1);
        lemma_end_link_coalesced(flush_spec(s1));
    }
    assert(core_coalesced(s2) && last_differs(s2) && quiet(s2));
    let ns = styles_at(a, s2, k);
    let s3 = BuildState { end_hl: end_hl_after(a, s2, k), ..s2 };
    if ns != s3.styles {
        lemma_flush_coalesced(s3);
    }
}

proof fn lemma_run_coalesced(a: Annotated, k: int)
    requires
        0 <= k <= a.content.len(),
    ensures
        core_coalesced(run(a, initial_state(), k)),
        last_differs(run(a, initial_state(), k)),
        quiet(run(a, initial_state(), k)),
    decreases k,
{
    if k > 0 {
        lemma_run_coalesced(a, k - 1);
        lemma_step_coalesced(a, run(a, initial_state(), k - 1), k - 1);
    }
}

/// No two neighbouring text nodes of the render tree, at the top or inside
/// one link, share a style: a change of style is what splits text.
pub proof fn elements_coalesced(a: Annotated)
    ensures
        tree_coalesced(build_spec(a)),
{
    let n = a.content.len() as int;
    lemma_run_coalesced(a, n);
    let s = run(a, initial_state(), n);
    lemma_flush_coalesced(s);
    if flush_spec(s).end_link is Some {
        lemma_end_link_coalesced(flush_spec(s));
    }
}

/// Every link of `ns` holds at least one node.
pub open spec fn links_filled(ns: Seq<Node>) -> bool {
    forall|j: int|
        0 <= j < ns.len() ==> match #[trigger] ns[j] {
            Node::Link(_, cs) => cs.len() > 0,
            Node::Text(_, _) => true,
        }
}

/// Every link span ends after it starts.
pub open spec fn spans_nonempty(links: Map<usize, usize>) -> bool {
    forall|i: usize| #[trigger] links.contains_key(i) ==> i < links[i]
}

pub open spec fn open_link_filled(s: BuildState) -> bool {
    s.end_link is Some ==> s.text.len() > 0 || s.link_nodes.len() > 0
}

proof fn lemma_flush_filled(s: BuildState)
    requires
        links_filled(s.out),
        open_link_filled(s),
    ensures
        links_filled(flush_spec(s).out),
        flush_spec(s).end_link is Some ==> flush_spec(s).link_nodes.len() > 0 || s.text.len() == 0
            && s.link_nodes.len() > 0,
        flush_spec(s).end_link == s.end_link,
{
    let f = flush_spec(s);
    assert forall|j: int| 0 <= j < f.out.len() implies match #[trigger] f.out[j] {
        Node::Link(_, cs) => cs.len() > 0,
        Node::Text(_, _) => true,
    } by {
        if j < s.out.len() {
            assert(f.out[j] == s.out[j]);
        }
    }
}

proof fn lemma_end_link_filled(s: BuildState)
    requires
        links_filled(s.out),
        s.link_nodes.len() > 0,
    ensures
        links_filled(end_link_spec(s).out),
{
    let f = end_link_spec(s);
    assert forall|j: int| 0 <= j < f.out.len() implies match #[trigger] f.out[j] {
        Node::Link(_, cs) => cs.len() > 0,
        Node::Text(_, _) => true,
    } by {
        if j < s.out.len() {
            assert(f.out[j] == s.out[j]);
        }
    }
}

proof fn lemma_run_filled(a: Annotated, k: int)
    requires
        0 <= k <= a.content.len(),
        spans_nonempty(a.links),
    ensures
        links_filled(run(a, initial_state(), k).out),
        open_link_filled(run(a, initial_state(), k)),
    decreases k,
{
    if k > 0 {
        lemma_run_filled(a, k - 1);
        let s = run(a, initial_state(), k - 1);
        let i = offset(a.content, k - 1) as usize;
        let s1 = if a.links.contains_key(i) {
            let f = flush_spec(s);
            lemma_flush_filled(s);
            let g = if f.end_link is Some {
                lemma_end_link_filled(f);
                end_link_spec(f)
            } else {
                f
            };
            BuildState { end_link: Some(a.links[i]), href: Some(href_spec(a.content, k - 1, a.links[i])), ..g }
        } else {
            s
        };
        assert(links_filled(s1.out));
        if s1.end_link == Some(i) {
            assert(!a.links.contains_key(i));
            lemma_flush_filled(s1);
            lemma_end_link_filled(flush_spec(s1));
        }
        let s2 = link_step(a, s, k - 1);
        assert(links_filled(s2.out));
        let ns = styles_at(a, s2, k - 1);
        let s3 = BuildState { end_hl: end_hl_after(a, s2, k - 1), ..s2 };
        if ns != s3.styles {
            if s3.end_link is Some && s3.text.len() == 0 {
                assert(flush_spec(s3) == s3);
            }
            assert forall|j: int| 0 <= j < flush_spec(s3).out.len() implies match #[trigger] flush_spec(
                s3,
            ).out[j] {
                Node::Link(_, cs) => cs.len() > 0,
                Node::Text(_, _) => true,
            } by {
                if j < s3.out.len() {
                    assert(flush_spec(s3).out[j] == s3.out[j]);
                }
            }
        }
    }
}

/// Where every link span ends after it starts, every link of the render
/// tree holds some text.
pub proof fn links_hold_text(a: Annotated)
    requires
        spans_nonempty(a.links),
    ensures
        links_filled(build_spec(a)),
{
    let n = a.content.len() as int;
    lemma_run_filled(a, n);
    let s = run(a, initial_state(), n);
    lemma_flush_filled(s);
    let f = flush_spec(s);
    if f.end_link is Some {
        lemma_end_link_filled(f);
    }
}

/// The style events at the offsets of the first `k` characters, in order.
pub open spec fn events_before(a: Annotated, k: int) -> Seq<ANSISequence>
    decreases k,
{
    if k <= 0 {
        Seq::empty()
    } else {
        let i = offset(a.content, k - 1) as usize;
        events_before(a, k - 1) + if a.ansis.contains_key(i) { a.ansis[i] } else { Seq::empty() }
    }
}

/// `st` without its highlight.
pub open spec fn ansi_part(st: Styles) -> Styles {
    Styles { highlight: false, ..st }
}

/// The style that the builder gives character `k - 1`, highlight aside, is
/// every style event up to and including its offset, applied in order to
/// the plain style.
pub proof fn style_is_event_fold(a: Annotated, k: int)
    requires
        0 <= k <= a.content.len(),
    ensures
        ansi_part(run(a, initial_state(), k).styles) == apply_all(plain(), events_before(a, k)),
    decreases k,
{
    if k > 0 {
        style_is_event_fold(a, k - 1);
        let s = run(a, initial_state(), k - 1);
        let i = offset(a.content, k - 1) as usize;
        let s2 = link_step(a, s, k - 1);
        assert(s2.styles == s.styles);
        let h1 = if a.highlights.contains_key(i) { Styles { highlight: true, ..s2.styles } } else { s2.styles };
        let e = if a.highlights.contains_key(i) { Some(a.highlights[i]) } else { s2.end_hl };
        let h2 = if e == Some(i) { Styles { highlight: false, ..h1 } } else { h1 };
        assert(ansi_part(h2) == ansi_part(s.styles));
        let evs = if a.ansis.contains_key(i) { a.ansis[i] } else { Seq::<ANSISequence>::empty() };
        assert(styles_at(a, s2, k - 1) == apply_all(h2, evs));
        lemma_apply_all_highlight(h2, false, evs);
        assert(ansi_part(h2) == (Styles { highlight: false, ..h2 }));
        lemma_apply_all_concat(plain(), events_before(a, k - 1), evs);
        assert(run(a, initial_state(), k).styles == styles_at(a, s2, k - 1));
    }
}

/// Builds the render tree of a line in one pass over its characters.
pub struct Builder {
    /// Finished top-level elements.
    pub elements: Vec<Element>,
    /// Finished elements of the open link.
    pub link_elements: Vec<Element>,
    /// Text not yet emitted.
    pub text: String,
    /// Style of `text`.
    pub styles: Styles,
    /// Where the current highlight ends, if one is open.
    pub end_highlight_idx: Option<usize>,
    /// Where the open link ends, if one is open.
    pub end_link_idx: Option<usize>,
    /// Target of the open link, if one is open.
    pub link_href: Option<String>,
}

impl Builder {
    pub open spec fn state(&self) -> BuildState {
        BuildState {
            out: nodes_of(self.elements@),
            link_nodes: nodes_of(self.link_elements@),
            text: self.text@,
            styles: self.styles,
            end_hl: self.end_highlight_idx,
            end_link: self.end_link_idx,
            href: match self.link_href {
                Some(h) => Some(h@),
                None => None,
            },
        }
    }

    /// Elements inside a link are text.
    pub open spec fn wf(&self) -> bool {
        &&& forall|j: int| 0 <= j < self.link_elements@.len() ==> #[trigger] self.link_elements@[j] is Text
        &&& self.end_link_idx is None ==> self.link_elements@.len() == 0
        &&& (self.end_link_idx is None <==> self.link_href is None)
    }

    pub fn new() -> (r: Self)
        ensures
            r.state() == initial_state(),
            r.wf(),
    {
        let r = Builder {
            elements: Vec::new(),
            link_elements: Vec::new(),
            text: String::new(),
            styles: Styles::new(),
            end_highlight_idx: None,
            end_link_idx: None,
            link_href: None,
        };
        assert(nodes_of(r.elements@) =~= Seq::<Node>::empty());
        assert(nodes_of(r.link_elements@) =~= Seq::<Node>::empty());
        r
    }

    /// Emits the pending text as an element, into the open link if there
    /// is one.
    fn flush(&mut self)
        requires
            old(self).wf(),
        ensures
            final(self).state() == flush_spec(old(self).state()),
            final(self).wf(),
    {
        if self.text.as_str().is_empty() {
            return;
        }
        let mut text = String::new();
        core::mem::swap(&mut text, &mut self.text);
        let element = Element::Text(text, self.styles);
        if self.is_in_link() {
            self.link_elements.push(element);
            assert(nodes_of(self.link_elements@) =~= nodes_of(old(self).link_elements@).push(
                node_of(element),
            ));
        } else {
            self.elements.push(element);
            assert(nodes_of(self.elements@) =~= nodes_of(old(self).elements@).push(
                node_of(element),
            ));
        }
    }

    fn is_in_link(&self) -> (r: bool)
        ensures
            r == self.end_link_idx is Some,
    {
        self.end_link_idx.is_some()
    }

    fn start_link(&mut self, end_idx: usize, href: String)
        requires
            old(self).wf(),
        ensures
            final(self).wf(),
            final(self).state() == (BuildState {
                end_link: Some(end_idx),
                href: Some(href@),
                ..old(self).state()
            }),
            final(self).elements == old(self).elements,
            final(self).link_elements == old(self).link_elements,
    {
        self.end_link_idx = Some(end_idx);
        self.link_href = Some(href);
    }

    /// Adds the elements of `line` to those built so far.
    pub fn elements_from(&mut self, line: &Line)
        requires
            old(self).wf(),
        ensures
            final(self).wf(),
            final(self).state() == finish(
                run(annotated(line), old(self).state(), line.content@.len() as int),
            ),
            final(self).text@.len() == 0,
            final(self).link_elements@.len() == 0,
            final(self).end_link_idx is None,
            final(self).link_href is None,
    {
        let ghost a = annotated(line);
        let total = str_byte_len(line.content.as_str());
        let cs = chars_of(line.content.as_str());
        let n = cs.len();
        let mut pos: usize = 0;
        let mut k: usize = 0;
        let ghost s0 = self.state();
        assert(cs@.take(0) =~= Seq::<char>::empty());
        while k < n
            invariant
                n == cs@.len(),
                cs@ == a.content,
                a == annotated(line),
                total == utf8_len(cs@),
                k <= n,
                pos == offset(cs@, k as int),
                pos <= total,
                self.wf(),
                self.state() == run(a, s0, k as int),
            decreases n - k,
        {
            let c = cs[k];
            let i = pos;
            proof {
                lemma_utf8_len_split(cs@, k as int, k + 1);
                assert(cs@.subrange(k as int, k + 1) =~= seq![c]);
                crate::text::lemma_utf8_len_one(c);
                crate::text::lemma_utf8_len_prefix(cs@, k + 1, n as int);
            }
            let ghost st = self.state();
            match line.links.get(&i) {
                Some(end) => {
                    self.flush();
                    if self.is_in_link() {
                        self.end_link();
                    }
                    let href = href_from(&cs, k, pos, *end);
                    self.start_link(*end, href);
                },
                None => {},
            }
            match self.end_link_idx {
                Some(end) => {
                    if i == end {
                        self.flush();
                        self.end_link();
                    }
                },
                None => {},
            }
            assert(self.state() == link_step(a, st, k as int));
            let ghost s2 = self.state();
            let mut new_styles = self.styles;
            match line.highlights.get(&i) {
                Some(end) => {
                    new_styles.highlight = true;
                    self.end_highlight_idx = Some(*end);
                },
                None => {},
            }
            match self.end_highlight_idx {
                Some(end) => {
                    if i == end {
                        new_styles.highlight = false;
                        self.end_highlight_idx = None;
                    }
                },
                None => {},
            }
            match line.ansis.get(&i) {
                Some(v) => {
                    new_styles.apply_ansis(v);
                },
                None => {},
            }
            assert(new_styles == styles_at(a, s2, k as int));
            assert(self.state() == (BuildState { end_hl: end_hl_after(a, s2, k as int), ..s2 }));
            if new_styles != self.styles {
                self.flush();
                self.styles = new_styles;
            }
            push_char(&mut self.text, c);
            pos = pos + width_of(c);
            k = k + 1;
        }
        self.flush();
        if self.is_in_link() {
            self.end_link();
        }
    }

    /// Closes the open link: its elements become one link element.
    fn end_link(&mut self)
        requires
            old(self).wf(),
        ensures
            final(self).state() == end_link_spec(old(self).state()),
            final(self).wf(),
    {
        let href = match self.link_href.take() {
            Some(h) => h,
            None => String::new(),
        };
        let mut children: Vec<Element> = Vec::new();
        core::mem::swap(&mut children, &mut self.link_elements);
        proof {
            assert forall|j: int| 0 <= j < children@.len() implies leaf_view(#[trigger] children@[j])
                == node_of(children@[j]) by {
                assert(children@[j] is Text);
            }
            assert(children@.map_values(|c: Element| leaf_view(c)) =~= nodes_of(children@));
        }
        let link = Element::Link(href, children);
        self.elements.push(link);
        assert(nodes_of(self.elements@) =~= nodes_of(old(self).elements@).push(node_of(link)));
        assert(nodes_of(self.link_elements@) =~= Seq::<Node>::empty());
        self.end_link_idx = None;
    }
}

/// The target of a link that starts at character `k` (byte `pos`) and ends
/// at byte `end`: the characters from `k` that start before `end`.
fn href_from(cs: &Vec<char>, k: usize, pos: usize, end: usize) -> (r: String)
    requires
        k <= cs@.len(),
        pos == offset(cs@, k as int),
        utf8_len(cs@) <= usize::MAX,
    ensures
        r@ == href_spec(cs@, k as int, end),
{
    let mut m = k;
    let mut p = pos;
    while m < cs.len() && p < end
        invariant
            k <= m <= cs@.len(),
            p == offset(cs@, m as int),
            utf8_len(cs@) <= usize::MAX,
            char_end(cs@, k as int, end) == char_end(cs@, m as int, end),
        decreases cs@.len() - m,
    {
        proof {
            lemma_utf8_len_split(cs@, m as int, m + 1);
            assert(cs@.subrange(m as int, m + 1) =~= seq![cs@[m as int]]);
            crate::text::lemma_utf8_len_one(cs@[m as int]);
            crate::text::lemma_utf8_len_prefix(cs@, m + 1, cs@.len() as int);
        }
        p = p + width_of(cs[m]);
        m = m + 1;
    }
    string_of(cs, k, m)
}

/// The render tree of `line`.
pub fn build_elements(line: &Line) -> (r: Vec<Element>)
    ensures
        nodes_of(r@) == build_spec(annotated(line)),
{
    let mut builder = Builder::new();
    builder.elements_from(line);
    builder.elements
}

} // verus!
