//! One log line: its timestamp, structural command, scrubbed content, and
//! the link, style and highlight annotations over that content.

use std::collections::HashMap;
use vstd::prelude::*;

use crate::ansi::{decode, events_view, extract_ansi, ANSISequence};
use crate::element::{
    annotated, build_elements, build_spec, char_end, no_spans_no_highlight, nodes_of, offset, unlit,
    Element,
};
use crate::text::{
    chars_of, lemma_utf8_len_one, lemma_utf8_len_prefix, lemma_utf8_len_split, parse_i64,
    parse_i64_spec, str_byte_len, string_of, utf8_len, width_of,
};

verus! {

broadcast use vstd::std_specs::hash::group_hash_axioms;

/// A workflow command that a line may start with, as `##[name]` or `[name]`.
#[derive(Clone, Copy, Debug, PartialEq, Eq, Hash, Structural)]
pub enum Command {
    Command,
    Debug,
    Error,
    Info,
    Notice,
    Verbose,
    Warning,
    Group,
    EndGroup,
}

/// One line of a log.
#[derive(Debug)]
pub struct Line {
    /// Milliseconds since the Unix epoch.
    pub ts: i64,
    /// 1-based position in the session.
    pub number: usize,
    pub cmd: Option<Command>,
    /// The text with timestamp, command and escape sequences taken out.
    pub content: String,
    /// Byte offset where a link starts, to the offset where it ends.
    pub links: HashMap<usize, usize>,
    /// Byte offset, to the style events that take effect there.
    pub ansis: HashMap<usize, Vec<ANSISequence>>,
    /// Byte offset where a search match starts, to the offset where it ends.
    pub highlights: HashMap<usize, usize>,
    /// Present where this line opened a group.
    pub group: Option<Group>,
    /// The render tree of the line.
    pub elements: Vec<Element>,
}

/// The lines of a group, and whether it has been closed.
#[derive(Debug)]
pub struct Group {
    pub children: Vec<Line>,
    pub ended: bool,
}

/// First index from `from` on where `s` holds `c`, or the length of `s`.
pub open spec fn find_char(s: Seq<char>, c: char, from: int) -> int
    decreases s.len() - from,
{
    if from >= s.len() {
        s.len() as int
    } else if s[from] == c {
        from
    } else {
        find_char(s, c, from + 1)
    }
}

/// Finds `c` in `cs` from index `from` on.
pub fn find_char_in(cs: &Vec<char>, c: char, from: usize) -> (r: usize)
    requires
        from <= cs@.len(),
    ensures
        r == find_char(cs@, c, from as int),
        from <= r <= cs@.len(),
{
    let mut j = from;
    while j < cs.len() && cs[j] != c
        invariant
            from <= j <= cs@.len(),
            find_char(cs@, c, from as int) == find_char(cs@, c, j as int),
        decreases cs@.len() - j,
    {
        j = j + 1;
    }
    j
}

/// `x + y`, or `usize::MAX` where that is larger.
pub open spec fn sat_add(x: nat, y: nat) -> usize {
    if x + y <= usize::MAX { (x + y) as usize } else { usize::MAX }
}

/// Whether `n` occurs in `h` at index `p`.
pub open spec fn occurs_at(h: Seq<char>, n: Seq<char>, p: int) -> bool {
    0 <= p && p + n.len() <= h.len() && h.subrange(p, p + n.len()) == n
}

/// The occurrences of `n` in `h` from index `p` on, left to right and not
/// overlapping, added to `acc`: each as its byte offset in `h`, to that
/// offset plus `len`.
pub open spec fn scan_matches(
    h: Seq<char>,
    n: Seq<char>,
    len: nat,
    p: int,
    acc: Map<usize, usize>,
) -> Map<usize, usize>
    decreases h.len() + 1 - p,
{
    if p < 0 || p > h.len() {
        acc
    } else if occurs_at(h, n, p) {
        let o = utf8_len(h.take(p));
        let step = if n.len() == 0 { 1 } else { n.len() as int };
        scan_matches(h, n, len, p + step, acc.insert(o as usize, sat_add(o, len)))
    } else {
        scan_matches(h, n, len, p + 1, acc)
    }
}

/// The highlight spans of `n` in `h`, each `len` bytes long.
pub open spec fn match_spans(h: Seq<char>, n: Seq<char>, len: nat) -> Map<usize, usize> {
    scan_matches(h, n, len, 0, Map::empty())
}

/// Whether `n` occurs in `h` at index `p`.
fn occurs_in(h: &Vec<char>, n: &Vec<char>, p: usize) -> (r: bool)
    requires
        p <= h@.len(),
    ensures
        r == occurs_at(h@, n@, p as int),
{
    let hl = h.len();
    if n.len() > hl - p {
        return false;
    }
    let mut k: usize = 0;
    while k < n.len()
        invariant
            hl == h@.len(),
            p <= h@.len(),
            p + n@.len() <= h@.len(),
            k <= n@.len(),
            forall|j: int| 0 <= j < k ==> h@[p + j] == n@[j],
        decreases n@.len() - k,
    {
        assert(p + k < hl);
        if h[p + k] != n[k] {
            assert(h@.subrange(p as int, p + n@.len())[k as int] != n@[k as int]);
            return false;
        }
        k = k + 1;
    }
    assert(h@.subrange(p as int, p + n@.len()) =~= n@);
    true
}

/// The highlight spans of `needle` in `haystack`: for each occurrence, left
/// to right and not overlapping, its byte offset, to that offset plus `len`.
pub fn find_matches(haystack: &str, needle: &str, len: usize) -> (r: HashMap<usize, usize>)
    ensures
        r@ == match_spans(haystack@, needle@, len as nat),
{
    let total = str_byte_len(haystack);
    let h = chars_of(haystack);
    let n = chars_of(needle);
    let mut out: HashMap<usize, usize> = HashMap::new();
    let mut p: usize = 0;
    let mut pos: usize = 0;
    assert(h@.take(0) =~= Seq::<char>::empty());
    while p < h.len()
        invariant
            total == utf8_len(h@),
            p <= h@.len(),
            pos == utf8_len(h@.take(p as int)),
            match_spans(haystack@, needle@, len as nat) == scan_matches(h@, n@, len as nat, p as int, out@),
            h@ == haystack@,
            n@ == needle@,
        decreases h@.len() + 1 - p,
    {
        proof {
            lemma_utf8_len_prefix(h@, p as int, h@.len() as int);
        }
        let step = if occurs_in(&h, &n, p) {
            let end = match pos.checked_add(len) {
                Some(e) => e,
                None => usize::MAX,
            };
            out.insert(pos, end);
            if n.len() == 0 { 1 } else { n.len() }
        } else {
            1
        };
        proof {
            lemma_utf8_len_split(h@, p as int, p + step);
            lemma_utf8_len_prefix(h@, p + step, h@.len() as int);
        }
        pos = pos + byte_len_of(&h, p, p + step);
        p = p + step;
    }
    let ghost out0 = out@;
    if occurs_in(&h, &n, p) {
        let end = match pos.checked_add(len) {
            Some(e) => e,
            None => usize::MAX,
        };
        out.insert(pos, end);
        let ghost step = if n@.len() == 0 { 1 } else { n@.len() as int };
        assert(scan_matches(h@, n@, len as nat, p + step, out@) == out@);
    } else {
        assert(scan_matches(h@, n@, len as nat, p + 1, out@) == out@);
    }
    out
}

/// Byte length of `cs[a..b]`.
fn byte_len_of(cs: &Vec<char>, a: usize, b: usize) -> (r: usize)
    requires
        a <= b <= cs@.len(),
        utf8_len(cs@) <= usize::MAX,
    ensures
        r == utf8_len(cs@.subrange(a as int, b as int)),
{
    let mut r: usize = 0;
    let mut k = a;
    proof {
        assert(cs@.subrange(a as int, a as int) =~= Seq::<char>::empty());
    }
    while k < b
        invariant
            a <= k <= b <= cs@.len(),
            utf8_len(cs@) <= usize::MAX,
            r == utf8_len(cs@.subrange(a as int, k as int)),
        decreases b - k,
    {
        proof {
            let t = cs@.subrange(a as int, b as int);
            lemma_utf8_len_split(cs@, a as int, b as int);
            lemma_utf8_len_split(t, 0, k - a + 1);
            assert(t.skip(0) =~= t);
            assert(t.subrange(0, k - a + 1) =~= cs@.subrange(a as int, k + 1));
            assert(cs@.skip(a as int) =~= cs@.subrange(a as int, cs@.len() as int));
            lemma_utf8_len_prefix(cs@, a as int, a as int);
            assert(cs@ =~= cs@.take(a as int) + cs@.skip(a as int));
            crate::text::lemma_utf8_len_concat(cs@.take(a as int), cs@.skip(a as int));
            assert(cs@.subrange(a as int, k + 1).drop_last() =~= cs@.subrange(a as int, k as int));
        }
        r = r + crate::text::width_of(cs[k]);
        k = k + 1;
    }
    r
}

/// The command that `name` names, if any.
pub open spec fn command_of(name: Seq<char>) -> Option<Command> {
    if name == "command"@ {
        Some(Command::Command)
    } else if name == "debug"@ {
        Some(Command::Debug)
    } else if name == "error"@ {
        Some(Command::Error)
    } else if name == "info"@ {
        Some(Command::Info)
    } else if name == "notice"@ {
        Some(Command::Notice)
    } else if name == "verbose"@ {
        Some(Command::Verbose)
    } else if name == "warning"@ {
        Some(Command::Warning)
    } else if name == "group"@ {
        Some(Command::Group)
    } else if name == "endgroup"@ {
        Some(Command::EndGroup)
    } else {
        None
    }
}

/// Whether `cs[a..b]` is the text `lit`.
fn same_text(cs: &Vec<char>, a: usize, b: usize, lit: &str) -> (r: bool)
    requires
        a <= b <= cs@.len(),
    ensures
        r == (cs@.subrange(a as int, b as int) == lit@),
{
    let l = chars_of(lit);
    if l.len() != b - a {
        return false;
    }
    let mut k: usize = 0;
    while k < l.len()
        invariant
            l@ == lit@,
            l@.len() == b - a,
            a <= b <= cs@.len(),
            k <= l@.len(),
            forall|j: int| 0 <= j < k ==> cs@[a + j] == l@[j],
        decreases l@.len() - k,
    {
        if cs[a + k] != l[k] {
            assert(cs@.subrange(a as int, b as int)[k as int] != l@[k as int]);
            return false;
        }
        k = k + 1;
    }
    assert(cs@.subrange(a as int, b as int) =~= l@);
    true
}

impl Command {
    /// The command named `cs[a..b]`, if any.
    fn from_chars(cs: &Vec<char>, a: usize, b: usize) -> (r: Option<Self>)
        requires
            a <= b <= cs@.len(),
        ensures
            r == command_of(cs@.subrange(a as int, b as int)),
    {
        if same_text(cs, a, b, "command") {
            Some(Command::Command)
        } else if same_text(cs, a, b, "debug") {
            Some(Command::Debug)
        } else if same_text(cs, a, b, "error") {
            Some(Command::Error)
        } else if same_text(cs, a, b, "info") {
            Some(Command::Info)
        } else if same_text(cs, a, b, "notice") {
            Some(Command::Notice)
        } else if same_text(cs, a, b, "verbose") {
            Some(Command::Verbose)
        } else if same_text(cs, a, b, "warning") {
            Some(Command::Warning)
        } else if same_text(cs, a, b, "group") {
            Some(Command::Group)
        } else if same_text(cs, a, b, "endgroup") {
            Some(Command::EndGroup)
        } else {
            None
        }
    }

    /// The command named `value`, if any.
    pub fn from(value: &str) -> (r: Option<Self>)
        ensures
            r == command_of(value@),
    {
        let cs = chars_of(value);
        assert(cs@.subrange(0, cs@.len() as int) =~= cs@);
        Self::from_chars(&cs, 0, cs.len())
    }

    /// The command's number, from 1 (`Command`) to 9 (`EndGroup`).
    pub fn tag(&self) -> (r: u8)
        ensures
            r == command_tag(*self),
    {
        match self {
            Command::Command => 1,
            Command::Debug => 2,
            Command::Error => 3,
            Command::Info => 4,
            Command::Notice => 5,
            Command::Verbose => 6,
            Command::Warning => 7,
            Command::Group => 8,
            Command::EndGroup => 9,
        }
    }
}

pub open spec fn command_tag(c: Command) -> u8 {
    match c {
        Command::Command => 1,
        Command::Debug => 2,
        Command::Error => 3,
        Command::Info => 4,
        Command::Notice => 5,
        Command::Verbose => 6,
        Command::Warning => 7,
        Command::Group => 8,
        Command::EndGroup => 9,
    }
}

/// Where the command name starts: after `##[` or `[`.
pub open spec fn cmd_start(raw: Seq<char>) -> Option<int> {
    if raw.len() >= 3 && raw[0] == '#' && raw[1] == '#' && raw[2] == '[' {
        Some(3)
    } else if raw.len() >= 1 && raw[0] == '[' {
        Some(1)
    } else {
        None
    }
}

/// The command a text starts with and the text after it; a text whose
/// bracketed name is not a command is left as it is.
pub open spec fn cmd_parts(raw: Seq<char>) -> (Option<Command>, Seq<char>) {
    match cmd_start(raw) {
        Some(st) => {
            let j = find_char(raw, ']', st);
            if j < raw.len() {
                match command_of(raw.subrange(st, j)) {
                    Some(c) => (Some(c), raw.skip(j + 1)),
                    None => (None, raw),
                }
            } else {
                (None, raw)
            }
        },
        None => (None, raw),
    }
}

/// The name for what chrono reads from a date-time text: milliseconds since
/// the Unix epoch, or `None` where the text is no date-time.
pub uninterp spec fn rfc3339_millis(s: Seq<char>) -> Option<i64>;

/// Relies on chrono's `FromStr` for `DateTime<Utc>` (a relaxed RFC 3339)
/// and `DateTime::timestamp_millis`: the instant that the text names, in
/// milliseconds; the result depends on the text alone.
#[verifier::external_body]
fn parse_datetime_millis(s: &str) -> (r: Option<i64>)
    ensures
        r == rfc3339_millis(s@),
{
    match s.parse::<chrono::DateTime<chrono::Utc>>() {
        Ok(t) => Some(t.timestamp_millis()),
        Err(_) => None,
    }
}

/// Relies on `SystemTime::now` and chrono's `From<SystemTime>` for
/// `DateTime<Utc>`: the current time in milliseconds since the Unix epoch,
/// negative for a clock set before it. Nothing is known of the value. chrono
/// panics only for a clock outside its range of about 262,000 years.
#[verifier::external_body]
fn now_millis() -> i64 {
    chrono::DateTime::<chrono::Utc>::from(std::time::SystemTime::now()).timestamp_millis()
}

/// Length in bytes of the timestamp that a line may start with.
pub const STAMP_LEN: usize = 28;

/// The timestamp from the id, `<millis>-<sequence>`, if it has one.
pub open spec fn id_millis(id: Option<Seq<char>>) -> Option<i64> {
    match id {
        Some(s) => {
            let j = find_char(s, '-', 0);
            if j < s.len() {
                parse_i64_spec(s.take(j))
            } else {
                None
            }
        },
        None => None,
    }
}

/// The timestamp that a line carries, and the text that follows it: a
/// date-time in the first bytes, which are dropped with the separator after
/// them; else the time from the id; else none, the text left whole.
pub open spec fn ts_source(id: Option<Seq<char>>, raw: Seq<char>) -> (Option<i64>, Seq<char>) {
    let t = char_end(raw, 0, STAMP_LEN);
    if offset(raw, t) == STAMP_LEN && rfc3339_millis(raw.take(t)) is Some {
        (rfc3339_millis(raw.take(t)), if t < raw.len() { raw.skip(t + 1) } else { Seq::empty() })
    } else {
        (id_millis(id), raw)
    }
}

/// The timestamp of a line and the text that follows it, where the clock
/// reads `now`.
pub open spec fn ts_parts(id: Option<Seq<char>>, raw: Seq<char>, now: i64) -> (i64, Seq<char>) {
    let (ts, rest) = ts_source(id, raw);
    (
        match ts {
            Some(v) => v,
            None => now,
        },
        rest,
    )
}

pub open spec fn opt_view(id: Option<&str>) -> Option<Seq<char>> {
    match id {
        Some(s) => Some(s@),
        None => None,
    }
}

/// The name for the links that linkify finds in a text: byte ranges, in
/// order.
pub uninterp spec fn url_spans(s: Seq<char>) -> Seq<(usize, usize)>;

/// Relies on linkify's `LinkFinder` restricted to `LinkKind::Url`: the start
/// and end byte offsets of each link in `s`, in order; they depend on the
/// text alone. Each link is non-empty and inside the text, and the search for
/// the next one starts where the last one ended.
#[verifier::external_body]
fn find_urls(s: &str) -> (r: Vec<(usize, usize)>)
    ensures
        r@ == url_spans(s@),
        forall|i: int| 0 <= i < r@.len() ==> #[trigger] r@[i].0 < r@[i].1 && r@[i].1 <= utf8_len(s@),
        forall|i: int, j: int| 0 <= i < j < r@.len() ==> #[trigger] r@[i].1 <= #[trigger] r@[j].0,
{
    let mut finder = linkify::LinkFinder::new();
    finder.kinds(&[linkify::LinkKind::Url]);
    finder.links(s).map(|link| (link.start(), link.end())).collect()
}

/// Link spans as a map from start to end; of two spans with one start the
/// later wins.
pub open spec fn links_map(sp: Seq<(usize, usize)>) -> Map<usize, usize>
    decreases sp.len(),
{
    if sp.len() == 0 {
        Map::empty()
    } else {
        links_map(sp.drop_last()).insert(sp.last().0, sp.last().1)
    }
}

/// Spans that are non-empty, inside a text of `len` bytes, and in order
/// without overlap.
pub open spec fn spans_in_order(sp: Seq<(usize, usize)>, len: nat) -> bool {
    &&& forall|i: int| 0 <= i < sp.len() ==> #[trigger] sp[i].0 < sp[i].1 && sp[i].1 <= len
    &&& forall|i: int, j: int| 0 <= i < j < sp.len() ==> #[trigger] sp[i].1 <= #[trigger] sp[j].0
}

/// Link spans, keyed by start, that are non-empty, inside a text of `len`
/// bytes, and do not overlap.
pub open spec fn disjoint_spans(m: Map<usize, usize>, len: nat) -> bool {
    &&& forall|a: usize| #[trigger] m.contains_key(a) ==> a < m[a] && m[a] <= len
    &&& forall|a: usize, b: usize|
        #[trigger] m.contains_key(a) && #[trigger] m.contains_key(b) && a < b ==> m[a] <= b
}

proof fn lemma_links_map_entries(sp: Seq<(usize, usize)>, len: nat)
    requires
        spans_in_order(sp, len),
    ensures
        forall|a: usize| #[trigger] links_map(sp).contains_key(a) ==> exists|i: int|
            0 <= i < sp.len() && sp[i].0 == a && sp[i].1 == links_map(sp)[a],
    decreases sp.len(),
{
    if sp.len() > 0 {
        let d = sp.drop_last();
        assert(spans_in_order(d, len)) by {
            assert forall|i: int, j: int| 0 <= i < j < d.len() implies #[trigger] d[i].1 <= #[trigger] d[j].0 by {
                assert(d[i] == sp[i] && d[j] == sp[j]);
            }
            assert forall|i: int| 0 <= i < d.len() implies #[trigger] d[i].0 < d[i].1 && d[i].1 <= len by {
                assert(d[i] == sp[i]);
            }
        }
        lemma_links_map_entries(d, len);
        assert forall|a: usize| #[trigger] links_map(sp).contains_key(a) implies exists|i: int|
            0 <= i < sp.len() && sp[i].0 == a && sp[i].1 == links_map(sp)[a] by {
            if a == sp.last().0 {
                assert(sp[sp.len() - 1].0 == a);
            } else {
                assert(links_map(d).contains_key(a));
                let i = choose|i: int| 0 <= i < d.len() && d[i].0 == a && d[i].1 == links_map(d)[a];
                assert(sp[i] == d[i]);
            }
        }
    }
}

/// Spans in order give a map of disjoint link spans.
proof fn lemma_links_map_disjoint(sp: Seq<(usize, usize)>, len: nat)
    requires
        spans_in_order(sp, len),
    ensures
        disjoint_spans(links_map(sp), len),
{
    lemma_links_map_entries(sp, len);
    let m = links_map(sp);
    assert forall|a: usize, b: usize|
        #[trigger] m.contains_key(a) && #[trigger] m.contains_key(b) && a < b implies m[a] <= b by {
        let i = choose|i: int| 0 <= i < sp.len() && sp[i].0 == a && sp[i].1 == m[a];
        let j = choose|j: int| 0 <= j < sp.len() && sp[j].0 == b && sp[j].1 == m[b];
        if j < i {
            assert(sp[j].1 <= sp[i].0);
        } else if i == j {
        } else {
            assert(sp[i].1 <= sp[j].0);
        }
    }
    assert forall|a: usize| #[trigger] m.contains_key(a) implies a < m[a] && m[a] <= len by {
        let i = choose|i: int| 0 <= i < sp.len() && sp[i].0 == a && sp[i].1 == m[a];
    }
}

/// The map from start to end of the spans `spans`.
pub fn links_from_spans(spans: &Vec<(usize, usize)>) -> (r: HashMap<usize, usize>)
    ensures
        r@ == links_map(spans@),
{
    let mut m: HashMap<usize, usize> = HashMap::new();
    let mut k: usize = 0;
    assert(spans@.take(0) =~= Seq::<(usize, usize)>::empty());
    while k < spans.len()
        invariant
            k <= spans@.len(),
            m@ == links_map(spans@.take(k as int)),
        decreases spans@.len() - k,
    {
        let (a, b) = spans[k];
        assert(spans@.take(k + 1).drop_last() =~= spans@.take(k as int));
        m.insert(a, b);
        k = k + 1;
    }
    assert(spans@.take(k as int) =~= spans@);
    m
}

/// The name for what `str::to_lowercase` makes of a text.
pub uninterp spec fn lower_of(s: Seq<char>) -> Seq<char>;

/// Whether every character of `s` is ASCII.
pub open spec fn ascii_text(s: Seq<char>) -> bool {
    forall|i: int| 0 <= i < s.len() ==> (#[trigger] s[i] as u32) < 128
}

/// `c` with an ASCII capital turned into its small letter.
pub open spec fn ascii_lower(c: char) -> char {
    if 'A' <= c <= 'Z' {
        ((c as u32) + 32) as char
    } else {
        c
    }
}

/// `s` with each ASCII capital turned into its small letter.
pub open spec fn ascii_lowered(s: Seq<char>) -> Seq<char> {
    s.map_values(|c: char| ascii_lower(c))
}

/// Relies on `str::to_lowercase`: the lowercase form of `s`, which depends on
/// its characters alone; an empty text stays empty, and on ASCII text only
/// the capitals `A` to `Z` change, to `a` to `z`.
#[verifier::external_body]
fn lowercase(s: &str) -> (r: String)
    ensures
        r@ == lower_of(s@),
        s@.len() == 0 ==> r@.len() == 0,
        ascii_text(s@) ==> r@ == ascii_lowered(s@),
{
    s.to_lowercase()
}

/// The lowercase form of `s`.
pub fn lowercase_text(s: &str) -> (r: String)
    ensures
        r@ == lower_of(s@),
        s@.len() == 0 ==> r@.len() == 0,
        ascii_text(s@) ==> r@ == ascii_lowered(s@),
{
    lowercase(s)
}

/// The highlight spans of `term` in `content`: none for an empty term; else
/// each case-insensitive occurrence, by byte offset in the lowercased
/// content, to that offset plus the term's byte length.
pub open spec fn highlight_spans(content: Seq<char>, term: Seq<char>) -> Map<usize, usize> {
    if term.len() == 0 {
        Map::empty()
    } else {
        match_spans(lower_of(content), lower_of(term), utf8_len(term))
    }
}

/// `r` is the line built from `raw` at `number`, with `id`, where the clock
/// reads `now`.
pub open spec fn built(r: Line, number: usize, id: Option<Seq<char>>, raw: Seq<char>, now: i64) -> bool {
    let (ts, body) = ts_parts(id, raw, now);
    let (cmd, rest) = cmd_parts(body);
    let (content, evs) = decode(rest);
    &&& r.number == number
    &&& r.ts == ts
    &&& r.cmd == cmd
    &&& r.content@ == content
    &&& events_view(r.ansis@) == evs
    &&& r.links@ == links_map(url_spans(content))
    &&& disjoint_spans(r.links@, utf8_len(content))
    &&& r.highlights@ == Map::<usize, usize>::empty()
    &&& r.group is None
    &&& nodes_of(r.elements@) == build_spec(annotated(&r))
}

/// `n` is `o` with its highlights recomputed for `term` and its elements
/// rebuilt.
pub open spec fn rehighlighted(n: Line, o: Line, term: Seq<char>) -> bool {
    &&& n.ts == o.ts
    &&& n.number == o.number
    &&& n.cmd == o.cmd
    &&& n.content == o.content
    &&& n.links == o.links
    &&& n.ansis == o.ansis
    &&& n.highlights@ == highlight_spans(o.content@, term)
    &&& nodes_of(n.elements@) == build_spec(annotated(&n))
}

/// `n` is `o` with its highlights, and those of the lines of its group,
/// recomputed for `term`.
pub open spec fn highlighted_tree(n: Line, o: Line, term: Seq<char>) -> bool {
    &&& rehighlighted(n, o, term)
    &&& match o.group {
        None => n.group is None,
        Some(g) => {
            &&& n.group is Some
            &&& n.group->0.ended == g.ended
            &&& n.group->0.children@.len() == g.children@.len()
            &&& forall|i: int|
                0 <= i < g.children@.len() ==> {
                    &&& rehighlighted(#[trigger] n.group->0.children@[i], g.children@[i], term)
                    &&& n.group->0.children@[i].group == g.children@[i].group
                }
        },
    }
}

/// Highlighting for an empty term leaves a line, and each line of its
/// group, with no highlight spans and no highlighted text.
pub proof fn empty_search_clears(n: Line, o: Line)
    requires
        highlighted_tree(n, o, Seq::empty()),
    ensures
        n.highlights@ == Map::<usize, usize>::empty(),
        forall|j: int| 0 <= j < n.elements@.len() ==> unlit(#[trigger] nodes_of(n.elements@)[j]),
        n.group is Some ==> forall|i: int|
            0 <= i < n.group->0.children@.len() ==> {
                &&& (#[trigger] n.group->0.children@[i]).highlights@ == Map::<usize, usize>::empty()
                &&& forall|j: int|
                    0 <= j < n.group->0.children@[i].elements@.len() ==> unlit(
                        #[trigger] nodes_of(n.group->0.children@[i].elements@)[j],
                    )
            },
{
    no_spans_no_highlight(annotated(&n));
    if n.group is Some {
        let g = o.group->0;
        assert forall|i: int| 0 <= i < n.group->0.children@.len() implies {
            &&& (#[trigger] n.group->0.children@[i]).highlights@ == Map::<usize, usize>::empty()
            &&& forall|j: int|
                0 <= j < n.group->0.children@[i].elements@.len() ==> unlit(
                    #[trigger] nodes_of(n.group->0.children@[i].elements@)[j],
                )
        } by {
            assert(rehighlighted(n.group->0.children@[i], g.children@[i], Seq::empty()));
            no_spans_no_highlight(annotated(&n.group->0.children@[i]));
        }
    }
}

/// Every link of a line's render tree holds some text: linkify's spans are
/// never empty.
pub proof fn line_links_hold_text(l: Line)
    requires
        disjoint_spans(l.links@, utf8_len(l.content@)),
        nodes_of(l.elements@) == build_spec(annotated(&l)),
    ensures
        crate::element::links_filled(nodes_of(l.elements@)),
{
    crate::element::links_hold_text(annotated(&l));
}

/// Terms with one lowercase form give the same highlight spans once
/// lowercased, as a session stores them.
pub proof fn search_ignores_case(content: Seq<char>, t1: Seq<char>, t2: Seq<char>)
    requires
        lower_of(t1) == lower_of(t2),
    ensures
        highlight_spans(content, lower_of(t1)) == highlight_spans(content, lower_of(t2)),
{
}

/// `n` is `o` but for its group.
pub open spec fn same_but_group(n: Line, o: Line) -> bool {
    &&& n.ts == o.ts
    &&& n.number == o.number
    &&& n.cmd == o.cmd
    &&& n.content == o.content
    &&& n.links == o.links
    &&& n.ansis == o.ansis
    &&& n.highlights == o.highlights
    &&& n.elements == o.elements
}

/// Sum of the highlight counts of `ls`.
pub open spec fn highlight_total(ls: Seq<Line>) -> nat
    decreases ls.len(),
{
    if ls.len() == 0 {
        0
    } else {
        highlight_total(ls.drop_last()) + ls.last().highlights@.len()
    }
}

/// The highlights of a line and of the lines of its group.
pub open spec fn match_count(l: Line) -> nat {
    l.highlights@.len() + match l.group {
        Some(g) => highlight_total(g.children@),
        None => 0,
    }
}

pub open spec fn sat(x: nat) -> usize {
    if x <= usize::MAX { x as usize } else { usize::MAX }
}

impl Line {
    /// Builds line `number` from `raw`, reading the clock only where neither
    /// `raw` nor `id` gives a timestamp.
    pub fn new(number: usize, id: Option<&str>, raw: &str) -> (r: Self)
        ensures
            built(r, number, opt_view(id), raw@, r.ts),
            ts_source(opt_view(id), raw@).0 is Some ==> r.ts == ts_source(opt_view(id), raw@).0->0,
    {
        let (ts, content) = Self::parse_ts(id, raw);
        let ts = match ts {
            Some(v) => v,
            None => now_millis(),
        };
        Self::assemble(number, ts, content, Ghost(opt_view(id)), Ghost(raw@))
    }

    /// Builds line `number` from `raw`, where the clock reads `now`
    /// milliseconds.
    pub fn new_at(number: usize, id: Option<&str>, raw: &str, now: i64) -> (r: Self)
        ensures
            built(r, number, opt_view(id), raw@, now),
    {
        let (ts, content) = Self::parse_ts(id, raw);
        let ts = match ts {
            Some(v) => v,
            None => now,
        };
        Self::assemble(number, ts, content, Ghost(opt_view(id)), Ghost(raw@))
    }

    /// The line with timestamp `ts` whose text, after the timestamp, is
    /// `content`.
    fn assemble(
        number: usize,
        ts: i64,
        content: String,
        Ghost(id): Ghost<Option<Seq<char>>>,
        Ghost(raw): Ghost<Seq<char>>,
    ) -> (r: Self)
        requires
            ts_parts(id, raw, ts) == (ts, content@),
        ensures
            built(r, number, id, raw, ts),
    {
        let (cmd, content) = Self::parse_cmd(content);
        let (content, ansis) = extract_ansi(content);
        let spans = find_urls(content.as_str());
        let links = links_from_spans(&spans);
        proof {
            lemma_links_map_disjoint(spans@, utf8_len(content@));
        }
        let mut line = Line {
            number,
            cmd,
            ts,
            content,
            links,
            ansis,
            highlights: HashMap::new(),
            elements: Vec::new(),
            group: None,
        };
        let elements = build_elements(&line);
        line.elements = elements;
        line
    }

    /// The line built from `raw` alone, as line 0.
    pub fn from(raw: &str) -> (r: Self)
        ensures
            built(r, 0, None, raw@, r.ts),
    {
        Self::new(0, None, raw)
    }

    /// The timestamp that a line carries, if any, and the text after it.
    fn parse_ts(id: Option<&str>, raw: &str) -> (r: (Option<i64>, String))
        ensures
            (r.0, r.1@) == ts_source(opt_view(id), raw@),
    {
        let total = str_byte_len(raw);
        let cs = chars_of(raw);
        let n = cs.len();
        let mut t: usize = 0;
        let mut p: usize = 0;
        assert(cs@.take(0) =~= Seq::<char>::empty());
        while t < n && p < STAMP_LEN
            invariant
                n == cs@.len(),
                total == utf8_len(cs@),
                t <= n,
                p == offset(cs@, t as int),
                char_end(cs@, 0, STAMP_LEN) == char_end(cs@, t as int, STAMP_LEN),
            decreases n - t,
        {
            proof {
                lemma_utf8_len_split(cs@, t as int, t + 1);
                assert(cs@.subrange(t as int, t + 1) =~= seq![cs@[t as int]]);
                lemma_utf8_len_one(cs@[t as int]);
                lemma_utf8_len_prefix(cs@, t + 1, n as int);
            }
            p = p + width_of(cs[t]);
            t = t + 1;
        }
        if p == STAMP_LEN {
            let prefix = string_of(&cs, 0, t);
            assert(cs@.subrange(0, t as int) =~= cs@.take(t as int));
            match parse_datetime_millis(prefix.as_str()) {
                Some(ms) => {
                    let from = if t < n { t + 1 } else { n };
                    let rest = string_of(&cs, from, n);
                    assert(t < n ==> cs@.subrange(from as int, n as int) =~= cs@.skip(t + 1));
                    return (Some(ms), rest);
                },
                None => {},
            }
        }
        let ms = match id {
            Some(idv) => {
                let ic = chars_of(idv);
                let j = find_char_in(&ic, '-', 0);
                if j < ic.len() {
                    assert(ic@.subrange(0, j as int) =~= ic@.take(j as int));
                    parse_i64(&ic, 0, j)
                } else {
                    None
                }
            },
            None => None,
        };
        (ms, raw.to_owned())
    }

    /// The command that `raw` starts with and the text after it.
    fn parse_cmd(raw: String) -> (r: (Option<Command>, String))
        ensures
            (r.0, r.1@) == cmd_parts(raw@),
    {
        let cs = chars_of(raw.as_str());
        let n = cs.len();
        let start: usize = if n >= 3 && cs[0] == '#' && cs[1] == '#' && cs[2] == '[' {
            3
        } else if n >= 1 && cs[0] == '[' {
            1
        } else {
            return (None, raw);
        };
        let j = find_char_in(&cs, ']', start);
        if j < n {
            match Command::from_chars(&cs, start, j) {
                Some(cmd) => {
                    let rest = string_of(&cs, j + 1, n);
                    assert(cs@.subrange(j + 1, n as int) =~= cs@.skip(j + 1));
                    (Some(cmd), rest)
                },
                None => (None, raw),
            }
        } else {
            (None, raw)
        }
    }

    /// Recomputes the highlights of this line alone for `search_term`, and
    /// rebuilds its elements.
    fn highlight_own(&mut self, search_term: &str)
        ensures
            rehighlighted(*final(self), *old(self), search_term@),
            final(self).group == old(self).group,
    {
        if search_term.is_empty() {
            self.highlights.clear();
        } else {
            let content = lowercase(self.content.as_str());
            let term = lowercase(search_term);
            let len = str_byte_len(search_term);
            self.highlights = find_matches(content.as_str(), term.as_str(), len);
        }
        let elements = build_elements(self);
        self.elements = elements;
    }

    /// Recomputes the highlights for `search_term`, of this line and of the
    /// lines of its group, and rebuilds their elements. An empty term clears
    /// them.
    pub fn highlight(&mut self, search_term: &str)
        ensures
            highlighted_tree(*final(self), *old(self), search_term@),
    {
        self.highlight_own(search_term);
        let mut group = None;
        core::mem::swap(&mut group, &mut self.group);
        match group {
            Some(g) => {
                let Group { children, ended } = g;
                let ghost old_children = children@;
                let mut children = children;
                let mut done: Vec<Line> = Vec::new();
                while children.len() > 0
                    invariant
                        old_children == children@ + done@.reverse(),
                    decreases children@.len(),
                {
                    let c = children.pop().unwrap();
                    done.push(c);
                    assert(old_children =~= children@ + done@.reverse());
                }
                let ghost total = done@.len();
                assert(done@.reverse() =~= old_children);
                let mut out: Vec<Line> = Vec::new();
                while done.len() > 0
                    invariant
                        total == old_children.len(),
                        done@.len() + out@.len() == total,
                        forall|i: int| 0 <= i < done@.len() ==> #[trigger] done@[i] == old_children[total - 1 - i],
                        forall|i: int|
                            0 <= i < out@.len() ==> {
                                &&& rehighlighted(#[trigger] out@[i], old_children[i], search_term@)
                                &&& out@[i].group == old_children[i].group
                            },
                    decreases done@.len(),
                {
                    let mut c = done.pop().unwrap();
                    c.highlight_own(search_term);
                    out.push(c);
                }
                self.group = Some(Group { children: out, ended });
            },
            None => {},
        }
    }

    /// The number of highlights of this line and of the lines of its group,
    /// or `usize::MAX` where that is larger.
    pub fn matches(&self) -> (r: usize)
        ensures
            r == sat(match_count(*self)),
    {
        let mut total: usize = self.highlights.len();
        match &self.group {
            Some(g) => {
                let mut k: usize = 0;
                assert(g.children@.take(0) =~= Seq::<Line>::empty());
                while k < g.children.len()
                    invariant
                        k <= g.children@.len(),
                        total == sat(self.highlights@.len() + highlight_total(g.children@.take(k as int))),
                    decreases g.children@.len() - k,
                {
                    assert(g.children@.take(k + 1).drop_last() =~= g.children@.take(k as int));
                    total = total.saturating_add(g.children[k].highlights.len());
                    k = k + 1;
                }
                assert(g.children@.take(k as int) =~= g.children@);
            },
            None => {},
        }
        total
    }

    /// Makes this line open a group, unless it has one.
    pub fn start_group(&mut self)
        ensures
            same_but_group(*final(self), *old(self)),
            match old(self).group {
                None => final(self).group is Some && final(self).group->0.children@.len() == 0
                    && !final(self).group->0.ended,
                Some(_) => final(self).group == old(self).group,
            },
    {
        if self.group.is_none() {
            self.group = Some(Group::new());
        }
    }

    /// Closes this line's group, if it has one.
    pub fn end_group(&mut self)
        ensures
            same_but_group(*final(self), *old(self)),
            match old(self).group {
                None => final(self).group is None,
                Some(g) => final(self).group == Some(Group { ended: true, ..g }),
            },
    {
        match &mut self.group {
            Some(g) => {
                g.ended = true;
            },
            None => {},
        }
    }

    /// Adds `child` to this line's group, opening one if there is none.
    pub fn add_child(&mut self, child: Line)
        ensures
            same_but_group(*final(self), *old(self)),
            final(self).group is Some,
            match old(self).group {
                None => final(self).group->0.children@ == seq![child] && !final(self).group->0.ended,
                Some(g) => final(self).group->0.children@ == g.children@.push(child)
                    && final(self).group->0.ended == g.ended,
            },
    {
        match &mut self.group {
            Some(g) => {
                g.add_line(child);
            },
            None => {
                let mut children = Vec::new();
                children.push(child);
                self.group = Some(Group { children, ended: false });
            },
        }
    }
}

impl Group {
    pub fn new() -> (r: Self)
        ensures
            r.children@.len() == 0,
            !r.ended,
    {
        Group { ended: false, children: Vec::new() }
    }

    /// Appends `line` to the group.
    pub fn add_line(&mut self, line: Line)
        ensures
            final(self).children@ == old(self).children@.push(line),
            final(self).ended == old(self).ended,
    {
        self.children.push(line);
    }
}

} // verus!
