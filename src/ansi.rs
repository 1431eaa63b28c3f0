//! Decoding of SGR escape sequences (`ESC [ params m`) out of raw text.

use std::collections::HashMap;
use vstd::prelude::*;

use crate::text::{
    all_digits, digits_value, is_digit, append_chars, chars_of, lemma_utf8_len_concat, lemma_utf8_len_split, parse_u8, parse_u8_spec, str_byte_len, string_of,
    utf8_len,
};

verus! {

broadcast use vstd::std_specs::hash::group_hash_axioms;

/// One style change carried by an escape sequence.
#[derive(Clone, Copy, Debug, PartialEq, Eq, Hash, Structural)]
pub enum ANSISequence {
    Reset,
    Bold,
    Italic,
    Underline,
    NotBold,
    NotItalic,
    NotUnderline,
    SetFG8(u8),
    DefaultFG,
    SetBG8(u8),
    DefaultBG,
    SetFG24(u8, u8, u8),
    SetBG24(u8, u8, u8),
}

pub open spec fn esc() -> char {
    '\x1b'
}

/// The event that the parameters at the front of `p` stand for, and how many
/// parameters it takes.
pub open spec fn code_step(p: Seq<u8>) -> Option<(ANSISequence, nat)> {
    if p.len() == 0 {
        None
    } else {
        let c = p[0];
        if c == 0 {
            Some((ANSISequence::Reset, 1))
        } else if c == 1 {
            Some((ANSISequence::Bold, 1))
        } else if c == 3 {
            Some((ANSISequence::Italic, 1))
        } else if c == 4 {
            Some((ANSISequence::Underline, 1))
        } else if c == 22 {
            Some((ANSISequence::NotBold, 1))
        } else if c == 23 {
            Some((ANSISequence::NotItalic, 1))
        } else if c == 24 {
            Some((ANSISequence::NotUnderline, 1))
        } else if 30 <= c <= 37 {
            Some((ANSISequence::SetFG8((c - 30) as u8), 1))
        } else if c == 38 && p.len() >= 3 && p[1] == 5 {
            Some((ANSISequence::SetFG8(p[2]), 3))
        } else if c == 38 && p.len() >= 5 && p[1] == 2 {
            Some((ANSISequence::SetFG24(p[2], p[3], p[4]), 5))
        } else if c == 39 {
            Some((ANSISequence::DefaultFG, 1))
        } else if 40 <= c <= 47 {
            Some((ANSISequence::SetBG8((c - 40) as u8), 1))
        } else if c == 48 && p.len() >= 3 && p[1] == 5 {
            Some((ANSISequence::SetBG8(p[2]), 3))
        } else if c == 48 && p.len() >= 5 && p[1] == 2 {
            Some((ANSISequence::SetBG24(p[2], p[3], p[4]), 5))
        } else if c == 49 {
            Some((ANSISequence::DefaultBG, 1))
        } else if 90 <= c <= 97 {
            Some((ANSISequence::SetFG8((c - 90 + 8) as u8), 1))
        } else if 100 <= c <= 107 {
            Some((ANSISequence::SetBG8((c - 100 + 8) as u8), 1))
        } else {
            None
        }
    }
}

/// The events of a whole parameter list, or `None` where any part of it is
/// not recognised.
pub open spec fn events_of(p: Seq<u8>) -> Option<Seq<ANSISequence>>
    decreases p.len(),
{
    if p.len() == 0 {
        Some(Seq::empty())
    } else {
        match code_step(p) {
            Some((e, n)) => if 0 < n <= p.len() {
                match events_of(p.skip(n as int)) {
                    Some(rest) => Some(seq![e] + rest),
                    None => None,
                }
            } else {
                None
            },
            None => None,
        }
    }
}

/// The parameter text split on `;`, each piece read as a byte: `cur` is the
/// piece read so far.
pub open spec fn params_scan(rest: Seq<char>, cur: Seq<char>) -> Option<Seq<u8>>
    decreases rest.len(),
{
    if rest.len() == 0 {
        match parse_u8_spec(cur) {
            Some(v) => Some(seq![v]),
            None => None,
        }
    } else if rest[0] == ';' {
        match parse_u8_spec(cur) {
            Some(v) => match params_scan(rest.drop_first(), Seq::empty()) {
                Some(more) => Some(seq![v] + more),
                None => None,
            },
            None => None,
        }
    } else {
        params_scan(rest.drop_first(), cur.push(rest[0]))
    }
}

pub open spec fn params_of(s: Seq<char>) -> Option<Seq<u8>> {
    params_scan(s, Seq::empty())
}

/// The events that the parameter text of one escape sequence stands for.
pub open spec fn sgr_events(s: Seq<char>) -> Option<Seq<ANSISequence>> {
    match params_of(s) {
        Some(p) => events_of(p),
        None => None,
    }
}

/// Appends `es` to the events recorded at offset `k`.
pub open spec fn add_events(
    m: Map<usize, Seq<ANSISequence>>,
    k: usize,
    es: Seq<ANSISequence>,
) -> Map<usize, Seq<ANSISequence>> {
    if m.contains_key(k) {
        m.insert(k, m[k] + es)
    } else {
        m.insert(k, es)
    }
}

/// The decoder as a scan over the rest of the input: `acc` is `Some` with
/// the parameter text read so far while inside an escape sequence; `out` is
/// the scrubbed text so far and `evs` the events so far, keyed by the byte
/// offset in `out` where they take effect.
pub open spec fn scan(
    rest: Seq<char>,
    acc: Option<Seq<char>>,
    out: Seq<char>,
    evs: Map<usize, Seq<ANSISequence>>,
) -> (Seq<char>, Map<usize, Seq<ANSISequence>>)
    decreases rest.len(),
{
    match acc {
        None => if rest.len() == 0 {
            (out, evs)
        } else if rest.len() >= 2 && rest[0] == esc() && rest[1] == '[' {
            scan(rest.skip(2), Some(Seq::empty()), out, evs)
        } else {
            scan(rest.drop_first(), None, out.push(rest[0]), evs)
        },
        Some(a) => if rest.len() == 0 {
            (out + seq![esc(), '['] + a, evs)
        } else if rest[0] == 'm' {
            match sgr_events(a) {
                Some(es) => scan(rest.drop_first(), None, out, add_events(evs, utf8_len(out) as usize, es)),
                None => scan(rest.drop_first(), None, out + seq![esc(), '['] + a.push('m'), evs),
            }
        } else {
            scan(rest.drop_first(), Some(a.push(rest[0])), out, evs)
        },
    }
}

/// The scrubbed text of `raw` and its events by byte offset.
pub open spec fn decode(raw: Seq<char>) -> (Seq<char>, Map<usize, Seq<ANSISequence>>) {
    scan(raw, None, Seq::empty(), Map::empty())
}

pub open spec fn events_view(m: Map<usize, Vec<ANSISequence>>) -> Map<usize, Seq<ANSISequence>> {
    m.map_values(|v: Vec<ANSISequence>| v@)
}

/// The decimal digit `d`.
pub open spec fn digit_char(d: u8) -> char {
    if d == 0 {
        '0'
    } else if d == 1 {
        '1'
    } else if d == 2 {
        '2'
    } else if d == 3 {
        '3'
    } else if d == 4 {
        '4'
    } else if d == 5 {
        '5'
    } else if d == 6 {
        '6'
    } else if d == 7 {
        '7'
    } else if d == 8 {
        '8'
    } else {
        '9'
    }
}

/// `c` written in decimal.
pub open spec fn decimal(c: u8) -> Seq<char> {
    if c < 10 {
        seq![digit_char(c)]
    } else if c < 100 {
        seq![digit_char(c / 10), digit_char(c % 10)]
    } else {
        seq![digit_char(c / 100), digit_char((c / 10) % 10), digit_char(c % 10)]
    }
}

/// The event of each code that takes one parameter: attributes, the
/// 3/4-bit colours (bright ones as palette entries 8 to 15), and the
/// defaults.
pub open spec fn single_code_event(c: u8) -> Option<ANSISequence> {
    if c == 0 {
        Some(ANSISequence::Reset)
    } else if c == 1 {
        Some(ANSISequence::Bold)
    } else if c == 3 {
        Some(ANSISequence::Italic)
    } else if c == 4 {
        Some(ANSISequence::Underline)
    } else if c == 22 {
        Some(ANSISequence::NotBold)
    } else if c == 23 {
        Some(ANSISequence::NotItalic)
    } else if c == 24 {
        Some(ANSISequence::NotUnderline)
    } else if 30 <= c <= 37 {
        Some(ANSISequence::SetFG8((c - 30) as u8))
    } else if c == 39 {
        Some(ANSISequence::DefaultFG)
    } else if 40 <= c <= 47 {
        Some(ANSISequence::SetBG8((c - 40) as u8))
    } else if c == 49 {
        Some(ANSISequence::DefaultBG)
    } else if 90 <= c <= 97 {
        Some(ANSISequence::SetFG8((c - 82) as u8))
    } else if 100 <= c <= 107 {
        Some(ANSISequence::SetBG8((c - 92) as u8))
    } else {
        None
    }
}

proof fn lemma_digit_char(d: u8)
    requires
        d <= 9,
    ensures
        is_digit(digit_char(d)),
        (digit_char(d) as u32) - ('0' as u32) == d as int,
        digit_char(d) != ';' && digit_char(d) != 'm',
{
}

proof fn lemma_decimal_parses(c: u8)
    ensures
        all_digits(decimal(c)),
        digits_value(decimal(c)) == c,
        parse_u8_spec(decimal(c)) == Some(c),
        forall|j: int| 0 <= j < decimal(c).len() ==> decimal(c)[j] != ';' && decimal(c)[j] != 'm',
        decimal(c).len() > 0,
{
    let d = decimal(c);
    let e = Seq::<char>::empty();
    assert(digits_value(e) == 0);
    if c < 10 {
        lemma_digit_char(c);
        assert(d.drop_last() =~= e);
        assert(digits_value(d) == digits_value(e) * 10 + c);
    } else if c < 100 {
        let (h, l) = (c / 10, c % 10);
        lemma_digit_char(h);
        lemma_digit_char(l);
        let d1 = seq![digit_char(h)];
        assert(d.drop_last() =~= d1);
        assert(d1.drop_last() =~= e);
        assert(digits_value(d1) == h);
        assert(digits_value(d) == h * 10 + l);
        assert(h * 10 + l == c);
    } else {
        let (h, m, l) = (c / 100, (c / 10) % 10, c % 10);
        lemma_digit_char(h);
        lemma_digit_char(m);
        lemma_digit_char(l);
        let d1 = seq![digit_char(h)];
        let d2 = seq![digit_char(h), digit_char(m)];
        assert(d.drop_last() =~= d2);
        assert(d2.drop_last() =~= d1);
        assert(d1.drop_last() =~= e);
        assert(digits_value(d1) == h);
        assert(digits_value(d2) == h * 10 + m);
        assert(digits_value(d) == (h * 10 + m) * 10 + l);
        assert((h * 10 + m) * 10 + l == c);
    }
    assert(d[0] != '+');
    assert(all_digits(d));
}

/// Reading a run without `;` as parameters reads it as one byte.
proof fn lemma_params_one(rest: Seq<char>, cur: Seq<char>)
    requires
        forall|j: int| 0 <= j < rest.len() ==> rest[j] != ';',
    ensures
        params_scan(rest, cur) == match parse_u8_spec(cur + rest) {
            Some(v) => Some(seq![v]),
            None => None::<Seq<u8>>,
        },
    decreases rest.len(),
{
    if rest.len() == 0 {
        assert(cur + rest =~= cur);
    } else {
        assert(rest[0] != ';');
        lemma_params_one(rest.drop_first(), cur.push(rest[0]));
        assert(cur.push(rest[0]) + rest.drop_first() =~= cur + rest);
    }
}

/// Inside an escape sequence, characters other than `m` are gathered as
/// parameter text.
proof fn lemma_scan_params(
    p: Seq<char>,
    tail: Seq<char>,
    a: Seq<char>,
    out: Seq<char>,
    evs: Map<usize, Seq<ANSISequence>>,
)
    requires
        forall|j: int| 0 <= j < p.len() ==> p[j] != 'm',
    ensures
        scan(p + tail, Some(a), out, evs) == scan(tail, Some(a + p), out, evs),
    decreases p.len(),
{
    if p.len() == 0 {
        assert(p + tail =~= tail);
        assert(a + p =~= a);
    } else {
        let q = p + tail;
        assert(q[0] == p[0]);
        assert(q.drop_first() =~= p.drop_first() + tail);
        lemma_scan_params(p.drop_first(), tail, a.push(p[0]), out, evs);
        assert(a.push(p[0]) + p.drop_first() =~= a + p);
    }
}

/// Each code that takes one parameter, alone in an escape sequence before a
/// character, decodes to that character with its one event at offset 0.
pub proof fn single_code_decodes(c: u8, x: char)
    requires
        single_code_event(c) is Some,
        x != esc(),
    ensures
        decode(seq![esc(), '['] + decimal(c) + seq!['m', x]) == (
            seq![x],
            map![0usize => seq![single_code_event(c)->0]],
        ),
{
    let d = decimal(c);
    lemma_decimal_parses(c);
    let raw = seq![esc(), '['] + d + seq!['m', x];
    let tail = seq!['m', x];
    let empty = Seq::<char>::empty();
    let none = Map::<usize, Seq<ANSISequence>>::empty();
    assert(raw[0] == esc() && raw[1] == '[');
    assert(raw.skip(2) =~= d + tail);
    assert(decode(raw) == scan(d + tail, Some(empty), empty, none));
    lemma_scan_params(d, tail, empty, empty, none);
    assert(empty + d =~= d);
    assert(scan(d + tail, Some(empty), empty, none) == scan(tail, Some(d), empty, none));
    lemma_params_one(d, empty);
    let e = single_code_event(c)->0;
    assert(seq![c].skip(1) =~= Seq::<u8>::empty());
    assert(code_step(seq![c]) == Some((e, 1nat)));
    assert(events_of(Seq::<u8>::empty()) == Some(Seq::<ANSISequence>::empty()));
    assert(events_of(seq![c]) == Some(seq![e] + Seq::<ANSISequence>::empty()));
    assert(seq![e] + Seq::<ANSISequence>::empty() =~= seq![e]);
    assert(sgr_events(d) == Some(seq![e]));
    assert(utf8_len(empty) == 0);
    let m = add_events(none, 0usize, seq![e]);
    assert(tail[0] == 'm');
    assert(tail.drop_first() =~= seq![x]);
    assert(scan(tail, Some(d), empty, none) == scan(seq![x], None, empty, m));
    assert(seq![x].drop_first() =~= empty);
    assert(empty.push(x) =~= seq![x]);
    assert(scan(seq![x], None, empty, m) == scan(empty, None, seq![x], m));
    assert(m =~= map![0usize => seq![e]]);
}

pub open spec fn prepend<T>(xs: Seq<T>, o: Option<Seq<T>>) -> Option<Seq<T>> {
    match o {
        Some(m) => Some(xs + m),
        None => None,
    }
}

/// Splits `cs[start..end]` on `;` and reads each piece as a byte.
fn parse_params(cs: &Vec<char>, start: usize, end: usize) -> (r: Option<Vec<u8>>)
    requires
        start <= end <= cs@.len(),
    ensures
        match r {
            Some(v) => params_of(cs@.subrange(start as int, end as int)) == Some(v@),
            None => params_of(cs@.subrange(start as int, end as int)) is None,
        },
{
    let ghost s = cs@.subrange(start as int, end as int);
    let mut out: Vec<u8> = Vec::new();
    let mut piece = start;
    let mut k = start;
    proof {
        assert(s.skip(0) =~= s);
        assert(cs@.subrange(start as int, start as int) =~= Seq::<char>::empty());
        if let Some(m) = params_of(s) {
            assert(out@ + m =~= m);
        }
    }
    while k < end
        invariant
            start <= piece <= k <= end <= cs@.len(),
            s == cs@.subrange(start as int, end as int),
            params_of(s) == prepend(
                out@,
                params_scan(s.skip(k - start), cs@.subrange(piece as int, k as int)),
            ),
        decreases end - k,
    {
        let ghost rest = s.skip(k - start);
        assert(rest[0] == cs@[k as int]);
        assert(rest.drop_first() =~= s.skip(k + 1 - start));
        if cs[k] == ';' {
            match parse_u8(cs, piece, k) {
                Some(v) => {
                    proof {
                        let old_out = out@;
                        assert(cs@.subrange(k + 1, k + 1) =~= Seq::<char>::empty());
                        match params_scan(s.skip(k + 1 - start), Seq::empty()) {
                            Some(more) => {
                                assert(old_out + (seq![v] + more) =~= old_out.push(v) + more);
                            },
                            None => {},
                        }
                    }
                    out.push(v);
                    piece = k + 1;
                },
                None => {
                    return None;
                },
            }
        } else {
            assert(cs@.subrange(piece as int, k as int).push(cs@[k as int]) =~= cs@.subrange(
                piece as int,
                k + 1,
            ));
        }
        k = k + 1;
    }
    assert(s.skip(k - start).len() == 0);
    match parse_u8(cs, piece, end) {
        Some(v) => {
            assert(out@ + seq![v] =~= out@.push(v));
            out.push(v);
            Some(out)
        },
        None => None,
    }
}

impl ANSISequence {
    /// The event that the parameters `p[i..]` begin with, and how many
    /// parameters it takes.
    fn match_seqs(p: &Vec<u8>, i: usize) -> (r: Option<(ANSISequence, usize)>)
        requires
            i < p@.len(),
        ensures
            match r {
                Some((e, n)) => code_step(p@.skip(i as int)) == Some((e, n as nat)),
                None => code_step(p@.skip(i as int)) is None,
            },
    {
        let ghost q = p@.skip(i as int);
        let len = p.len() - i;
        assert(q[0] == p@[i as int]);
        let c = p[i];
        if c == 0 {
            Some((ANSISequence::Reset, 1))
        } else if c == 1 {
            Some((ANSISequence::Bold, 1))
        } else if c == 3 {
            Some((ANSISequence::Italic, 1))
        } else if c == 4 {
            Some((ANSISequence::Underline, 1))
        } else if c == 22 {
            Some((ANSISequence::NotBold, 1))
        } else if c == 23 {
            Some((ANSISequence::NotItalic, 1))
        } else if c == 24 {
            Some((ANSISequence::NotUnderline, 1))
        } else if 30 <= c && c <= 37 {
            Some((ANSISequence::SetFG8(c - 30), 1))
        } else if c == 38 && len >= 3 && p[i + 1] == 5 {
            assert(q[1] == p@[i + 1] && q[2] == p@[i + 2]);
            Some((ANSISequence::SetFG8(p[i + 2]), 3))
        } else if c == 38 && len >= 5 && p[i + 1] == 2 {
            assert(q[1] == p@[i + 1] && q[2] == p@[i + 2] && q[3] == p@[i + 3] && q[4] == p@[i + 4]);
            Some((ANSISequence::SetFG24(p[i + 2], p[i + 3], p[i + 4]), 5))
        } else if c == 39 {
            Some((ANSISequence::DefaultFG, 1))
        } else if 40 <= c && c <= 47 {
            Some((ANSISequence::SetBG8(c - 40), 1))
        } else if c == 48 && len >= 3 && p[i + 1] == 5 {
            assert(q[1] == p@[i + 1] && q[2] == p@[i + 2]);
            Some((ANSISequence::SetBG8(p[i + 2]), 3))
        } else if c == 48 && len >= 5 && p[i + 1] == 2 {
            assert(q[1] == p@[i + 1] && q[2] == p@[i + 2] && q[3] == p@[i + 3] && q[4] == p@[i + 4]);
            Some((ANSISequence::SetBG24(p[i + 2], p[i + 3], p[i + 4]), 5))
        } else if c == 49 {
            Some((ANSISequence::DefaultBG, 1))
        } else if 90 <= c && c <= 97 {
            Some((ANSISequence::SetFG8(c - 90 + 8), 1))
        } else if 100 <= c && c <= 107 {
            Some((ANSISequence::SetBG8(c - 100 + 8), 1))
        } else {
            if c == 38 || c == 48 {
                assert(len >= 2 ==> q[1] == p@[i + 1]);
            }
            None
        }
    }

    /// The events of a whole parameter list, all or nothing.
    fn events_from_params(p: &Vec<u8>) -> (r: Option<Vec<ANSISequence>>)
        ensures
            match r {
                Some(v) => events_of(p@) == Some(v@),
                None => events_of(p@) is None,
            },
    {
        let mut out: Vec<ANSISequence> = Vec::new();
        let mut i: usize = 0;
        proof {
            assert(p@.skip(0) =~= p@);
            if let Some(m) = events_of(p@) {
                assert(out@ + m =~= m);
            }
        }
        while i < p.len()
            invariant
                i <= p@.len(),
                events_of(p@) == prepend(out@, events_of(p@.skip(i as int))),
            decreases p@.len() - i,
        {
            match Self::match_seqs(p, i) {
                Some((e, n)) => {
                    if n == 0 || n > p.len() - i {
                        return None;
                    }
                    proof {
                        let q = p@.skip(i as int);
                        assert(q.skip(n as int) =~= p@.skip(i + n));
                        match events_of(p@.skip(i + n)) {
                            Some(more) => {
                                assert(out@ + (seq![e] + more) =~= out@.push(e) + more);
                            },
                            None => {},
                        }
                    }
                    out.push(e);
                    i = i + n;
                },
                None => {
                    return None;
                },
            }
        }
        assert(p@.skip(i as int) =~= Seq::<u8>::empty());
        assert(out@ + Seq::<ANSISequence>::empty() =~= out@);
        Some(out)
    }

    /// The events that the parameter text `cs[start..end]` stands for.
    fn events_in(cs: &Vec<char>, start: usize, end: usize) -> (r: Option<Vec<ANSISequence>>)
        requires
            start <= end <= cs@.len(),
        ensures
            match r {
                Some(v) => sgr_events(cs@.subrange(start as int, end as int)) == Some(v@),
                None => sgr_events(cs@.subrange(start as int, end as int)) is None,
            },
    {
        match parse_params(cs, start, end) {
            Some(p) => Self::events_from_params(&p),
            None => None,
        }
    }

    /// The events that the parameter text of one escape sequence (what stands
    /// between `ESC [` and `m`) stands for; `None` where any part of it is
    /// not recognised.
    pub fn from(seq: String) -> (r: Option<Vec<Self>>)
        ensures
            match r {
                Some(v) => sgr_events(seq@) == Some(v@),
                None => sgr_events(seq@) is None,
            },
    {
        let cs = chars_of(seq.as_str());
        assert(cs@.subrange(0, cs@.len() as int) =~= cs@);
        Self::events_in(&cs, 0, cs.len())
    }
}

/// Records `es` at offset `k`, after whatever is there already.
fn record_events(m: &mut HashMap<usize, Vec<ANSISequence>>, k: usize, es: Vec<ANSISequence>)
    ensures
        events_view(final(m)@) == add_events(events_view(old(m)@), k, es@),
{
    match m.remove(&k) {
        Some(v) => {
            let mut v = v;
            let mut es = es;
            v.append(&mut es);
            m.insert(k, v);
        },
        None => {
            m.insert(k, es);
        },
    }
    assert(events_view(final(m)@) =~= add_events(events_view(old(m)@), k, es@));
}

/// Removes every recognised escape sequence from `raw` and returns the
/// scrubbed text with the events of each, keyed by the byte offset in the
/// scrubbed text where they take effect; events that land on one offset are
/// kept in order. Sequences that are not recognised are kept as text.
pub fn extract_ansi(raw: String) -> (r: (String, HashMap<usize, Vec<ANSISequence>>))
    ensures
        r.0@ == decode(raw@).0,
        events_view(r.1@) == decode(raw@).1,
{
    let total = str_byte_len(raw.as_str());
    let cs = chars_of(raw.as_str());
    let n = cs.len();
    let mut out: Vec<char> = Vec::new();
    let mut pos: usize = 0;
    let mut map: HashMap<usize, Vec<ANSISequence>> = HashMap::new();
    let mut in_esc = false;
    let mut pend: usize = 0;
    let mut i: usize = 0;
    proof {
        assert(cs@.skip(0) =~= cs@);
        assert(events_view(map@) =~= Map::<usize, Seq<ANSISequence>>::empty());
    }
    while i < n
        invariant
            n == cs@.len(),
            cs@ == raw@,
            total == utf8_len(cs@),
            pend <= i <= n,
            in_esc ==> pend + 2 <= i && cs@[pend as int] == esc() && cs@[pend + 1] == '[',
            !in_esc ==> pend == i,
            pos == utf8_len(out@),
            utf8_len(out@) + utf8_len(cs@.skip(pend as int)) <= total,
            decode(raw@) == scan(
                cs@.skip(i as int),
                if in_esc { Some(cs@.subrange(pend + 2, i as int)) } else { None },
                out@,
                events_view(map@),
            ),
        decreases n - i,
    {
        let ghost rest = cs@.skip(i as int);
        let ghost out0 = out@;
        let c = cs[i];
        assert(rest[0] == c);
        assert(rest.drop_first() =~= cs@.skip(i + 1));
        proof {
            lemma_utf8_len_split(cs@, pend as int, i as int);
            lemma_utf8_len_split(cs@, i as int, i + 1);
        }
        if !in_esc {
            if c == '\x1b' && i + 1 < n && cs[i + 1] == '[' {
                assert(rest[1] == cs@[i + 1]);
                assert(rest.skip(2) =~= cs@.skip(i + 2));
                assert(cs@.subrange(i + 2, i + 2) =~= Seq::<char>::empty());
                in_esc = true;
                i = i + 2;
            } else {
                assert(i + 1 < n ==> rest[1] == cs@[i + 1]);
                append_chars(&mut out, &mut pos, &cs, i, i + 1);
                assert(cs@.subrange(i as int, i + 1) =~= seq![c]);
                assert(out0 + seq![c] =~= out0.push(c));
                proof {
                    lemma_utf8_len_concat(out0, seq![c]);
                }
                i = i + 1;
                pend = i;
            }
        } else {
            let ghost a = cs@.subrange(pend + 2, i as int);
            if c == 'm' {
                match ANSISequence::events_in(&cs, pend + 2, i) {
                    Some(es) => {
                        record_events(&mut map, pos, es);
                    },
                    None => {
                        proof {
                            lemma_utf8_len_split(cs@, pend as int, i + 1);
                        }
                        append_chars(&mut out, &mut pos, &cs, pend, i + 1);
                        assert(cs@.subrange(pend as int, i + 1) =~= seq![esc(), '['] + a.push('m'));
                        assert(out0 + seq![esc(), '['] + a.push('m') =~= out0 + cs@.subrange(
                            pend as int,
                            i + 1,
                        ));
                        proof {
                            lemma_utf8_len_concat(out0, cs@.subrange(pend as int, i + 1));
                        }
                    },
                }
                in_esc = false;
                i = i + 1;
                pend = i;
            } else {
                assert(a.push(c) =~= cs@.subrange(pend + 2, i + 1));
                i = i + 1;
            }
        }
    }
    if in_esc {
        proof {
            lemma_utf8_len_split(cs@, pend as int, n as int);
            assert(cs@.skip(n as int).len() == 0);
        }
        let ghost out0 = out@;
        append_chars(&mut out, &mut pos, &cs, pend, n);
        assert(cs@.subrange(pend as int, n as int) =~= seq![esc(), '['] + cs@.subrange(
            pend + 2,
            n as int,
        ));
        assert(out0 + seq![esc(), '['] + cs@.subrange(pend + 2, n as int) =~= out0
            + cs@.subrange(pend as int, n as int));
    }
    assert(cs@.skip(n as int).len() == 0);
    let scrubbed = string_of(&out, 0, out.len());
    assert(out@.subrange(0, out@.len() as int) =~= out@);
    (scrubbed, map)
}

} // verus!
