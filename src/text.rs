//! Character-level helpers: UTF-8 lengths of character sequences, and
//! conversions between `str` and character vectors.

use vstd::prelude::*;
use vstd::std_specs::iter::IteratorSpec;
use vstd::utf8::*;

verus! {

/// Number of bytes that `c` takes in UTF-8.
pub open spec fn char_width(c: char) -> nat {
    if (c as u32) <= 0x7F {
        1
    } else if (c as u32) <= 0x7FF {
        2
    } else if (c as u32) <= 0xFFFF {
        3
    } else {
        4
    }
}

/// Number of bytes that `s` takes in UTF-8.
pub open spec fn utf8_len(s: Seq<char>) -> nat
    decreases s.len(),
{
    if s.len() == 0 {
        0
    } else {
        utf8_len(s.drop_last()) + char_width(s.last())
    }
}

pub proof fn lemma_utf8_len_concat(a: Seq<char>, b: Seq<char>)
    ensures
        utf8_len(a + b) == utf8_len(a) + utf8_len(b),
    decreases b.len(),
{
    if b.len() > 0 {
        assert((a + b).drop_last() =~= a + b.drop_last());
        lemma_utf8_len_concat(a, b.drop_last());
    } else {
        assert(a + b =~= a);
    }
}

proof fn lemma_utf8_len_first(s: Seq<char>)
    requires
        s.len() > 0,
    ensures
        utf8_len(s) == char_width(s[0]) + utf8_len(s.drop_first()),
{
    assert(s =~= seq![s[0]] + s.drop_first());
    lemma_utf8_len_concat(seq![s[0]], s.drop_first());
    let one = seq![s[0]];
    assert(one.drop_last() =~= Seq::<char>::empty());
    assert(one.last() == s[0]);
    assert(utf8_len(one) == utf8_len(one.drop_last()) + char_width(one.last()));
}

/// The byte length computed here is the length of vstd's UTF-8 encoding.
pub proof fn lemma_utf8_len_encoding(s: Seq<char>)
    ensures
        utf8_len(s) == encode_utf8(s).len(),
    decreases s.len(),
{
    if s.len() > 0 {
        lemma_utf8_len_first(s);
        lemma_utf8_len_encoding(s.drop_first());
        char_is_scalar(s[0]);
    }
}

/// `utf8_len` grows with the prefix taken.
pub proof fn lemma_utf8_len_prefix(s: Seq<char>, i: int, j: int)
    requires
        0 <= i <= j <= s.len(),
    ensures
        utf8_len(s.take(i)) <= utf8_len(s.take(j)) <= utf8_len(s),
{
    assert(s.take(j) =~= s.take(i) + s.subrange(i, j));
    lemma_utf8_len_concat(s.take(i), s.subrange(i, j));
    assert(s =~= s.take(j) + s.skip(j));
    lemma_utf8_len_concat(s.take(j), s.skip(j));
}

/// Splitting a sequence splits its byte length.
pub proof fn lemma_utf8_len_split(s: Seq<char>, a: int, b: int)
    requires
        0 <= a <= b <= s.len(),
    ensures
        utf8_len(s.skip(a)) == utf8_len(s.subrange(a, b)) + utf8_len(s.skip(b)),
        utf8_len(s.subrange(a, b)) + utf8_len(s.take(a)) == utf8_len(s.take(b)),
{
    assert(s.skip(a) =~= s.subrange(a, b) + s.skip(b));
    lemma_utf8_len_concat(s.subrange(a, b), s.skip(b));
    assert(s.take(b) =~= s.take(a) + s.subrange(a, b));
    lemma_utf8_len_concat(s.take(a), s.subrange(a, b));
}

/// The byte length of one character.
pub proof fn lemma_utf8_len_one(c: char)
    ensures
        utf8_len(seq![c]) == char_width(c),
{
    let one = seq![c];
    assert(one.drop_last() =~= Seq::<char>::empty());
    assert(utf8_len(one) == utf8_len(one.drop_last()) + char_width(one.last()));
}

/// Appends `cs[a..b]` to `out`, keeping `pos` at the byte length of `out`.
pub fn append_chars(out: &mut Vec<char>, pos: &mut usize, cs: &Vec<char>, a: usize, b: usize)
    requires
        a <= b <= cs@.len(),
        *old(pos) == utf8_len(old(out)@),
        utf8_len(old(out)@) + utf8_len(cs@.subrange(a as int, b as int)) <= usize::MAX,
    ensures
        final(out)@ == old(out)@ + cs@.subrange(a as int, b as int),
        *final(pos) == utf8_len(final(out)@),
{
    let ghost out0 = out@;
    let mut k = a;
    proof {
        assert(out0 + cs@.subrange(a as int, a as int) =~= out0);
    }
    while k < b
        invariant
            a <= k <= b <= cs@.len(),
            out@ == out0 + cs@.subrange(a as int, k as int),
            *pos == utf8_len(out@),
            utf8_len(out0) + utf8_len(cs@.subrange(a as int, b as int)) <= usize::MAX,
        decreases b - k,
    {
        let c = cs[k];
        proof {
            let t = cs@.subrange(a as int, b as int);
            lemma_utf8_len_split(t, 0, k - a + 1);
            assert(t.skip(0) =~= t);
            assert(t.subrange(0, k - a + 1) =~= cs@.subrange(a as int, k + 1));
            lemma_utf8_len_concat(out0, cs@.subrange(a as int, k + 1));
            assert(cs@.subrange(a as int, k + 1) =~= cs@.subrange(a as int, k as int).push(c));
            assert(out@.push(c) =~= out0 + cs@.subrange(a as int, k + 1));
            assert(out@.push(c).drop_last() =~= out@);
        }
        out.push(c);
        *pos = *pos + width_of(c);
        k = k + 1;
    }
}

/// The UTF-8 length of a `str` fits in a `usize`.
pub fn str_byte_len(s: &str) -> (r: usize)
    ensures
        r == utf8_len(s@),
{
    let b = s.as_bytes();
    proof {
        lemma_utf8_len_encoding(s@);
    }
    b.len()
}

/// Width in bytes of `c` in UTF-8.
pub fn width_of(c: char) -> (r: usize)
    ensures
        r == char_width(c),
        1 <= r <= 4,
{
    let u = c as u32;
    if u <= 0x7F {
        1
    } else if u <= 0x7FF {
        2
    } else if u <= 0xFFFF {
        3
    } else {
        4
    }
}

/// The characters of `s`, in order.
pub fn chars_of(s: &str) -> (r: Vec<char>)
    ensures
        r@ == s@,
{
    let mut out: Vec<char> = Vec::new();
    proof {
        vstd::string::axiom_spec_iter(s);
    }
    for c in it: s.chars()
        invariant
            out@ == it.seq().take(it.index() as int),
    {
        out.push(c);
    }
    out
}

/// Relies on `String::push`: appends one character.
#[verifier::external_body]
pub(crate) fn push_char(s: &mut String, c: char)
    ensures
        final(s)@ == old(s)@.push(c),
{
    s.push(c);
}

/// The `String` holding `cs[start..end]`.
pub fn string_of(cs: &Vec<char>, start: usize, end: usize) -> (r: String)
    requires
        start <= end <= cs@.len(),
    ensures
        r@ == cs@.subrange(start as int, end as int),
{
    let mut r = String::new();
    let mut k = start;
    while k < end
        invariant
            start <= k <= end <= cs@.len(),
            r@ == cs@.subrange(start as int, k as int),
        decreases end - k,
    {
        push_char(&mut r, cs[k]);
        k = k + 1;
        assert(r@ =~= cs@.subrange(start as int, k as int));
    }
    r
}

pub open spec fn is_digit(c: char) -> bool {
    '0' <= c <= '9'
}

pub open spec fn all_digits(s: Seq<char>) -> bool {
    forall|i: int| 0 <= i < s.len() ==> is_digit(#[trigger] s[i])
}

/// Value of a run of decimal digits.
pub open spec fn digits_value(s: Seq<char>) -> int
    decreases s.len(),
{
    if s.len() == 0 {
        0
    } else {
        digits_value(s.drop_last()) * 10 + ((s.last() as u32) - ('0' as u32))
    }
}

/// What `u8::from_str` accepts: an optional `+`, then one or more decimal
/// digits whose value is at most 255.
pub open spec fn parse_u8_spec(s: Seq<char>) -> Option<u8> {
    let d = if s.len() > 0 && s[0] == '+' { s.drop_first() } else { s };
    if d.len() > 0 && all_digits(d) && digits_value(d) <= 255 {
        Some(digits_value(d) as u8)
    } else {
        None
    }
}

/// What `i64::from_str` accepts: an optional `+` or `-`, then one or more
/// decimal digits, the signed value in range.
pub open spec fn parse_i64_spec(s: Seq<char>) -> Option<i64> {
    let neg = s.len() > 0 && s[0] == '-';
    let d = if s.len() > 0 && (s[0] == '+' || s[0] == '-') { s.drop_first() } else { s };
    let v = if neg { -digits_value(d) } else { digits_value(d) };
    if d.len() > 0 && all_digits(d) && i64::MIN <= v <= i64::MAX {
        Some(v as i64)
    } else {
        None
    }
}

proof fn lemma_digits_value_nonneg(s: Seq<char>)
    requires
        all_digits(s),
    ensures
        digits_value(s) >= 0,
    decreases s.len(),
{
    if s.len() > 0 {
        assert(is_digit(s[s.len() - 1]));
        lemma_digits_value_nonneg(s.drop_last());
    }
}

/// Taking more digits never lowers the value.
proof fn lemma_digits_value_prefix(s: Seq<char>, k: int)
    requires
        all_digits(s),
        0 <= k <= s.len(),
    ensures
        digits_value(s.take(k)) <= digits_value(s),
    decreases s.len(),
{
    if k < s.len() {
        assert(is_digit(s[s.len() - 1]));
        assert(s.drop_last().take(k) =~= s.take(k));
        lemma_digits_value_prefix(s.drop_last(), k);
        lemma_digits_value_nonneg(s.drop_last());
    } else {
        assert(s.take(k) =~= s);
    }
}

/// Reads the decimal digits `cs[start..end]` as a value no larger than
/// `limit`; `None` where a character is no digit or the value is larger.
fn digits_up_to(cs: &Vec<char>, start: usize, end: usize, limit: u64) -> (r: Option<u64>)
    requires
        start <= end <= cs@.len(),
    ensures
        ({
            let d = cs@.subrange(start as int, end as int);
            match r {
                Some(v) => all_digits(d) && v == digits_value(d) && v <= limit,
                None => !all_digits(d) || digits_value(d) > limit,
            }
        }),
{
    let ghost d = cs@.subrange(start as int, end as int);
    let mut acc: u64 = 0;
    let mut k = start;
    while k < end
        invariant
            start <= k <= end <= cs@.len(),
            d == cs@.subrange(start as int, end as int),
            all_digits(d.take(k - start)),
            acc == digits_value(d.take(k - start)),
            acc <= limit,
        decreases end - k,
    {
        let c = cs[k];
        if !('0' <= c && c <= '9') {
            assert(d[k - start] == c);
            return None;
        }
        let dv = (c as u32 - '0' as u32) as u64;
        assert(d.take(k + 1 - start).drop_last() =~= d.take(k - start));
        assert(d.take(k + 1 - start).last() == c);
        let next: u128 = acc as u128 * 10 + dv as u128;
        if next > limit as u128 {
            proof {
                if all_digits(d) {
                    lemma_digits_value_prefix(d, k + 1 - start);
                }
            }
            return None;
        }
        acc = next as u64;
        k = k + 1;
        assert(all_digits(d.take(k - start)));
    }
    assert(d.take(k - start) =~= d);
    Some(acc)
}

/// Parses `cs[start..end]` as `u8::from_str` does.
pub fn parse_u8(cs: &Vec<char>, start: usize, end: usize) -> (r: Option<u8>)
    requires
        start <= end <= cs@.len(),
    ensures
        r == parse_u8_spec(cs@.subrange(start as int, end as int)),
{
    let ghost s = cs@.subrange(start as int, end as int);
    let mut a = start;
    if start < end && cs[start] == '+' {
        a = start + 1;
    }
    assert(cs@.subrange(a as int, end as int) =~= if s.len() > 0 && s[0] == '+' {
        s.drop_first()
    } else {
        s
    });
    if a == end {
        return None;
    }
    match digits_up_to(cs, a, end, 255) {
        Some(v) => Some(v as u8),
        None => None,
    }
}

/// Parses `cs[start..end]` as `i64::from_str` does.
pub fn parse_i64(cs: &Vec<char>, start: usize, end: usize) -> (r: Option<i64>)
    requires
        start <= end <= cs@.len(),
    ensures
        r == parse_i64_spec(cs@.subrange(start as int, end as int)),
{
    let ghost s = cs@.subrange(start as int, end as int);
    let neg = start < end && cs[start] == '-';
    let mut a = start;
    if start < end && (cs[start] == '+' || cs[start] == '-') {
        a = start + 1;
    }
    let ghost d = cs@.subrange(a as int, end as int);
    assert(d =~= if s.len() > 0 && (s[0] == '+' || s[0] == '-') {
        s.drop_first()
    } else {
        s
    });
    if a == end {
        return None;
    }
    let limit: u64 = if neg { 0x8000_0000_0000_0000 } else { 0x7FFF_FFFF_FFFF_FFFF };
    match digits_up_to(cs, a, end, limit) {
        Some(v) => {
            if neg {
                if v == 0x8000_0000_0000_0000 {
                    Some(i64::MIN)
                } else {
                    Some(-(v as i64))
                }
            } else {
                Some(v as i64)
            }
        },
        None => None,
    }
}

/// `s` without one `\r` at its end.
pub open spec fn strip_cr(s: Seq<char>) -> Seq<char> {
    if s.len() > 0 && s.last() == '\r' {
        s.drop_last()
    } else {
        s
    }
}

/// The lines of the rest of a text, `cur` being the part of the current line
/// read so far.
pub open spec fn lines_scan(rest: Seq<char>, cur: Seq<char>) -> Seq<Seq<char>>
    decreases rest.len(),
{
    if rest.len() == 0 {
        if cur.len() == 0 {
            Seq::empty()
        } else {
            seq![cur]
        }
    } else if rest[0] == '\n' {
        seq![strip_cr(cur)] + lines_scan(rest.drop_first(), Seq::empty())
    } else {
        lines_scan(rest.drop_first(), cur.push(rest[0]))
    }
}

/// The lines of `s` as `str::lines` gives them: split after each `\n`, each
/// without its `\n` or `\r\n`; a last line ending is optional.
pub open spec fn lines_of(s: Seq<char>) -> Seq<Seq<char>> {
    lines_scan(s, Seq::empty())
}

/// The lines of `s`, as `str::lines` splits them.
pub fn split_lines(s: &str) -> (r: Vec<String>)
    ensures
        r@.map_values(|l: String| l@) == lines_of(s@),
{
    let cs = chars_of(s);
    let n = cs.len();
    let mut out: Vec<String> = Vec::new();
    let mut start: usize = 0;
    let mut k: usize = 0;
    assert(cs@.skip(0) =~= cs@);
    assert(cs@.subrange(0, 0) =~= Seq::<char>::empty());
    assert(out@.map_values(|l: String| l@) + lines_of(cs@) =~= lines_of(cs@));
    while k < n
        invariant
            n == cs@.len(),
            start <= k <= n,
            out@.map_values(|l: String| l@) + lines_scan(
                cs@.skip(k as int),
                cs@.subrange(start as int, k as int),
            ) == lines_of(s@),
            cs@ == s@,
        decreases n - k,
    {
        let ghost rest = cs@.skip(k as int);
        let ghost cur = cs@.subrange(start as int, k as int);
        assert(rest[0] == cs@[k as int]);
        assert(rest.drop_first() =~= cs@.skip(k + 1));
        if cs[k] == '\n' {
            let end = if k > start && cs[k - 1] == '\r' { k - 1 } else { k };
            assert(cs@.subrange(start as int, end as int) =~= strip_cr(cur));
            let line = string_of(&cs, start, end);
            let ghost before = out@.map_values(|l: String| l@);
            out.push(line);
            assert(out@.map_values(|l: String| l@) =~= before.push(line@));
            assert(before + (seq![line@] + lines_scan(cs@.skip(k + 1), Seq::empty()))
                =~= before.push(line@) + lines_scan(cs@.skip(k + 1), Seq::empty()));
            assert(cs@.subrange(k + 1, k + 1) =~= Seq::<char>::empty());
            start = k + 1;
        } else {
            assert(cur.push(cs@[k as int]) =~= cs@.subrange(start as int, k + 1));
        }
        k = k + 1;
    }
    assert(cs@.skip(n as int).len() == 0);
    if start < n {
        let line = string_of(&cs, start, n);
        let ghost before = out@.map_values(|l: String| l@);
        out.push(line);
        assert(out@.map_values(|l: String| l@) =~= before + seq![line@]);
    } else {
        assert(out@.map_values(|l: String| l@) + Seq::<Seq<char>>::empty() =~= out@.map_values(
            |l: String| l@,
        ));
    }
    out
}

} // verus!
