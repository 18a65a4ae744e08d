//! The line classifier and the value coercer.
//!
//! A raw line is trimmed of surrounding whitespace and then classified:
//! blank lines and `#` comments are skipped, a line of the shape
//! `key = value` (key made of letters, digits, `.`, `_`, `-`; value any
//! non-empty text, trailing whitespace dropped) yields a key-value pair,
//! and anything else is unmatched.  Raw value text coerces to a boolean
//! for the case-insensitive literals `true` / `false`, and to verbatim
//! text otherwise.

use vstd::prelude::*;

use crate::value::ConfigValue;
use crate::value::Val;
use crate::value::val_view;

verus! {

/// Outcome of classifying one raw line.
///
/// `Unmatched` is a non-blank, non-comment line that does not fit the
/// `key = value` shape; the tolerant config parser skips it, while the
/// strict schema loader rejects it.
#[derive(Debug, PartialEq, Eq)]
pub enum LineClass {
    Skip,
    KeyValue(String, String),
    Unmatched,
}

/// Model of a classified line.
pub enum LineKind {
    Skip,
    Pair(Seq<char>, Seq<char>),
    Unmatched,
}

/// The whitespace characters that trimming removes.
pub open spec fn is_space(c: char) -> bool {
    c == ' ' || c == '\t' || c == '\r' || c == '\n'
}

/// The characters a key may be made of.
pub open spec fn is_key_char(c: char) -> bool {
    ('a' as u32 <= c as u32 && c as u32 <= 'z' as u32)
        || ('A' as u32 <= c as u32 && c as u32 <= 'Z' as u32)
        || ('0' as u32 <= c as u32 && c as u32 <= '9' as u32)
        || c == '.' || c == '_' || c == '-'
}

/// Index of the first non-whitespace character at or after `from`, or
/// `s.len()` if the rest is all whitespace.
pub open spec fn first_non_ws(s: Seq<char>, from: int) -> int
    decreases s.len() - from,
{
    if from < 0 || from >= s.len() {
        s.len() as int
    } else if is_space(s[from]) {
        first_non_ws(s, from + 1)
    } else {
        from
    }
}

/// Index just after the last non-whitespace character strictly before
/// `upto`, or `0` if there is none.
pub open spec fn end_trim(s: Seq<char>, upto: int) -> int
    decreases upto,
{
    if upto <= 0 || upto > s.len() {
        0
    } else if is_space(s[upto - 1]) {
        end_trim(s, upto - 1)
    } else {
        upto
    }
}

/// `s` with leading and trailing whitespace removed.
pub open spec fn trimmed(s: Seq<char>) -> Seq<char> {
    let a = first_non_ws(s, 0);
    let b = end_trim(s, s.len() as int);
    if 0 <= a && a < b && b <= s.len() {
        s.subrange(a, b)
    } else {
        Seq::empty()
    }
}

/// Index of the first character at or after `from` that may not appear
/// in a key, or `s.len()`.
pub open spec fn key_end(s: Seq<char>, from: int) -> int
    decreases s.len() - from,
{
    if from < 0 || from >= s.len() {
        s.len() as int
    } else if is_key_char(s[from]) {
        key_end(s, from + 1)
    } else {
        from
    }
}

/// Classification of one raw line: after trimming, a blank line or a `#`
/// comment is `Skip`; a line of the shape `key = value` is a `Pair` of
/// the key and the value with its trailing whitespace dropped; anything
/// else is `Unmatched`.
pub open spec fn classify_spec(line: Seq<char>) -> LineKind {
    let t = trimmed(line);
    if t.len() == 0 {
        LineKind::Skip
    } else if t[0] == '#' {
        LineKind::Skip
    } else {
        let ke = key_end(t, 0);
        if ke == 0 {
            LineKind::Unmatched
        } else {
            let ep = first_non_ws(t, ke);
            if ep >= t.len() || t[ep] != '=' {
                LineKind::Unmatched
            } else {
                let vs = first_non_ws(t, ep + 1);
                if vs >= t.len() {
                    LineKind::Unmatched
                } else {
                    LineKind::Pair(t.subrange(0, ke), t.subrange(vs, t.len() as int))
                }
            }
        }
    }
}

/// A blank or whitespace-only line, and a line whose first character
/// after leading whitespace is `#`, is always skipped.
pub proof fn lemma_blank_or_comment_is_skip(line: Seq<char>)
    requires
        trimmed(line).len() == 0 || trimmed(line)[0] == '#',
    ensures
        classify_spec(line) == LineKind::Skip,
{
}

proof fn lemma_first_non_ws_bounds(s: Seq<char>, from: int)
    requires
        0 <= from <= s.len(),
    ensures
        from <= first_non_ws(s, from) <= s.len(),
    decreases s.len() - from,
{
    if from < s.len() && is_space(s[from]) {
        lemma_first_non_ws_bounds(s, from + 1);
    }
}

proof fn lemma_end_trim_bounds(s: Seq<char>, upto: int)
    requires
        0 <= upto <= s.len(),
    ensures
        0 <= end_trim(s, upto) <= upto,
    decreases upto,
{
    if 0 < upto <= s.len() && is_space(s[upto - 1]) {
        lemma_end_trim_bounds(s, upto - 1);
    }
}

fn is_space_ch(c: char) -> (b: bool)
    ensures
        b == is_space(c),
{
    c == ' ' || c == '\t' || c == '\r' || c == '\n'
}

fn is_key_ch(c: char) -> (b: bool)
    ensures
        b == is_key_char(c),
{
    ('a' as u32 <= c as u32 && c as u32 <= 'z' as u32)
        || ('A' as u32 <= c as u32 && c as u32 <= 'Z' as u32)
        || ('0' as u32 <= c as u32 && c as u32 <= '9' as u32)
        || c == '.' || c == '_' || c == '-'
}

/// Classifies one raw line of configuration or schema text.
pub fn classify_line(line: &str) -> (r: LineClass)
    ensures
        match r {
            LineClass::Skip => classify_spec(line@) == LineKind::Skip,
            LineClass::KeyValue(k, v) => classify_spec(line@) == LineKind::Pair(k@, v@),
            LineClass::Unmatched => classify_spec(line@) == LineKind::Unmatched,
        },
{
    let n = line.unicode_len();
    let mut lo: usize = 0;
    while lo < n && is_space_ch(line.get_char(lo))
        invariant
            0 <= lo <= n,
            n == line@.len(),
            first_non_ws(line@, 0) == first_non_ws(line@, lo as int),
        decreases n - lo,
    {
        proof {
            assert(first_non_ws(line@, lo as int) == first_non_ws(line@, lo + 1));
        }
        lo = lo + 1;
    }
    proof {
        assert(first_non_ws(line@, 0) == lo as int);
        lemma_end_trim_bounds(line@, n as int);
    }
    if lo == n {
        // Whitespace-only: the trim is empty.
        return LineClass::Skip;
    }
    let mut hi: usize = n;
    while hi > lo && is_space_ch(line.get_char(hi - 1))
        invariant
            lo < hi <= n,
            n == line@.len(),
            lo < n,
            !is_space(line@[lo as int]),
            end_trim(line@, n as int) == end_trim(line@, hi as int),
        decreases hi,
    {
        proof {
            assert(end_trim(line@, hi as int) == end_trim(line@, hi - 1));
        }
        hi = hi - 1;
    }
    proof {
        assert(end_trim(line@, n as int) == hi as int);
    }
    let ghost t = trimmed(line@);
    proof {
        assert(t =~= line@.subrange(lo as int, hi as int));
    }
    if line.get_char(lo) == '#' {
        return LineClass::Skip;
    }
    let mut ke: usize = lo;
    while ke < hi && is_key_ch(line.get_char(ke))
        invariant
            lo <= ke <= hi <= n,
            n == line@.len(),
            t == line@.subrange(lo as int, hi as int),
            key_end(t, 0) == key_end(t, ke - lo),
        decreases hi - ke,
    {
        proof {
            assert(t[ke - lo] == line@[ke as int]);
            assert(key_end(t, ke - lo) == key_end(t, ke - lo + 1));
        }
        ke = ke + 1;
    }
    proof {
        assert(key_end(t, 0) == ke - lo);
    }
    if ke == lo {
        return LineClass::Unmatched;
    }
    let mut ep: usize = ke;
    while ep < hi && is_space_ch(line.get_char(ep))
        invariant
            ke <= ep <= hi <= n,
            lo <= ke,
            n == line@.len(),
            t == line@.subrange(lo as int, hi as int),
            first_non_ws(t, ke - lo) == first_non_ws(t, ep - lo),
        decreases hi - ep,
    {
        proof {
            assert(t[ep - lo] == line@[ep as int]);
            assert(first_non_ws(t, ep - lo) == first_non_ws(t, ep - lo + 1));
        }
        ep = ep + 1;
    }
    proof {
        assert(first_non_ws(t, ke - lo) == ep - lo);
    }
    if ep == hi {
        return LineClass::Unmatched;
    }
    if !(line.get_char(ep) == '=') {
        proof {
            assert(t[ep - lo] == line@[ep as int]);
        }
        return LineClass::Unmatched;
    }
    let mut vs: usize = ep + 1;
    while vs < hi && is_space_ch(line.get_char(vs))
        invariant
            ep < vs <= hi <= n,
            lo <= ep,
            n == line@.len(),
            t == line@.subrange(lo as int, hi as int),
            first_non_ws(t, ep + 1 - lo) == first_non_ws(t, vs - lo),
        decreases hi - vs,
    {
        proof {
            assert(t[vs - lo] == line@[vs as int]);
            assert(first_non_ws(t, vs - lo) == first_non_ws(t, vs - lo + 1));
        }
        vs = vs + 1;
    }
    proof {
        assert(first_non_ws(t, ep + 1 - lo) == vs - lo);
    }
    if vs == hi {
        return LineClass::Unmatched;
    }
    let key = line.substring_char(lo, ke).to_owned();
    let raw = line.substring_char(vs, hi).to_owned();
    proof {
        assert(key@ =~= t.subrange(0, ke - lo));
        assert(raw@ =~= t.subrange(vs - lo, t.len() as int));
    }
    LineClass::KeyValue(key, raw)
}

/// `c` equals the ASCII lowercase letter `l`, ignoring ASCII case.
pub open spec fn matches_ci(c: char, l: char) -> bool {
    c == l || c as u32 + 32 == l as u32
}

/// The text is `true` up to ASCII case.
pub open spec fn is_true_lit(s: Seq<char>) -> bool {
    s.len() == 4 && matches_ci(s[0], 't') && matches_ci(s[1], 'r') && matches_ci(s[2], 'u')
        && matches_ci(s[3], 'e')
}

/// The text is `false` up to ASCII case.
pub open spec fn is_false_lit(s: Seq<char>) -> bool {
    s.len() == 5 && matches_ci(s[0], 'f') && matches_ci(s[1], 'a') && matches_ci(s[2], 'l')
        && matches_ci(s[3], 's') && matches_ci(s[4], 'e')
}

/// Coercion of raw value text: the boolean literals, case-insensitively,
/// become flags; everything else stays verbatim text.
pub open spec fn coerce_spec(raw: Seq<char>) -> Val {
    if is_true_lit(raw) {
        Val::Flag(true)
    } else if is_false_lit(raw) {
        Val::Flag(false)
    } else {
        Val::Text(raw)
    }
}

fn matches_ci_ch(c: char, l: char) -> (b: bool)
    ensures
        b == matches_ci(c, l),
{
    c == l || (c as u32) + 32 == (l as u32)
}

/// The string is `true` up to ASCII case.
pub fn is_true_literal(s: &str) -> (b: bool)
    ensures
        b == is_true_lit(s@),
{
    s.unicode_len() == 4 && matches_ci_ch(s.get_char(0), 't') && matches_ci_ch(
        s.get_char(1),
        'r',
    ) && matches_ci_ch(s.get_char(2), 'u') && matches_ci_ch(s.get_char(3), 'e')
}

/// The string is `false` up to ASCII case.
pub fn is_false_literal(s: &str) -> (b: bool)
    ensures
        b == is_false_lit(s@),
{
    s.unicode_len() == 5 && matches_ci_ch(s.get_char(0), 'f') && matches_ci_ch(
        s.get_char(1),
        'a',
    ) && matches_ci_ch(s.get_char(2), 'l') && matches_ci_ch(s.get_char(3), 's') && matches_ci_ch(
        s.get_char(4),
        'e',
    )
}

/// The string is `string` up to ASCII case.
pub fn is_string_token_exec(s: &str) -> (b: bool)
    ensures
        b == crate::schema::is_string_token(s@),
{
    s.unicode_len() == 6 && matches_ci_ch(s.get_char(0), 's') && matches_ci_ch(
        s.get_char(1),
        't',
    ) && matches_ci_ch(s.get_char(2), 'r') && matches_ci_ch(s.get_char(3), 'i') && matches_ci_ch(
        s.get_char(4),
        'n',
    ) && matches_ci_ch(s.get_char(5), 'g')
}

/// The string is `bool` up to ASCII case.
pub fn is_bool_token_exec(s: &str) -> (b: bool)
    ensures
        b == crate::schema::is_bool_token(s@),
{
    s.unicode_len() == 4 && matches_ci_ch(s.get_char(0), 'b') && matches_ci_ch(
        s.get_char(1),
        'o',
    ) && matches_ci_ch(s.get_char(2), 'o') && matches_ci_ch(s.get_char(3), 'l')
}

/// Converts raw trimmed value text into a typed configuration value.
pub fn coerce_value(raw: String) -> (r: ConfigValue)
    ensures
        val_view(r) == coerce_spec(raw@),
{
    if is_true_literal(raw.as_str()) {
        ConfigValue::Flag(true)
    } else if is_false_literal(raw.as_str()) {
        ConfigValue::Flag(false)
    } else {
        ConfigValue::Text(raw)
    }
}

} // verus!
