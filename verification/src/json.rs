//! The serializer.
//!
//! A configuration tree renders to JSON text: text leaves as JSON strings
//! (quotes, backslashes and control characters escaped), boolean leaves
//! as JSON booleans, tables as JSON objects in entry order.  The output
//! is a deterministic function of the tree.

use vstd::prelude::*;

use crate::value::ConfigValue;
use crate::value::Val;
use crate::value::entries_view;
use crate::value::lemma_entries_view_index;
use crate::value::val_view;

verus! {

/// The lowercase hexadecimal digit for `n`.
pub open spec fn hex_digit(n: int) -> char {
    if n == 0 { '0' }
    else if n == 1 { '1' }
    else if n == 2 { '2' }
    else if n == 3 { '3' }
    else if n == 4 { '4' }
    else if n == 5 { '5' }
    else if n == 6 { '6' }
    else if n == 7 { '7' }
    else if n == 8 { '8' }
    else if n == 9 { '9' }
    else if n == 10 { 'a' }
    else if n == 11 { 'b' }
    else if n == 12 { 'c' }
    else if n == 13 { 'd' }
    else if n == 14 { 'e' }
    else { 'f' }
}

/// The JSON escape of one string character.
pub open spec fn esc_char(c: char) -> Seq<char> {
    if c == '"' { seq!['\\', '"'] }
    else if c == '\\' { seq!['\\', '\\'] }
    else if c == '\n' { seq!['\\', 'n'] }
    else if c == '\t' { seq!['\\', 't'] }
    else if c == '\r' { seq!['\\', 'r'] }
    else if (c as u32) < 32 {
        seq!['\\', 'u', '0', '0', hex_digit(c as u32 as int / 16), hex_digit(c as u32 as int % 16)]
    } else {
        seq![c]
    }
}

/// The JSON escape of a whole string body.
pub open spec fn json_esc(s: Seq<char>) -> Seq<char>
    decreases s.len(),
{
    if s.len() == 0 {
        Seq::empty()
    } else {
        esc_char(s[0]) + json_esc(s.drop_first())
    }
}

/// A JSON string literal: the escaped body in double quotes.
pub open spec fn quoted(s: Seq<char>) -> Seq<char> {
    seq!['"'] + json_esc(s) + seq!['"']
}

/// The JSON text of a configuration value.
pub open spec fn json_of_val(v: Val) -> Seq<char>
    decreases v,
{
    match v {
        Val::Text(s) => quoted(s),
        Val::Flag(b) => if b {
            seq!['t', 'r', 'u', 'e']
        } else {
            seq!['f', 'a', 'l', 's', 'e']
        },
        Val::Table(es) => seq!['{'] + json_of_entries(es) + seq!['}'],
    }
}

/// The JSON text of an object body: comma-separated `"key":value` pairs
/// in entry order.
pub open spec fn json_of_entries(es: Seq<(Seq<char>, Val)>) -> Seq<char>
    decreases es,
{
    if es.len() == 0 {
        Seq::empty()
    } else if es.len() == 1 {
        quoted(es[0].0) + seq![':'] + json_of_val(es[0].1)
    } else {
        quoted(es[0].0) + seq![':'] + json_of_val(es[0].1) + seq![','] + json_of_entries(
            es.drop_first(),
        )
    }
}

/// Equal sequences with an equal prefix have equal remainders.
proof fn lemma_cancel_prefix(p: Seq<char>, t1: Seq<char>, t2: Seq<char>)
    requires
        p + t1 == p + t2,
    ensures
        t1 == t2,
{
    assert((p + t1).len() == p.len() + t1.len());
    assert((p + t2).len() == p.len() + t2.len());
    assert(t1.len() == t2.len());
    assert forall|i: int| 0 <= i < t1.len() implies t1[i] == t2[i] by {
        let j = p.len() + i;
        assert((p + t1)[j] == t1[j - p.len()]);
        assert((p + t2)[j] == t2[j - p.len()]);
    }
    assert(t1 =~= t2);
}

/// Shape of one escape block: its length, its first character, and what
/// a one-character block holds.
proof fn lemma_esc_char_shape(c: char)
    ensures
        esc_char(c).len() == 1 || esc_char(c).len() == 2 || esc_char(c).len() == 6,
        esc_char(c)[0] != '"',
        esc_char(c).len() == 1 ==> esc_char(c)[0] == c && c != '\\' && c != '"',
        esc_char(c).len() >= 2 ==> esc_char(c)[0] == '\\',
        esc_char(c).len() == 2 ==> (esc_char(c)[1] == '"' || esc_char(c)[1] == '\\'
            || esc_char(c)[1] == 'n' || esc_char(c)[1] == 't' || esc_char(c)[1] == 'r'),
        esc_char(c).len() == 6 ==> esc_char(c)[1] == 'u',
{
}

/// The hexadecimal digit determines its value.
proof fn lemma_hex_digit_inj(a: int, b: int)
    requires
        0 <= a < 16,
        0 <= b < 16,
        hex_digit(a) == hex_digit(b),
    ensures
        a == b,
{
}

/// Escape blocks form a prefix code: the first block of a stream
/// determines the escaped character and the rest of the stream.
proof fn lemma_esc_block(c1: char, c2: char, t1: Seq<char>, t2: Seq<char>)
    requires
        esc_char(c1) + t1 == esc_char(c2) + t2,
    ensures
        c1 == c2,
        t1 == t2,
{
    let e1 = esc_char(c1);
    let e2 = esc_char(c2);
    lemma_esc_char_shape(c1);
    lemma_esc_char_shape(c2);
    assert((e1 + t1)[0] == e1[0]);
    assert((e2 + t2)[0] == e2[0]);
    if e1.len() == 1 && e2.len() == 1 {
        assert(c1 == c2);
    } else if e1.len() == 1 || e2.len() == 1 {
        assert(false);
    } else {
        assert((e1 + t1)[1] == e1[1]);
        assert((e2 + t2)[1] == e2[1]);
        if e1.len() == 2 && e2.len() == 2 {
            assert(c1 == c2);
        } else if e1.len() == 2 || e2.len() == 2 {
            assert(false);
        } else {
            assert((e1 + t1)[4] == e1[4]);
            assert((e2 + t2)[4] == e2[4]);
            assert((e1 + t1)[5] == e1[5]);
            assert((e2 + t2)[5] == e2[5]);
            let n1 = c1 as u32 as int;
            let n2 = c2 as u32 as int;
            lemma_hex_digit_inj(n1 / 16, n2 / 16);
            lemma_hex_digit_inj(n1 % 16, n2 % 16);
            assert(n1 == 16 * (n1 / 16) + n1 % 16);
            assert(n2 == 16 * (n2 / 16) + n2 % 16);
            assert(c1 as u32 == c2 as u32);
            assert(c1 == c2);
        }
    }
    lemma_cancel_prefix(e1, t1, t2);
}

/// An escaped string body followed by its closing quote determines the
/// body and the rest of the stream.
proof fn lemma_esc_tail_unamb(s1: Seq<char>, s2: Seq<char>, t1: Seq<char>, t2: Seq<char>)
    requires
        json_esc(s1) + seq!['"'] + t1 == json_esc(s2) + seq!['"'] + t2,
    ensures
        s1 == s2,
        t1 == t2,
    decreases s1.len(),
{
    if s1.len() == 0 && s2.len() == 0 {
        assert(json_esc(s1) + seq!['"'] + t1 =~= seq!['"'] + t1);
        assert(json_esc(s2) + seq!['"'] + t2 =~= seq!['"'] + t2);
        lemma_cancel_prefix(seq!['"'], t1, t2);
        assert(s1 =~= s2);
    } else if s1.len() == 0 {
        lemma_esc_char_shape(s2[0]);
        assert((json_esc(s1) + seq!['"'] + t1)[0] == '"');
        assert(json_esc(s2)[0] == esc_char(s2[0])[0]);
        assert((json_esc(s2) + seq!['"'] + t2)[0] == esc_char(s2[0])[0]);
        assert(false);
    } else if s2.len() == 0 {
        lemma_esc_char_shape(s1[0]);
        assert((json_esc(s2) + seq!['"'] + t2)[0] == '"');
        assert(json_esc(s1)[0] == esc_char(s1[0])[0]);
        assert((json_esc(s1) + seq!['"'] + t1)[0] == esc_char(s1[0])[0]);
        assert(false);
    } else {
        let r1 = json_esc(s1.drop_first()) + seq!['"'] + t1;
        let r2 = json_esc(s2.drop_first()) + seq!['"'] + t2;
        assert(json_esc(s1) + seq!['"'] + t1 =~= esc_char(s1[0]) + r1);
        assert(json_esc(s2) + seq!['"'] + t2 =~= esc_char(s2[0]) + r2);
        lemma_esc_block(s1[0], s2[0], r1, r2);
        lemma_esc_tail_unamb(s1.drop_first(), s2.drop_first(), t1, t2);
        assert(s1.len() == s2.len());
        assert forall|i: int| 0 <= i < s1.len() implies s1[i] == s2[i] by {
            if i > 0 {
                assert(s1.drop_first()[i - 1] == s1[i]);
                assert(s2.drop_first()[i - 1] == s2[i]);
            }
        }
        assert(s1 =~= s2);
    }
}

/// A JSON string literal determines the string and the rest of the
/// stream.
proof fn lemma_quoted_unamb(s1: Seq<char>, s2: Seq<char>, t1: Seq<char>, t2: Seq<char>)
    requires
        quoted(s1) + t1 == quoted(s2) + t2,
    ensures
        s1 == s2,
        t1 == t2,
{
    let r1 = json_esc(s1) + seq!['"'] + t1;
    let r2 = json_esc(s2) + seq!['"'] + t2;
    assert(quoted(s1) + t1 =~= seq!['"'] + r1);
    assert(quoted(s2) + t2 =~= seq!['"'] + r2);
    lemma_cancel_prefix(seq!['"'], r1, r2);
    lemma_esc_tail_unamb(s1, s2, t1, t2);
}

/// A JSON string literal is non-empty and opens with a quote.
proof fn lemma_quoted_first(s: Seq<char>)
    ensures
        quoted(s).len() >= 2,
        quoted(s)[0] == '"',
{
    assert((seq!['"'] + json_esc(s)).len() > 0);
    assert(quoted(s)[0] == (seq!['"'] + json_esc(s))[0]);
}

/// The JSON text of a value is non-empty, and its first character names
/// the variant: a quote for text, `t` or `f` for a flag, a brace for a
/// table.
proof fn lemma_val_first_char(v: Val)
    ensures
        json_of_val(v).len() > 0,
        v is Text ==> json_of_val(v)[0] == '"',
        v is Flag ==> (json_of_val(v)[0] == 't' || json_of_val(v)[0] == 'f'),
        v is Table ==> json_of_val(v)[0] == '{',
{
    match v {
        Val::Text(s) => {
            lemma_quoted_first(s);
        },
        Val::Flag(_) => {},
        Val::Table(es) => {
            assert((seq!['{'] + json_of_entries(es)).len() > 0);
            assert(json_of_val(v)[0] == (seq!['{'] + json_of_entries(es))[0]);
        },
    }
}

/// A non-empty object body opens with the quote of its first key.
proof fn lemma_entries_first_char(es: Seq<(Seq<char>, Val)>)
    requires
        es.len() > 0,
    ensures
        json_of_entries(es).len() > 0,
        json_of_entries(es)[0] == '"',
{
    lemma_quoted_first(es[0].0);
    if es.len() == 1 {
        assert((quoted(es[0].0) + seq![':']).len() > 0);
        assert(json_of_entries(es)[0] == (quoted(es[0].0) + seq![':'])[0]);
        assert((quoted(es[0].0) + seq![':'])[0] == quoted(es[0].0)[0]);
    } else {
        assert(json_of_entries(es)[0] == quoted(es[0].0)[0]);
    }
}

/// The JSON text of a value determines the value and the rest of the
/// stream.
proof fn lemma_val_unamb(v1: Val, v2: Val, t1: Seq<char>, t2: Seq<char>)
    requires
        json_of_val(v1) + t1 == json_of_val(v2) + t2,
    ensures
        v1 == v2,
        t1 == t2,
    decreases v1, 0int,
{
    let j1 = json_of_val(v1);
    let j2 = json_of_val(v2);
    lemma_val_first_char(v1);
    lemma_val_first_char(v2);
    assert((j1 + t1)[0] == j1[0]);
    assert((j2 + t2)[0] == j2[0]);
    match v1 {
        Val::Text(s1) => {
            match v2 {
                Val::Text(s2) => {
                    lemma_quoted_unamb(s1, s2, t1, t2);
                },
                _ => {
                    assert(false);
                },
            }
        },
        Val::Flag(b1) => {
            match v2 {
                Val::Flag(b2) => {
                    if b1 == b2 {
                        lemma_cancel_prefix(j1, t1, t2);
                    } else {
                        assert((j1 + t1)[1] == j1[1]);
                        assert((j2 + t2)[1] == j2[1]);
                        assert(false);
                    }
                },
                _ => {
                    assert(false);
                },
            }
        },
        Val::Table(es1) => {
            match v2 {
                Val::Table(es2) => {
                    let r1 = json_of_entries(es1) + seq!['}'] + t1;
                    let r2 = json_of_entries(es2) + seq!['}'] + t2;
                    assert(j1 + t1 =~= seq!['{'] + r1);
                    assert(j2 + t2 =~= seq!['{'] + r2);
                    lemma_cancel_prefix(seq!['{'], r1, r2);
                    lemma_entries_unamb(es1, es2, t1, t2);
                },
                _ => {
                    assert(false);
                },
            }
        },
    }
}

/// An object body followed by its closing brace determines the entries
/// and the rest of the stream.
proof fn lemma_entries_unamb(
    es1: Seq<(Seq<char>, Val)>,
    es2: Seq<(Seq<char>, Val)>,
    t1: Seq<char>,
    t2: Seq<char>,
)
    requires
        json_of_entries(es1) + seq!['}'] + t1 == json_of_entries(es2) + seq!['}'] + t2,
    ensures
        es1 == es2,
        t1 == t2,
    decreases es1, 1int,
{
    if es1.len() == 0 && es2.len() == 0 {
        assert(json_of_entries(es1) + seq!['}'] + t1 =~= seq!['}'] + t1);
        assert(json_of_entries(es2) + seq!['}'] + t2 =~= seq!['}'] + t2);
        lemma_cancel_prefix(seq!['}'], t1, t2);
        assert(es1 =~= es2);
    } else if es1.len() == 0 {
        lemma_entries_first_char(es2);
        assert((json_of_entries(es1) + seq!['}'] + t1)[0] == '}');
        assert((json_of_entries(es2) + seq!['}'] + t2)[0] == json_of_entries(es2)[0]);
        assert(false);
    } else if es2.len() == 0 {
        lemma_entries_first_char(es1);
        assert((json_of_entries(es2) + seq!['}'] + t2)[0] == '}');
        assert((json_of_entries(es1) + seq!['}'] + t1)[0] == json_of_entries(es1)[0]);
        assert(false);
    } else {
        let k1 = es1[0].0;
        let w1 = es1[0].1;
        let k2 = es2[0].0;
        let w2 = es2[0].1;
        let rr1: Seq<char> = if es1.len() == 1 {
            seq!['}'] + t1
        } else {
            seq![','] + json_of_entries(es1.drop_first()) + seq!['}'] + t1
        };
        let rr2: Seq<char> = if es2.len() == 1 {
            seq!['}'] + t2
        } else {
            seq![','] + json_of_entries(es2.drop_first()) + seq!['}'] + t2
        };
        let r1 = seq![':'] + (json_of_val(w1) + rr1);
        let r2 = seq![':'] + (json_of_val(w2) + rr2);
        assert(json_of_entries(es1) + seq!['}'] + t1 =~= quoted(k1) + r1);
        assert(json_of_entries(es2) + seq!['}'] + t2 =~= quoted(k2) + r2);
        lemma_quoted_unamb(k1, k2, r1, r2);
        lemma_cancel_prefix(seq![':'], json_of_val(w1) + rr1, json_of_val(w2) + rr2);
        lemma_val_unamb(w1, w2, rr1, rr2);
        if es1.len() == 1 && es2.len() == 1 {
            lemma_cancel_prefix(seq!['}'], t1, t2);
            assert(es1[0] == (es1[0].0, es1[0].1));
            assert(es2[0] == (es2[0].0, es2[0].1));
            assert(es1 =~= es2);
        } else if es1.len() == 1 || es2.len() == 1 {
            assert(rr1[0] == rr2[0]);
            if es1.len() == 1 {
                assert(rr1[0] == '}');
                lemma_entries_first_char(es2.drop_first());
                assert(rr2[0] == ',');
            } else {
                assert(rr2[0] == '}');
                lemma_entries_first_char(es1.drop_first());
                assert(rr1[0] == ',');
            }
            assert(false);
        } else {
            let q1 = json_of_entries(es1.drop_first()) + seq!['}'] + t1;
            let q2 = json_of_entries(es2.drop_first()) + seq!['}'] + t2;
            assert(rr1 =~= seq![','] + q1);
            assert(rr2 =~= seq![','] + q2);
            lemma_cancel_prefix(seq![','], q1, q2);
            lemma_entries_unamb(es1.drop_first(), es2.drop_first(), t1, t2);
            assert(es1.len() == es2.len());
            assert(es1[0] == (es1[0].0, es1[0].1));
            assert(es2[0] == (es2[0].0, es2[0].1));
            assert forall|i: int| 0 <= i < es1.len() implies es1[i] == es2[i] by {
                if i > 0 {
                    assert(es1.drop_first()[i - 1] == es1[i]);
                    assert(es2.drop_first()[i - 1] == es2[i]);
                }
            }
            assert(es1 =~= es2);
        }
    }
}

/// Round trip: the JSON text of a tree determines the tree exactly.  Any
/// faithful parse of the emitted output therefore reproduces the same
/// scalar values and the same nesting structure.
pub proof fn lemma_json_round_trip(es1: Seq<(Seq<char>, Val)>, es2: Seq<(Seq<char>, Val)>)
    requires
        json_of_val(Val::Table(es1)) == json_of_val(Val::Table(es2)),
    ensures
        es1 == es2,
{
    assert(json_of_val(Val::Table(es1)) + Seq::<char>::empty() =~= json_of_val(
        Val::Table(es1),
    ));
    assert(json_of_val(Val::Table(es2)) + Seq::<char>::empty() =~= json_of_val(
        Val::Table(es2),
    ));
    lemma_val_unamb(
        Val::Table(es1),
        Val::Table(es2),
        Seq::<char>::empty(),
        Seq::<char>::empty(),
    );
}

/// Escaping a string one character longer appends that character's escape.
proof fn lemma_json_esc_snoc(a: Seq<char>, c: char)
    ensures
        json_esc(a.push(c)) == json_esc(a) + esc_char(c),
    decreases a.len(),
{
    if a.len() == 0 {
        assert(a.push(c).drop_first() =~= Seq::<char>::empty());
        assert(json_esc(Seq::<char>::empty()) =~= Seq::<char>::empty());
        assert(json_esc(a.push(c)) =~= json_esc(a) + esc_char(c));
    } else {
        assert(a.push(c).drop_first() =~= a.drop_first().push(c));
        lemma_json_esc_snoc(a.drop_first(), c);
        assert(a.push(c)[0] == a[0]);
        assert(json_esc(a.push(c)) =~= json_esc(a) + esc_char(c));
    }
}

/// The lowercase hexadecimal digit for `n`, as a one-character string.
fn hex_digit_str(n: u32) -> (s: &'static str)
    requires
        n < 16,
    ensures
        s@ == seq![hex_digit(n as int)],
{
    proof {
        reveal_strlit("0");
        reveal_strlit("1");
        reveal_strlit("2");
        reveal_strlit("3");
        reveal_strlit("4");
        reveal_strlit("5");
        reveal_strlit("6");
        reveal_strlit("7");
        reveal_strlit("8");
        reveal_strlit("9");
        reveal_strlit("a");
        reveal_strlit("b");
        reveal_strlit("c");
        reveal_strlit("d");
        reveal_strlit("e");
        reveal_strlit("f");
    }
    let s = if n == 0 { "0" }
    else if n == 1 { "1" }
    else if n == 2 { "2" }
    else if n == 3 { "3" }
    else if n == 4 { "4" }
    else if n == 5 { "5" }
    else if n == 6 { "6" }
    else if n == 7 { "7" }
    else if n == 8 { "8" }
    else if n == 9 { "9" }
    else if n == 10 { "a" }
    else if n == 11 { "b" }
    else if n == 12 { "c" }
    else if n == 13 { "d" }
    else if n == 14 { "e" }
    else { "f" };
    proof {
        assert(s@ =~= seq![hex_digit(n as int)]);
    }
    s
}

/// Appends the JSON string literal for `s`.
fn write_json_string(out: &mut String, s: &str)
    ensures
        final(out)@ == old(out)@ + quoted(s@),
{
    let ghost base = out@;
    out.append("\"");
    proof {
        reveal_strlit("\"");
        assert(out@ =~= base + seq!['"']);
        assert(s@.take(0) =~= Seq::<char>::empty());
        assert(json_esc(Seq::<char>::empty()) =~= Seq::<char>::empty());
    }
    let n = s.unicode_len();
    let mut j: usize = 0;
    while j < n
        invariant
            j <= n,
            n == s@.len(),
            out@ == base + seq!['"'] + json_esc(s@.take(j as int)),
        decreases n - j,
    {
        let c = s.get_char(j);
        proof {
            assert(s@.take(j + 1) =~= s@.take(j as int).push(s@[j as int]));
            lemma_json_esc_snoc(s@.take(j as int), s@[j as int]);
        }
        if c == '"' {
            out.append("\\\"");
            proof {
                reveal_strlit("\\\"");
                assert(("\\\"")@ =~= seq!['\\', '"']);
                assert(out@ =~= base + seq!['"'] + json_esc(s@.take(j + 1)));
            }
        } else if c == '\\' {
            out.append("\\\\");
            proof {
                reveal_strlit("\\\\");
                assert(("\\\\")@ =~= seq!['\\', '\\']);
                assert(out@ =~= base + seq!['"'] + json_esc(s@.take(j + 1)));
            }
        } else if c == '\n' {
            out.append("\\n");
            proof {
                reveal_strlit("\\n");
                assert(("\\n")@ =~= seq!['\\', 'n']);
                assert(out@ =~= base + seq!['"'] + json_esc(s@.take(j + 1)));
            }
        } else if c == '\t' {
            out.append("\\t");
            proof {
                reveal_strlit("\\t");
                assert(("\\t")@ =~= seq!['\\', 't']);
                assert(out@ =~= base + seq!['"'] + json_esc(s@.take(j + 1)));
            }
        } else if c == '\r' {
            out.append("\\r");
            proof {
                reveal_strlit("\\r");
                assert(("\\r")@ =~= seq!['\\', 'r']);
                assert(out@ =~= base + seq!['"'] + json_esc(s@.take(j + 1)));
            }
        } else if (c as u32) < 32 {
            out.append("\\u00");
            out.append(hex_digit_str((c as u32) / 16));
            out.append(hex_digit_str((c as u32) % 16));
            proof {
                reveal_strlit("\\u00");
                assert(("\\u00")@ =~= seq!['\\', 'u', '0', '0']);
                assert(out@ =~= base + seq!['"'] + json_esc(s@.take(j + 1)));
            }
        } else {
            let piece = s.substring_char(j, j + 1);
            out.append(piece);
            proof {
                assert(piece@ =~= seq![s@[j as int]]);
                assert(esc_char(s@[j as int]) =~= seq![s@[j as int]]);
                assert(out@ =~= base + seq!['"'] + json_esc(s@.take(j + 1)));
            }
        }
        j = j + 1;
    }
    proof {
        assert(s@.take(n as int) =~= s@);
    }
    out.append("\"");
    proof {
        reveal_strlit("\"");
        assert(out@ =~= base + quoted(s@));
    }
}

/// Appends the JSON text of one configuration value.
fn write_json_value(v: &ConfigValue, out: &mut String)
    ensures
        final(out)@ == old(out)@ + json_of_val(val_view(*v)),
    decreases *v, 0int,
{
    match v {
        ConfigValue::Text(s) => {
            write_json_string(out, s.as_str());
        },
        ConfigValue::Flag(b) => {
            if *b {
                out.append("true");
                proof {
                    reveal_strlit("true");
                    assert(out@ =~= old(out)@ + json_of_val(val_view(*v)));
                }
            } else {
                out.append("false");
                proof {
                    reveal_strlit("false");
                    assert(out@ =~= old(out)@ + json_of_val(val_view(*v)));
                }
            }
        },
        ConfigValue::Table(es) => {
            out.append("{");
            proof {
                reveal_strlit("{");
                assert(entries_view(es@).skip(0) =~= entries_view(es@));
            }
            write_json_entries(es, 0, out);
            out.append("}");
            proof {
                reveal_strlit("}");
                assert(out@ =~= old(out)@ + json_of_val(val_view(*v)));
            }
        },
    }
}

/// Appends the object-body text of the entries from index `i` on.
fn write_json_entries(es: &Vec<(String, ConfigValue)>, i: usize, out: &mut String)
    requires
        i <= es@.len(),
    ensures
        final(out)@ == old(out)@ + json_of_entries(entries_view(es@).skip(i as int)),
    decreases *es, es@.len() - i,
{
    let ghost ev = entries_view(es@);
    proof {
        lemma_entries_view_index(es@);
    }
    let n = es.len();
    if i < n {
        let pair = &es[i];
        proof {
            assert(ev.skip(i as int)[0] == ev[i as int]);
        }
        write_json_string(out, pair.0.as_str());
        out.append(":");
        proof {
            reveal_strlit(":");
            assert((":")@ =~= seq![':']);
        }
        write_json_value(&pair.1, out);
        if i + 1 < n {
            out.append(",");
            proof {
                reveal_strlit(",");
                assert((",")@ =~= seq![',']);
            }
            write_json_entries(es, i + 1, out);
            proof {
                assert(ev.skip(i as int).drop_first() =~= ev.skip(i + 1));
                assert(out@ =~= old(out)@ + json_of_entries(ev.skip(i as int)));
            }
        } else {
            proof {
                assert(ev.skip(i as int).len() == 1);
                assert(out@ =~= old(out)@ + json_of_entries(ev.skip(i as int)));
            }
        }
    } else {
        proof {
            assert(ev.skip(i as int) =~= Seq::<(Seq<char>, Val)>::empty());
            assert(json_of_entries(Seq::<(Seq<char>, Val)>::empty()) =~= Seq::<char>::empty());
            assert(out@ =~= old(out)@ + json_of_entries(ev.skip(i as int)));
        }
    }
}

/// Renders the whole configuration tree as the JSON text of one object,
/// in entry order: a deterministic function of the tree.
pub fn format_as_json(config: &Vec<(String, ConfigValue)>) -> (r: String)
    ensures
        r@ == json_of_val(Val::Table(entries_view(config@))),
{
    let mut out = String::new();
    out.append("{");
    proof {
        reveal_strlit("{");
        assert(entries_view(config@).skip(0) =~= entries_view(config@));
    }
    write_json_entries(config, 0, &mut out);
    out.append("}");
    proof {
        reveal_strlit("}");
        assert(out@ =~= json_of_val(Val::Table(entries_view(config@))));
    }
    out
}

} // verus!
