//! Folding classified lines into a configuration tree.
//!
//! Lines are processed in order: skipped and unmatched lines leave the
//! tree alone, and each `key = value` pair is coerced and installed under
//! its dotted key, later pairs with the same full key overwriting earlier
//! ones.  A type conflict aborts the whole parse.

use vstd::prelude::*;

use crate::line::LineClass;
use crate::line::LineKind;
use crate::line::classify_line;
use crate::line::classify_spec;
use crate::line::coerce_spec;
use crate::line::coerce_value;
use crate::value::ConfigError;
use crate::value::ConfigValue;
use crate::value::Val;
use crate::value::entries_view;
use crate::value::insert_config_value;
use crate::value::insert_path;
use crate::value::split_dots;

verus! {

/// The tree denoted by a sequence of raw lines: lines are classified in
/// order, pairs are coerced and installed under their split dotted key,
/// and everything else is skipped.  `None` marks a type conflict.
pub open spec fn parse_lines_spec(lines: Seq<Seq<char>>) -> Option<Seq<(Seq<char>, Val)>>
    decreases lines.len(),
{
    if lines.len() == 0 {
        Some(Seq::empty())
    } else {
        match parse_lines_spec(lines.drop_last()) {
            None => None,
            Some(es) => match classify_spec(lines.last()) {
                LineKind::Pair(k, v) => insert_path(es, split_dots(k), coerce_spec(v)),
                _ => Some(es),
            },
        }
    }
}

/// Once some prefix of the lines conflicts, the whole parse conflicts.
proof fn lemma_parse_none_extends(lines: Seq<Seq<char>>, m: int)
    requires
        0 <= m <= lines.len(),
        parse_lines_spec(lines.take(m)) is None,
    ensures
        parse_lines_spec(lines) is None,
    decreases lines.len() - m,
{
    if m == lines.len() {
        assert(lines.take(m) =~= lines);
    } else {
        assert(lines.take(m + 1).drop_last() =~= lines.take(m));
        lemma_parse_none_extends(lines, m + 1);
    }
}

/// Feeding a boolean literal, in any ASCII casing, under any dotted key
/// and reading the same key back yields the corresponding flag.
pub proof fn lemma_feed_bool_read_back(
    es: Seq<(Seq<char>, Val)>,
    key: Seq<char>,
    raw: Seq<char>,
    es2: Seq<(Seq<char>, Val)>,
)
    requires
        crate::line::is_true_lit(raw) || crate::line::is_false_lit(raw),
        insert_path(es, split_dots(key), coerce_spec(raw)) == Some(es2),
    ensures
        crate::value::lookup_path(es2, split_dots(key)) == Some(
            Val::Flag(crate::line::is_true_lit(raw)),
        ),
{
    crate::value::lemma_split_dots_nonempty(key);
    crate::value::lemma_insert_then_lookup(es, split_dots(key), coerce_spec(raw), es2);
}

/// A parsed tree is well-formed at every depth: no table holds a key
/// twice, so no path is ever both a leaf and a table.
pub proof fn lemma_parse_lines_wf(lines: Seq<Seq<char>>, es: Seq<(Seq<char>, Val)>)
    requires
        parse_lines_spec(lines) == Some(es),
    ensures
        crate::value::entries_wf(es),
    decreases lines.len(),
{
    if lines.len() == 0 {
    } else {
        let prev = parse_lines_spec(lines.drop_last())->Some_0;
        lemma_parse_lines_wf(lines.drop_last(), prev);
        match classify_spec(lines.last()) {
            LineKind::Pair(k, v) => {
                crate::value::lemma_split_dots_nonempty(k);
                crate::value::lemma_insert_path_wf(prev, split_dots(k), coerce_spec(v), es);
            },
            _ => {},
        }
    }
}

/// A line that classifies as `Skip` has no effect on the resulting tree.
pub proof fn lemma_skip_line_no_effect(lines: Seq<Seq<char>>, l: Seq<char>)
    requires
        classify_spec(l) == LineKind::Skip,
    ensures
        parse_lines_spec(lines.push(l)) == parse_lines_spec(lines),
{
    assert(lines.push(l).drop_last() =~= lines);
    assert(lines.push(l).last() == l);
}

/// Parsing is a function of the lines alone: two parses of the same
/// lines, each into its own tree, yield equal trees.
pub proof fn lemma_reparse_equal(
    lines: Seq<Seq<char>>,
    t1: Seq<(Seq<char>, Val)>,
    t2: Seq<(Seq<char>, Val)>,
)
    requires
        parse_lines_spec(lines) == Some(t1),
        parse_lines_spec(lines) == Some(t2),
    ensures
        t1 == t2,
{
}

/// Builds a configuration tree from the raw lines of one file.  Blank
/// lines, comments and unmatched lines are skipped; a type conflict
/// between lines fails the whole file.
pub fn parse_config_lines(lines: &Vec<String>) -> (r: Result<
    Vec<(String, ConfigValue)>,
    ConfigError,
>)
    ensures
        match r {
            Ok(tree) => parse_lines_spec(lines.deep_view()) == Some(entries_view(tree@))
                && crate::value::entries_wf(entries_view(tree@)),
            Err(e) => parse_lines_spec(lines.deep_view()) is None
                && e == ConfigError::TypeConflict,
        },
{
    let ghost dv = lines.deep_view();
    let mut tree: Vec<(String, ConfigValue)> = Vec::new();
    proof {
        assert(dv.take(0) =~= Seq::<Seq<char>>::empty());
        assert(entries_view(Seq::<(String, ConfigValue)>::empty())
            =~= Seq::<(Seq<char>, Val)>::empty());
    }
    let n = lines.len();
    let mut i: usize = 0;
    while i < n
        invariant
            i <= n,
            n == lines@.len(),
            dv == lines.deep_view(),
            parse_lines_spec(dv.take(i as int)) == Some(entries_view(tree@)),
        decreases n - i,
    {
        let cls = classify_line(lines[i].as_str());
        proof {
            assert(dv.take(i + 1).drop_last() =~= dv.take(i as int));
            assert(dv.take(i + 1).last() == dv[i as int]);
            assert(dv[i as int] == lines@[i as int]@);
        }
        match cls {
            LineClass::KeyValue(k, v) => {
                let value = coerce_value(v);
                let res = insert_config_value(&mut tree, k.as_str(), value);
                if let Err(e) = res {
                    proof {
                        lemma_parse_none_extends(dv, i + 1);
                    }
                    return Err(e);
                }
            },
            _ => {},
        }
        i = i + 1;
    }
    proof {
        assert(dv.take(n as int) =~= dv);
        lemma_parse_lines_wf(dv, entries_view(tree@));
    }
    Ok(tree)
}

} // verus!
