//! The schema loader.
//!
//! A schema file declares one expected type per dotted key, written
//! `key = type` with the same comment and blank-line rules as a config
//! file.  Only the type tokens `string` and `bool` are accepted, compared
//! case-insensitively; a table is implied for every non-leaf key and is
//! never declared.  Unlike the tolerant config parser, the loader is
//! strict: any other line or token fails the whole load, reporting the
//! offending line.

use vstd::prelude::*;

use crate::line::LineClass;
use crate::line::LineKind;
use crate::line::classify_line;
use crate::line::classify_spec;
use crate::line::matches_ci;
use crate::value::assoc_upsert;
use crate::value::find_key;
use crate::value::lemma_assoc_absent;
use crate::value::lemma_assoc_first;

verus! {

/// An expected value type declared by the schema.
#[derive(Debug, Clone, Copy, PartialEq, Eq, Structural)]
pub enum SchemaType {
    Text,
    Flag,
    Table,
}

/// Failure of a schema load: the offending line, verbatim.
#[derive(Debug, PartialEq, Eq)]
pub enum SchemaError {
    BadLine(String),
}

/// The token is `string` up to ASCII case.
pub open spec fn is_string_token(s: Seq<char>) -> bool {
    s.len() == 6 && matches_ci(s[0], 's') && matches_ci(s[1], 't') && matches_ci(s[2], 'r')
        && matches_ci(s[3], 'i') && matches_ci(s[4], 'n') && matches_ci(s[5], 'g')
}

/// The token is `bool` up to ASCII case.
pub open spec fn is_bool_token(s: Seq<char>) -> bool {
    s.len() == 4 && matches_ci(s[0], 'b') && matches_ci(s[1], 'o') && matches_ci(s[2], 'o')
        && matches_ci(s[3], 'l')
}

/// The expected type named by a schema value token, if it is accepted.
pub open spec fn schema_type_of_token(tok: Seq<char>) -> Option<SchemaType> {
    if is_string_token(tok) {
        Some(SchemaType::Text)
    } else if is_bool_token(tok) {
        Some(SchemaType::Flag)
    } else {
        None
    }
}

/// Model of a schema entry vector.
pub open spec fn schema_view(es: Seq<(String, SchemaType)>) -> Seq<(Seq<char>, SchemaType)> {
    Seq::new(es.len(), |i: int| (es[i].0@, es[i].1))
}

/// The mapping denoted by the raw lines of a schema file, or the first
/// offending line.  Duplicate keys are allowed; the later declaration
/// wins, as in the config parser.
pub open spec fn load_schema_spec(lines: Seq<Seq<char>>) -> Result<
    Seq<(Seq<char>, SchemaType)>,
    Seq<char>,
>
    decreases lines.len(),
{
    if lines.len() == 0 {
        Ok(Seq::empty())
    } else {
        match load_schema_spec(lines.drop_last()) {
            Err(l) => Err(l),
            Ok(m) => match classify_spec(lines.last()) {
                LineKind::Skip => Ok(m),
                LineKind::Unmatched => Err(lines.last()),
                LineKind::Pair(k, tok) => match schema_type_of_token(tok) {
                    Some(t) => Ok(assoc_upsert(m, k, t)),
                    None => Err(lines.last()),
                },
            },
        }
    }
}

/// Once some prefix of the lines is rejected, the whole load is, with
/// the same offending line.
proof fn lemma_schema_err_extends(lines: Seq<Seq<char>>, m: int)
    requires
        0 <= m <= lines.len(),
        load_schema_spec(lines.take(m)) is Err,
    ensures
        load_schema_spec(lines) == load_schema_spec(lines.take(m)),
    decreases lines.len() - m,
{
    if m == lines.len() {
        assert(lines.take(m) =~= lines);
    } else {
        assert(lines.take(m + 1).drop_last() =~= lines.take(m));
        lemma_schema_err_extends(lines, m + 1);
    }
}

/// The expected type named by a schema value token, if it is accepted.
fn schema_type_token(tok: &str) -> (r: Option<SchemaType>)
    ensures
        r == schema_type_of_token(tok@),
{
    if crate::line::is_string_token_exec(tok) {
        Some(SchemaType::Text)
    } else if crate::line::is_bool_token_exec(tok) {
        Some(SchemaType::Flag)
    } else {
        None
    }
}

/// Reads a schema mapping from the raw lines of a schema file.  Comments
/// and blank lines are skipped; any other line that is not
/// `key = string` or `key = bool` (type compared case-insensitively)
/// fails the load with that line.
pub fn load_schema_lines(lines: &Vec<String>) -> (r: Result<
    Vec<(String, SchemaType)>,
    SchemaError,
>)
    ensures
        match r {
            Ok(schema) => load_schema_spec(lines.deep_view()) == Ok::<
                Seq<(Seq<char>, SchemaType)>,
                Seq<char>,
            >(schema_view(schema@)),
            Err(e) => match e {
                SchemaError::BadLine(l) => load_schema_spec(lines.deep_view()) == Err::<
                    Seq<(Seq<char>, SchemaType)>,
                    Seq<char>,
                >(l@),
            },
        },
{
    let ghost dv = lines.deep_view();
    let mut schema: Vec<(String, SchemaType)> = Vec::new();
    proof {
        assert(dv.take(0) =~= Seq::<Seq<char>>::empty());
        assert(schema_view(Seq::<(String, SchemaType)>::empty())
            =~= Seq::<(Seq<char>, SchemaType)>::empty());
    }
    let n = lines.len();
    let mut i: usize = 0;
    while i < n
        invariant
            i <= n,
            n == lines@.len(),
            dv == lines.deep_view(),
            load_schema_spec(dv.take(i as int)) == Ok::<
                Seq<(Seq<char>, SchemaType)>,
                Seq<char>,
            >(schema_view(schema@)),
        decreases n - i,
    {
        let cls = classify_line(lines[i].as_str());
        proof {
            assert(dv.take(i + 1).drop_last() =~= dv.take(i as int));
            assert(dv.take(i + 1).last() == dv[i as int]);
            assert(dv[i as int] == lines@[i as int]@);
        }
        match cls {
            LineClass::Skip => {},
            LineClass::Unmatched => {
                proof {
                    lemma_schema_err_extends(dv, i + 1);
                }
                return Err(SchemaError::BadLine(lines[i].clone()));
            },
            LineClass::KeyValue(k, tok) => {
                match schema_type_token(tok.as_str()) {
                    None => {
                        proof {
                            lemma_schema_err_extends(dv, i + 1);
                        }
                        return Err(SchemaError::BadLine(lines[i].clone()));
                    },
                    Some(t) => {
                        let ghost pre = schema_view(schema@);
                        match find_key(&schema, &k) {
                            Some(j) => {
                                proof {
                                    lemma_assoc_first(pre, k@, j as int, t);
                                }
                                let ghost pre_vec = schema@;
                                let (kk, _discarded) = schema.remove(j);
                                schema.insert(j, (kk, t));
                                proof {
                                    assert(schema@ =~= pre_vec.update(
                                        j as int,
                                        (pre_vec[j as int].0, t),
                                    ));
                                }
                            },
                            None => {
                                proof {
                                    lemma_assoc_absent(pre, k@, t);
                                }
                                schema.push((k, t));
                            },
                        }
                        proof {
                            assert(schema_view(schema@) =~= assoc_upsert(pre, k@, t));
                        }
                    },
                }
            },
        }
        i = i + 1;
    }
    proof {
        assert(dv.take(n as int) =~= dv);
    }
    Ok(schema)
}

} // verus!
