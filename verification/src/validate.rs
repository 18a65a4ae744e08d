//! The validator.
//!
//! Each schema entry is looked up in the built tree by its dotted key.
//! A missing key yields a warning diagnostic but never fails validation
//! on its own; a present key whose runtime variant disagrees with the
//! declared type yields an error diagnostic and fails validation.  As a
//! lenient allowance, a text leaf whose content is itself a boolean
//! literal satisfies a `bool` declaration.  Tree keys absent from the
//! schema are permitted: the schema is not exhaustive.

use vstd::prelude::*;

use crate::line::is_false_lit;
use crate::line::is_false_literal;
use crate::line::is_true_lit;
use crate::line::is_true_literal;
use crate::schema::SchemaType;
use crate::value::ConfigValue;
use crate::value::Val;
use crate::value::get_path;
use crate::value::lookup_path;
use crate::value::split_dots;
use crate::value::val_view;

verus! {

/// Kind of one per-key diagnostic.
#[derive(Debug, Clone, Copy, PartialEq, Eq, Structural)]
pub enum IssueKind {
    /// The schema declares the key but the tree does not contain it:
    /// a warning that does not fail validation.
    MissingKey,
    /// The key is present with a variant that disagrees with the declared
    /// type: an error that fails validation.
    TypeMismatch,
}

/// One per-key diagnostic.
#[derive(Debug, PartialEq, Eq)]
pub struct ValidationIssue {
    pub key: String,
    pub kind: IssueKind,
}

/// Outcome of validating a tree against a schema: overall pass/fail and
/// the per-key diagnostics, in schema order.
#[derive(Debug, PartialEq, Eq)]
pub struct ValidationReport {
    pub valid: bool,
    pub issues: Vec<ValidationIssue>,
}

/// The tree value satisfies the declared type.  A text leaf additionally
/// satisfies `bool` when its content is a boolean literal.
pub open spec fn type_matches(v: Val, t: SchemaType) -> bool {
    match v {
        Val::Text(s) => t == SchemaType::Text || (t == SchemaType::Flag && (is_true_lit(s)
            || is_false_lit(s))),
        Val::Flag(_) => t == SchemaType::Flag,
        Val::Table(_) => t == SchemaType::Table,
    }
}

/// The schema entry is satisfied: its key, when present in the tree,
/// carries the declared type.  An absent key is satisfied.
pub open spec fn entry_ok(es: Seq<(Seq<char>, Val)>, e: (Seq<char>, SchemaType)) -> bool {
    match lookup_path(es, split_dots(e.0)) {
        Some(v) => type_matches(v, e.1),
        None => true,
    }
}

/// The diagnostic that one schema entry yields, if any.
pub open spec fn issue_of(es: Seq<(Seq<char>, Val)>, e: (Seq<char>, SchemaType)) -> Option<
    IssueKind,
> {
    match lookup_path(es, split_dots(e.0)) {
        None => Some(IssueKind::MissingKey),
        Some(v) => if type_matches(v, e.1) {
            None
        } else {
            Some(IssueKind::TypeMismatch)
        },
    }
}

/// The diagnostics of all schema entries, in schema order.
pub open spec fn issues_spec(
    es: Seq<(Seq<char>, Val)>,
    schema: Seq<(Seq<char>, SchemaType)>,
) -> Seq<(Seq<char>, IssueKind)>
    decreases schema.len(),
{
    if schema.len() == 0 {
        Seq::empty()
    } else {
        let rest = issues_spec(es, schema.drop_last());
        match issue_of(es, schema.last()) {
            None => rest,
            Some(kind) => rest.push((schema.last().0, kind)),
        }
    }
}

/// The tree passes the schema: every declared key that is present in the
/// tree carries its declared type.  Missing keys never fail validation.
pub open spec fn schema_ok(
    es: Seq<(Seq<char>, Val)>,
    schema: Seq<(Seq<char>, SchemaType)>,
) -> bool {
    forall|i: int| 0 <= i < schema.len() ==> entry_ok(es, #[trigger] schema[i])
}

/// Model of an issue vector.
pub open spec fn issues_view(issues: Seq<ValidationIssue>) -> Seq<(Seq<char>, IssueKind)> {
    Seq::new(issues.len(), |i: int| (issues[i].key@, issues[i].kind))
}

/// The tree value satisfies the declared type.
fn value_matches(v: &ConfigValue, t: SchemaType) -> (b: bool)
    ensures
        b == type_matches(val_view(*v), t),
{
    match v {
        ConfigValue::Text(s) => t == SchemaType::Text || (t == SchemaType::Flag && (
        is_true_literal(s.as_str()) || is_false_literal(s.as_str()))),
        ConfigValue::Flag(_) => t == SchemaType::Flag,
        ConfigValue::Table(_) => t == SchemaType::Table,
    }
}

/// Cross-checks the built tree against the schema mapping: reports one
/// diagnostic per unsatisfied schema entry, in schema order, and passes
/// exactly when no declared key is present with a conflicting type.
pub fn validate_config(
    config: &Vec<(String, ConfigValue)>,
    schema: &Vec<(String, SchemaType)>,
) -> (r: ValidationReport)
    ensures
        issues_view(r.issues@) == issues_spec(
            crate::value::entries_view(config@),
            crate::schema::schema_view(schema@),
        ),
        r.valid == schema_ok(
            crate::value::entries_view(config@),
            crate::schema::schema_view(schema@),
        ),
{
    let ghost ev = crate::value::entries_view(config@);
    let ghost sv = crate::schema::schema_view(schema@);
    let mut issues: Vec<ValidationIssue> = Vec::new();
    let mut valid = true;
    proof {
        assert(sv.take(0) =~= Seq::<(Seq<char>, SchemaType)>::empty());
        assert(issues_view(issues@) =~= issues_spec(ev, sv.take(0)));
    }
    let n = schema.len();
    let mut i: usize = 0;
    while i < n
        invariant
            i <= n,
            n == schema@.len(),
            ev == crate::value::entries_view(config@),
            sv == crate::schema::schema_view(schema@),
            sv.len() == n,
            issues_view(issues@) == issues_spec(ev, sv.take(i as int)),
            valid == schema_ok(ev, sv.take(i as int)),
        decreases n - i,
    {
        let key = &schema[i].0;
        let expected = schema[i].1;
        let ghost entry = sv[i as int];
        proof {
            assert(sv.take(i + 1).drop_last() =~= sv.take(i as int));
            assert(sv.take(i + 1).last() == entry);
            assert(entry == (schema@[i as int].0@, schema@[i as int].1));
        }
        let ghost valid_before = valid;
        let found = get_path(config, key.as_str());
        match found {
            None => {
                issues.push(ValidationIssue { key: key.clone(), kind: IssueKind::MissingKey });
                proof {
                    assert(issue_of(ev, entry) == Some(IssueKind::MissingKey));
                    assert(issues_view(issues@) =~= issues_spec(ev, sv.take(i + 1)));
                    assert(entry_ok(ev, entry));
                }
            },
            Some(v) => {
                if value_matches(v, expected) {
                    proof {
                        assert(issue_of(ev, entry) is None);
                        assert(issues_view(issues@) =~= issues_spec(ev, sv.take(i + 1)));
                        assert(entry_ok(ev, entry));
                    }
                } else {
                    issues.push(
                        ValidationIssue { key: key.clone(), kind: IssueKind::TypeMismatch },
                    );
                    valid = false;
                    proof {
                        assert(issue_of(ev, entry) == Some(IssueKind::TypeMismatch));
                        assert(issues_view(issues@) =~= issues_spec(ev, sv.take(i + 1)));
                        assert(!entry_ok(ev, entry));
                    }
                }
            },
        }
        proof {
            assert(valid == (valid_before && entry_ok(ev, entry)));
            if valid_before && entry_ok(ev, entry) {
                assert forall|m: int| 0 <= m < i + 1 implies entry_ok(ev, #[trigger] sv.take(
                    i + 1,
                )[m]) by {
                    if m < i {
                        assert(entry_ok(ev, sv.take(i as int)[m]));
                    } else {
                        assert(sv.take(i + 1)[m] == entry);
                    }
                }
                assert(schema_ok(ev, sv.take(i + 1)));
            } else {
                if schema_ok(ev, sv.take(i + 1)) {
                    assert(entry_ok(ev, sv.take(i + 1)[i as int]));
                    assert forall|m: int| 0 <= m < i implies entry_ok(ev, #[trigger] sv.take(
                        i as int,
                    )[m]) by {
                        assert(entry_ok(ev, sv.take(i + 1)[m]));
                    }
                    assert(schema_ok(ev, sv.take(i as int)));
                    assert(false);
                }
            }
        }
        i = i + 1;
    }
    proof {
        assert(sv.take(n as int) =~= sv);
    }
    ValidationReport { valid, issues }
}

} // verus!
