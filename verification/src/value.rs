//! The configuration value tree: a tagged union of text leaves, boolean
//! leaves, and tables of named children, together with its mathematical
//! model and the dotted-path insert and lookup operations.

use vstd::prelude::*;

verus! {

/// A typed configuration value: a text leaf, a boolean leaf, or a table
/// mapping single path segments (no dots) to child values.
///
/// A table is kept as an association vector; the tree-building operations
/// keep key order as the order of first insertion and never bind a key
/// twice (see `entries_unique` and `lemma_parse_lines_wf`).
#[derive(Debug, PartialEq, Eq)]
pub enum ConfigValue {
    Text(String),
    Flag(bool),
    Table(Vec<(String, ConfigValue)>),
}

/// Mathematical model of a `ConfigValue`: leaves carry character sequences
/// or booleans; a table is an association sequence of (segment, value) pairs.
pub enum Val {
    Text(Seq<char>),
    Flag(bool),
    Table(Seq<(Seq<char>, Val)>),
}

/// The model of a configuration value.
pub open spec fn val_view(v: ConfigValue) -> Val
    decreases v,
{
    match v {
        ConfigValue::Text(s) => Val::Text(s@),
        ConfigValue::Flag(b) => Val::Flag(b),
        ConfigValue::Table(es) => Val::Table(entries_view(es@)),
    }
}

/// The model of a table's entry vector.
pub open spec fn entries_view(es: Seq<(String, ConfigValue)>) -> Seq<(Seq<char>, Val)>
    decreases es,
{
    if es.len() == 0 {
        Seq::empty()
    } else {
        seq![(es[0].0@, val_view(es[0].1))] + entries_view(es.drop_first())
    }
}

/// Error raised by the tree builder: a dotted path re-entered a leaf as if
/// it were a table, or tried to overwrite a table with a leaf.
#[derive(Debug, PartialEq, Eq)]
pub enum ConfigError {
    TypeConflict,
}

/// The value bound to `k` in an association sequence, taking the first
/// (and, under `entries_unique`, only) occurrence.
pub open spec fn assoc_lookup<V>(es: Seq<(Seq<char>, V)>, k: Seq<char>) -> Option<V>
    decreases es.len(),
{
    if es.len() == 0 {
        None
    } else if es[0].0 == k {
        Some(es[0].1)
    } else {
        assoc_lookup(es.drop_first(), k)
    }
}

/// Binds `k` to `v`: replaces the first occurrence of `k` in place, or
/// appends a new pair at the end if `k` is absent.
pub open spec fn assoc_upsert<V>(es: Seq<(Seq<char>, V)>, k: Seq<char>, v: V) -> Seq<(Seq<char>, V)>
    decreases es.len(),
{
    if es.len() == 0 {
        seq![(k, v)]
    } else if es[0].0 == k {
        seq![(k, v)] + es.drop_first()
    } else {
        seq![es[0]] + assoc_upsert(es.drop_first(), k, v)
    }
}

/// Every key occurs at most once in the association sequence.
pub open spec fn entries_unique<V>(es: Seq<(Seq<char>, V)>) -> bool {
    forall|i: int, j: int| 0 <= i < j < es.len() ==> es[i].0 != es[j].0
}

/// Every table in the value, at every depth, has unique keys.
pub open spec fn val_wf(v: Val) -> bool
    decreases v,
{
    match v {
        Val::Table(es) => entries_unique(es)
            && (forall|i: int| 0 <= i < es.len() ==> val_wf(#[trigger] es[i].1)),
        _ => true,
    }
}

/// The value reached from a table by descending along a dotted path,
/// or `None` if some step is absent or runs through a leaf.
pub open spec fn lookup_path(es: Seq<(Seq<char>, Val)>, path: Seq<Seq<char>>) -> Option<Val>
    decreases path.len(),
{
    if path.len() == 0 {
        None
    } else {
        match assoc_lookup(es, path[0]) {
            None => None,
            Some(v) => if path.len() == 1 {
                Some(v)
            } else {
                match v {
                    Val::Table(sub) => lookup_path(sub, path.drop_first()),
                    _ => None,
                }
            },
        }
    }
}

/// Installs `v` at the end of `path`, creating intermediate tables for
/// absent segments.  `None` marks a type conflict: an intermediate segment
/// already bound to a leaf, or a final segment changing between leaf and
/// table.
pub open spec fn insert_path(
    es: Seq<(Seq<char>, Val)>,
    path: Seq<Seq<char>>,
    v: Val,
) -> Option<Seq<(Seq<char>, Val)>>
    decreases path.len(),
{
    if path.len() == 0 {
        None
    } else if path.len() == 1 {
        match assoc_lookup(es, path[0]) {
            Some(existing) => if (existing is Table) != (v is Table) {
                None
            } else {
                Some(assoc_upsert(es, path[0], v))
            },
            None => Some(assoc_upsert(es, path[0], v)),
        }
    } else {
        let sub = match assoc_lookup(es, path[0]) {
            None => Some(Seq::<(Seq<char>, Val)>::empty()),
            Some(Val::Table(t)) => Some(t),
            Some(_) => None,
        };
        match sub {
            None => None,
            Some(t) => match insert_path(t, path.drop_first(), v) {
                None => None,
                Some(t2) => Some(assoc_upsert(es, path[0], Val::Table(t2))),
            },
        }
    }
}

/// Index of the first `.` in `s` at or after `from`, or `s.len()`.
pub open spec fn sep_idx(s: Seq<char>, from: int) -> int
    decreases s.len() - from,
{
    if from < 0 || from >= s.len() {
        s.len() as int
    } else if s[from] == '.' {
        from
    } else {
        sep_idx(s, from + 1)
    }
}

/// Splits a dotted key into its segments; always at least one segment,
/// and empty segments are kept as empty keys.
pub open spec fn split_dots(s: Seq<char>) -> Seq<Seq<char>>
    decreases s.len(),
{
    let i = sep_idx(s, 0);
    if i < 0 || i >= s.len() {
        seq![s]
    } else {
        seq![s.subrange(0, i)] + split_dots(s.subrange(i + 1, s.len() as int))
    }
}

pub proof fn lemma_split_dots_nonempty(s: Seq<char>)
    ensures
        split_dots(s).len() >= 1,
    decreases s.len(),
{
}

/// `entries_view` keeps length and maps entries pointwise.
pub proof fn lemma_entries_view_index(es: Seq<(String, ConfigValue)>)
    ensures
        entries_view(es).len() == es.len(),
        forall|i: int| 0 <= i < es.len()
            ==> #[trigger] entries_view(es)[i] == (es[i].0@, val_view(es[i].1)),
    decreases es.len(),
{
    if es.len() > 0 {
        lemma_entries_view_index(es.drop_first());
    }
}

/// `entries_view` commutes with appending one entry.
pub proof fn lemma_entries_view_push(es: Seq<(String, ConfigValue)>, p: (String, ConfigValue))
    ensures
        entries_view(es.push(p)) == entries_view(es).push((p.0@, val_view(p.1))),
    decreases es.len(),
{
    if es.len() == 0 {
        assert(es.push(p).drop_first() =~= Seq::<(String, ConfigValue)>::empty());
        assert(entries_view(Seq::<(String, ConfigValue)>::empty())
            =~= Seq::<(Seq<char>, Val)>::empty());
        assert(entries_view(es.push(p)) =~= entries_view(es).push((p.0@, val_view(p.1))));
    } else {
        assert(es.push(p).drop_first() =~= es.drop_first().push(p));
        lemma_entries_view_push(es.drop_first(), p);
        assert(es.push(p)[0] == es[0]);
        assert(entries_view(es.push(p)) == seq![(es[0].0@, val_view(es[0].1))]
            + entries_view(es.drop_first()).push((p.0@, val_view(p.1))));
        assert(entries_view(es.push(p)) =~= entries_view(es).push((p.0@, val_view(p.1))));
    }
}

/// `entries_view` commutes with replacing one entry.
pub proof fn lemma_entries_view_update(
    es: Seq<(String, ConfigValue)>,
    j: int,
    p: (String, ConfigValue),
)
    requires
        0 <= j < es.len(),
    ensures
        entries_view(es.update(j, p)) == entries_view(es).update(j, (p.0@, val_view(p.1))),
    decreases es.len(),
{
    if j == 0 {
        assert(es.update(0, p).drop_first() =~= es.drop_first());
        assert(entries_view(es.update(j, p)) =~= entries_view(es).update(j, (p.0@, val_view(p.1))));
    } else {
        assert(es.update(j, p).drop_first() =~= es.drop_first().update(j - 1, p));
        lemma_entries_view_update(es.drop_first(), j - 1, p);
        lemma_entries_view_index(es);
        lemma_entries_view_index(es.drop_first());
        assert(entries_view(es.update(j, p)) =~= entries_view(es).update(j, (p.0@, val_view(p.1))));
    }
}

/// When `j` is the first index bound to `k`, lookup returns that entry and
/// upsert replaces exactly it.
pub proof fn lemma_assoc_first<V>(es: Seq<(Seq<char>, V)>, k: Seq<char>, j: int, v: V)
    requires
        0 <= j < es.len(),
        es[j].0 == k,
        forall|m: int| 0 <= m < j ==> es[m].0 != k,
    ensures
        assoc_lookup(es, k) == Some(es[j].1),
        assoc_upsert(es, k, v) == es.update(j, (k, v)),
    decreases j,
{
    if j == 0 {
        assert(assoc_upsert(es, k, v) =~= es.update(0, (k, v)));
    } else {
        lemma_assoc_first(es.drop_first(), k, j - 1, v);
        assert(assoc_upsert(es, k, v) =~= es.update(j, (k, v)));
    }
}

/// When `k` is absent, lookup fails and upsert appends.
pub proof fn lemma_assoc_absent<V>(es: Seq<(Seq<char>, V)>, k: Seq<char>, v: V)
    requires
        forall|m: int| 0 <= m < es.len() ==> es[m].0 != k,
    ensures
        assoc_lookup(es, k) is None,
        assoc_upsert(es, k, v) == es.push((k, v)),
    decreases es.len(),
{
    if es.len() == 0 {
        assert(assoc_upsert(es, k, v) =~= es.push((k, v)));
    } else {
        lemma_assoc_absent(es.drop_first(), k, v);
        assert(assoc_upsert(es, k, v) =~= es.push((k, v)));
    }
}

/// Well-formed table contents: unique keys, and every child value
/// well-formed in turn.
pub open spec fn entries_wf(es: Seq<(Seq<char>, Val)>) -> bool {
    entries_unique(es) && (forall|i: int| 0 <= i < es.len() ==> val_wf(#[trigger] es[i].1))
}

/// A present key has a first occurrence, and lookup returns its value.
proof fn lemma_lookup_first_index<V>(es: Seq<(Seq<char>, V)>, k: Seq<char>)
    requires
        assoc_lookup(es, k) is Some,
    ensures
        exists|j: int|
            0 <= j < es.len() && #[trigger] es[j].0 == k && (forall|m: int|
                0 <= m < j ==> es[m].0 != k) && es[j].1 == assoc_lookup(es, k)->Some_0,
    decreases es.len(),
{
    if es[0].0 == k {
        assert(es[0].0 == k && (forall|m: int| 0 <= m < 0 ==> es[m].0 != k));
    } else {
        lemma_lookup_first_index(es.drop_first(), k);
        let j0 = choose|j: int|
            0 <= j < es.drop_first().len() && #[trigger] es.drop_first()[j].0 == k && (forall|
                m: int,
            | 0 <= m < j ==> es.drop_first()[m].0 != k) && es.drop_first()[j].1 == assoc_lookup(
                es.drop_first(),
                k,
            )->Some_0;
        assert(es[j0 + 1].0 == k);
        assert(forall|m: int| 0 <= m < j0 + 1 ==> es[m].0 != k) by {
            assert(forall|m: int| 1 <= m < j0 + 1 ==> es[m].0 == es.drop_first()[m - 1].0);
        }
    }
}

/// An absent key occurs nowhere.
proof fn lemma_lookup_none_keys<V>(es: Seq<(Seq<char>, V)>, k: Seq<char>)
    requires
        assoc_lookup(es, k) is None,
    ensures
        forall|m: int| 0 <= m < es.len() ==> es[m].0 != k,
    decreases es.len(),
{
    if es.len() > 0 {
        lemma_lookup_none_keys(es.drop_first(), k);
        assert(forall|m: int| 1 <= m < es.len() ==> es[m].0 == es.drop_first()[m - 1].0);
    }
}

/// Binding a well-formed value keeps the table well-formed.
proof fn lemma_upsert_wf(es: Seq<(Seq<char>, Val)>, k: Seq<char>, v: Val)
    requires
        entries_wf(es),
        val_wf(v),
    ensures
        entries_wf(assoc_upsert(es, k, v)),
{
    if assoc_lookup(es, k) is Some {
        lemma_lookup_first_index(es, k);
        let j = choose|j: int|
            0 <= j < es.len() && #[trigger] es[j].0 == k && (forall|m: int|
                0 <= m < j ==> es[m].0 != k) && es[j].1 == assoc_lookup(es, k)->Some_0;
        lemma_assoc_first(es, k, j, v);
        let up = es.update(j, (k, v));
        assert(forall|m: int| 0 <= m < up.len() ==> up[m].0 == es[m].0);
        assert(entries_wf(up));
    } else {
        lemma_lookup_none_keys(es, k);
        lemma_assoc_absent(es, k, v);
        assert(entries_wf(es.push((k, v))));
    }
}

/// A successful insert keeps the tree well-formed at every depth.
pub proof fn lemma_insert_path_wf(
    es: Seq<(Seq<char>, Val)>,
    path: Seq<Seq<char>>,
    v: Val,
    es2: Seq<(Seq<char>, Val)>,
)
    requires
        path.len() >= 1,
        entries_wf(es),
        val_wf(v),
        insert_path(es, path, v) == Some(es2),
    ensures
        entries_wf(es2),
    decreases path.len(),
{
    if path.len() == 1 {
        lemma_upsert_wf(es, path[0], v);
    } else {
        let sub = match assoc_lookup(es, path[0]) {
            None => Seq::<(Seq<char>, Val)>::empty(),
            Some(Val::Table(t)) => t,
            Some(_) => Seq::<(Seq<char>, Val)>::empty(),
        };
        if assoc_lookup(es, path[0]) is Some {
            lemma_lookup_first_index(es, path[0]);
            let j = choose|j: int|
                0 <= j < es.len() && #[trigger] es[j].0 == path[0] && (forall|m: int|
                    0 <= m < j ==> es[m].0 != path[0]) && es[j].1 == assoc_lookup(
                    es,
                    path[0],
                )->Some_0;
            assert(val_wf(es[j].1));
            assert(entries_wf(sub));
        } else {
            assert(entries_wf(sub));
        }
        let t2 = insert_path(sub, path.drop_first(), v)->Some_0;
        lemma_insert_path_wf(sub, path.drop_first(), v, t2);
        assert(val_wf(Val::Table(t2)));
        lemma_upsert_wf(es, path[0], Val::Table(t2));
    }
}

/// Looking up a key right after binding it yields the bound value.
pub proof fn lemma_upsert_lookup<V>(es: Seq<(Seq<char>, V)>, k: Seq<char>, v: V)
    ensures
        assoc_lookup(assoc_upsert(es, k, v), k) == Some(v),
    decreases es.len(),
{
    if es.len() == 0 {
    } else if es[0].0 == k {
    } else {
        lemma_upsert_lookup(es.drop_first(), k, v);
        assert((seq![es[0]] + assoc_upsert(es.drop_first(), k, v)).drop_first()
            =~= assoc_upsert(es.drop_first(), k, v));
    }
}

/// Reading back an installed value: after a successful insert along
/// `path`, looking the same path up yields exactly the inserted value.
pub proof fn lemma_insert_then_lookup(
    es: Seq<(Seq<char>, Val)>,
    path: Seq<Seq<char>>,
    v: Val,
    es2: Seq<(Seq<char>, Val)>,
)
    requires
        path.len() >= 1,
        insert_path(es, path, v) == Some(es2),
    ensures
        lookup_path(es2, path) == Some(v),
    decreases path.len(),
{
    if path.len() == 1 {
        lemma_upsert_lookup(es, path[0], v);
    } else {
        let sub = match assoc_lookup(es, path[0]) {
            None => Seq::<(Seq<char>, Val)>::empty(),
            Some(Val::Table(t)) => t,
            Some(_) => Seq::<(Seq<char>, Val)>::empty(),
        };
        let t2 = insert_path(sub, path.drop_first(), v)->Some_0;
        lemma_upsert_lookup(es, path[0], Val::Table(t2));
        lemma_insert_then_lookup(sub, path.drop_first(), v, t2);
    }
}

/// Index of the first entry whose key equals `k`, if any.
pub(crate) fn find_key<V>(entries: &Vec<(String, V)>, k: &String) -> (r: Option<usize>)
    ensures
        match r {
            Some(j) => j < entries@.len() && entries@[j as int].0@ == k@
                && (forall|m: int| 0 <= m < j ==> entries@[m].0@ != k@),
            None => forall|m: int| 0 <= m < entries@.len() ==> entries@[m].0@ != k@,
        },
{
    let n = entries.len();
    let mut j: usize = 0;
    while j < n
        invariant
            j <= n,
            n == entries@.len(),
            forall|m: int| 0 <= m < j ==> entries@[m].0@ != k@,
        decreases n - j,
    {
        if entries[j].0 == *k {
            return Some(j);
        }
        j += 1;
    }
    None
}

/// Splits a dotted key string into its segments, in order.
pub fn split_key(key: &str) -> (r: Vec<String>)
    ensures
        r.deep_view() == split_dots(key@),
        r@.len() >= 1,
    decreases key@.len(),
{
    let n = key.unicode_len();
    let mut j: usize = 0;
    while j < n && !(key.get_char(j) == '.')
        invariant
            j <= n,
            n == key@.len(),
            sep_idx(key@, 0) == sep_idx(key@, j as int),
        decreases n - j,
    {
        proof {
            assert(sep_idx(key@, j as int) == sep_idx(key@, j + 1));
        }
        j += 1;
    }
    if j == n {
        assert(sep_idx(key@, 0) == key@.len());
        let mut segs: Vec<String> = Vec::new();
        segs.push(key.to_owned());
        proof {
            assert(segs.deep_view() =~= split_dots(key@));
        }
        segs
    } else {
        assert(sep_idx(key@, 0) == j as int);
        let first = key.substring_char(0, j).to_owned();
        let rest = key.substring_char(j + 1, n);
        let mut segs = split_key(rest);
        segs.insert(0, first);
        proof {
            assert(segs.deep_view() =~= split_dots(key@));
        }
        segs
    }
}

/// Installs `value` at the path suffix `path[i..]` inside `entries`,
/// creating intermediate tables; fails, leaving the entries unchanged, on
/// a type conflict.
fn insert_at(
    entries: &mut Vec<(String, ConfigValue)>,
    path: &Vec<String>,
    i: usize,
    value: ConfigValue,
) -> (r: Result<(), ConfigError>)
    requires
        i < path@.len(),
    ensures
        match r {
            Ok(_) => insert_path(
                entries_view(old(entries)@),
                path.deep_view().skip(i as int),
                val_view(value),
            ) == Some(entries_view(final(entries)@)),
            Err(e) => insert_path(
                entries_view(old(entries)@),
                path.deep_view().skip(i as int),
                val_view(value),
            ) is None && entries_view(final(entries)@) == entries_view(old(entries)@)
                && e == ConfigError::TypeConflict,
        },
    decreases path@.len() - i,
{
    let ghost pre = entries_view(entries@);
    let ghost suffix = path.deep_view().skip(i as int);
    proof {
        lemma_entries_view_index(entries@);
        assert(suffix[0] == path@[i as int]@);
    }
    let k = &path[i];
    let n = path.len();
    let last = i + 1 == n;
    match find_key(entries, k) {
        None => {
            proof {
                lemma_assoc_absent(pre, k@, val_view(value));
            }
            if last {
                let ghost vv = val_view(value);
                let pair = (k.clone(), value);
                let ghost gpair = pair;
                entries.push(pair);
                proof {
                    lemma_entries_view_push(old(entries)@, gpair);
                    assert(entries_view(entries@) =~= assoc_upsert(pre, k@, vv));
                }
                Ok(())
            } else {
                let mut sub: Vec<(String, ConfigValue)> = Vec::new();
                let res = insert_at(&mut sub, path, i + 1, value);
                proof {
                    assert(suffix.drop_first() =~= path.deep_view().skip(i + 1));
                    assert(entries_view(Seq::<(String, ConfigValue)>::empty())
                        =~= Seq::<(Seq<char>, Val)>::empty());
                }
                match res {
                    Ok(_) => {
                        let ghost t2 = entries_view(sub@);
                        let pair = (k.clone(), ConfigValue::Table(sub));
                        let ghost gpair = pair;
                        entries.push(pair);
                        proof {
                            lemma_entries_view_push(old(entries)@, gpair);
                            lemma_assoc_absent(pre, k@, Val::Table(t2));
                            assert(entries_view(entries@) =~= assoc_upsert(
                                pre,
                                k@,
                                Val::Table(t2),
                            ));
                        }
                        Ok(())
                    },
                    Err(e) => Err(e),
                }
            }
        },
        Some(j) => {
            proof {
                lemma_assoc_first(pre, k@, j as int, pre[j as int].1);
            }
            let (kk, oldv) = entries.remove(j);
            let ghost goldv = oldv;
            if last {
                let old_is_table = matches!(oldv, ConfigValue::Table(_));
                let new_is_table = matches!(value, ConfigValue::Table(_));
                if old_is_table != new_is_table {
                    entries.insert(j, (kk, oldv));
                    proof {
                        assert(entries@ =~= old(entries)@);
                    }
                    Err(ConfigError::TypeConflict)
                } else {
                    let ghost vv = val_view(value);
                    let pair = (kk, value);
                    let ghost gpair = pair;
                    entries.insert(j, pair);
                    proof {
                        lemma_assoc_first(pre, k@, j as int, vv);
                        assert(entries@ =~= old(entries)@.update(j as int, gpair));
                        lemma_entries_view_update(old(entries)@, j as int, gpair);
                        assert(entries_view(entries@) =~= assoc_upsert(pre, k@, vv));
                    }
                    Ok(())
                }
            } else {
                match oldv {
                    ConfigValue::Table(mut sub) => {
                        let ghost sub_pre = sub@;
                        let res = insert_at(&mut sub, path, i + 1, value);
                        proof {
                            assert(suffix.drop_first() =~= path.deep_view().skip(i + 1));
                        }
                        let ghost t2 = entries_view(sub@);
                        let pair = (kk, ConfigValue::Table(sub));
                        let ghost gpair = pair;
                        entries.insert(j, pair);
                        proof {
                            assert(entries@ =~= old(entries)@.update(j as int, gpair));
                            lemma_entries_view_update(old(entries)@, j as int, gpair);
                            if res is Ok {
                                lemma_assoc_first(pre, k@, j as int, Val::Table(t2));
                                assert(entries_view(entries@) =~= assoc_upsert(
                                    pre,
                                    k@,
                                    Val::Table(t2),
                                ));
                            } else {
                                assert(t2 == entries_view(sub_pre));
                                assert(val_view(gpair.1) == val_view(goldv));
                                assert(entries_view(entries@) =~= pre);
                            }
                        }
                        res
                    },
                    other => {
                        entries.insert(j, (kk, other));
                        proof {
                            assert(entries@ =~= old(entries)@);
                        }
                        Err(ConfigError::TypeConflict)
                    },
                }
            }
        },
    }
}

/// Accumulates one dotted key and its value into the root table; the
/// dotted key is split on `.` and intermediate tables are created as
/// needed.  Fails with a type conflict, leaving the tree unchanged, when
/// an intermediate segment is already a leaf or when a final segment
/// would change between leaf and table.
pub fn insert_config_value(
    config: &mut Vec<(String, ConfigValue)>,
    key: &str,
    value: ConfigValue,
) -> (r: Result<(), ConfigError>)
    ensures
        match r {
            Ok(_) => insert_path(entries_view(old(config)@), split_dots(key@), val_view(value))
                == Some(entries_view(final(config)@)),
            Err(e) => insert_path(entries_view(old(config)@), split_dots(key@), val_view(value))
                is None && entries_view(final(config)@) == entries_view(old(config)@)
                && e == ConfigError::TypeConflict,
        },
{
    let path = split_key(key);
    proof {
        assert(path.deep_view().skip(0) =~= path.deep_view());
    }
    insert_at(config, &path, 0, value)
}

/// The value reached by descending along `path[i..]`.
fn get_at<'a>(
    entries: &'a Vec<(String, ConfigValue)>,
    path: &Vec<String>,
    i: usize,
) -> (r: Option<&'a ConfigValue>)
    requires
        i < path@.len(),
    ensures
        match r {
            Some(v) => lookup_path(entries_view(entries@), path.deep_view().skip(i as int))
                == Some(val_view(*v)),
            None => lookup_path(entries_view(entries@), path.deep_view().skip(i as int)) is None,
        },
    decreases path@.len() - i,
{
    let ghost ev = entries_view(entries@);
    let ghost suffix = path.deep_view().skip(i as int);
    proof {
        lemma_entries_view_index(entries@);
        assert(suffix[0] == path@[i as int]@);
    }
    let k = &path[i];
    match find_key(entries, k) {
        None => {
            proof {
                lemma_assoc_absent(ev, k@, Val::Flag(false));
            }
            None
        },
        Some(j) => {
            proof {
                lemma_assoc_first(ev, k@, j as int, ev[j as int].1);
            }
            let v = &entries[j].1;
            let n = path.len();
            if i + 1 == n {
                Some(v)
            } else {
                proof {
                    assert(suffix.drop_first() =~= path.deep_view().skip(i + 1));
                }
                match v {
                    ConfigValue::Table(sub) => get_at(sub, path, i + 1),
                    _ => None,
                }
            }
        },
    }
}

/// The value bound to a dotted key in the root table, reached by the same
/// descent that the tree builder uses.
pub fn get_path<'a>(
    config: &'a Vec<(String, ConfigValue)>,
    key: &str,
) -> (r: Option<&'a ConfigValue>)
    ensures
        match r {
            Some(v) => lookup_path(entries_view(config@), split_dots(key@))
                == Some(val_view(*v)),
            None => lookup_path(entries_view(config@), split_dots(key@)) is None,
        },
{
    let path = split_key(key);
    proof {
        assert(path.deep_view().skip(0) =~= path.deep_view());
    }
    get_at(config, &path, 0)
}

impl ConfigValue {
    /// The table payload of a `Table` value, surrendered to the caller for
    /// mutation; `None` for a leaf.  The tree builder's type-conflict test
    /// rests on this leaf-versus-table distinction.
    pub fn as_map_mut(self) -> (r: Option<Vec<(String, ConfigValue)>>)
        ensures
            match r {
                Some(m) => val_view(self) == Val::Table(entries_view(m@)),
                None => !(val_view(self) is Table),
            },
    {
        if let ConfigValue::Table(m) = self {
            Some(m)
        } else {
            None
        }
    }
}

} // verus!
