//! The dynamically shaped configuration tree, its mathematical model, and
//! the recursive merge that gives the environment layer precedence over the
//! file layer.

use vstd::prelude::*;
use crate::text::str_views;

verus! {

broadcast use vstd::std_specs::vec::group_vec_axioms, vstd::seq::group_seq_axioms;

/// The mathematical model of a configuration tree: a tagged value over
/// character sequences. Tables are ordered key/value sequences.
#[verifier::ext_equal]
pub enum Cfg {
    Null,
    Bool(bool),
    Int(i64),
    /// A number that does not fit `i64`, kept as its literal text.
    Num(Seq<char>),
    Str(Seq<char>),
    List(Seq<Cfg>),
    Table(Seq<(Seq<char>, Cfg)>),
}

/// One dynamically typed configuration value, as held at run time.
/// Its model (`view`) is a `Cfg`.
#[derive(Debug, PartialEq)]
pub enum ConfigValue {
    Null,
    Bool(bool),
    Int(i64),
    /// A number that does not fit `i64`, kept as its literal text.
    Num(String),
    Str(String),
    List(Vec<ConfigValue>),
    Table(Vec<(String, ConfigValue)>),
}

pub open spec fn view_value(v: ConfigValue) -> Cfg
    decreases v,
{
    match v {
        ConfigValue::Null => Cfg::Null,
        ConfigValue::Bool(b) => Cfg::Bool(b),
        ConfigValue::Int(i) => Cfg::Int(i),
        ConfigValue::Num(s) => Cfg::Num(s@),
        ConfigValue::Str(s) => Cfg::Str(s@),
        ConfigValue::List(items) => Cfg::List(view_list(items@)),
        ConfigValue::Table(entries) => Cfg::Table(view_entries(entries@)),
    }
}

pub open spec fn view_list(items: Seq<ConfigValue>) -> Seq<Cfg>
    decreases items,
{
    if items.len() == 0 {
        Seq::empty()
    } else {
        seq![view_value(items[0])] + view_list(items.drop_first())
    }
}

pub open spec fn view_entries(entries: Seq<(String, ConfigValue)>) -> Seq<(Seq<char>, Cfg)>
    decreases entries,
{
    if entries.len() == 0 {
        Seq::empty()
    } else {
        seq![(entries[0].0@, view_value(entries[0].1))] + view_entries(entries.drop_first())
    }
}

impl View for ConfigValue {
    type V = Cfg;

    open spec fn view(&self) -> Cfg {
        view_value(*self)
    }
}

pub proof fn lemma_view_list_index(items: Seq<ConfigValue>)
    ensures
        view_list(items).len() == items.len(),
        forall|i: int|
            0 <= i < items.len() ==> #[trigger] view_list(items)[i] == view_value(items[i]),
    decreases items.len(),
{
    if items.len() > 0 {
        lemma_view_list_index(items.drop_first());
    }
}

pub proof fn lemma_view_entries_index(entries: Seq<(String, ConfigValue)>)
    ensures
        view_entries(entries).len() == entries.len(),
        forall|i: int|
            0 <= i < entries.len() ==> #[trigger] view_entries(entries)[i] == (
                entries[i].0@,
                view_value(entries[i].1),
            ),
    decreases entries.len(),
{
    if entries.len() > 0 {
        lemma_view_entries_index(entries.drop_first());
    }
}

// ---- table operations over the model ----

/// Index of the first entry of `t` whose key is `k`, or the length of `t`
/// when no entry has that key.
pub open spec fn table_key_index(t: Seq<(Seq<char>, Cfg)>, k: Seq<char>) -> int
    decreases t.len(),
{
    if t.len() == 0 {
        0
    } else if t[0].0 == k {
        0
    } else {
        1 + table_key_index(t.drop_first(), k)
    }
}

pub open spec fn table_has_key(t: Seq<(Seq<char>, Cfg)>, k: Seq<char>) -> bool {
    table_key_index(t, k) < t.len()
}

/// The value at the first entry with key `k`, if any.
pub open spec fn table_lookup(t: Seq<(Seq<char>, Cfg)>, k: Seq<char>) -> Option<Cfg> {
    if table_has_key(t, k) {
        Some(t[table_key_index(t, k)].1)
    } else {
        None
    }
}

pub proof fn lemma_table_key_index(t: Seq<(Seq<char>, Cfg)>, k: Seq<char>)
    ensures
        0 <= table_key_index(t, k) <= t.len(),
        table_key_index(t, k) < t.len() ==> t[table_key_index(t, k)].0 == k,
        forall|j: int| 0 <= j < table_key_index(t, k) ==> (#[trigger] t[j]).0 != k,
    decreases t.len(),
{
    if t.len() > 0 && t[0].0 != k {
        lemma_table_key_index(t.drop_first(), k);
        assert forall|j: int| 0 <= j < table_key_index(t, k) implies (#[trigger] t[j]).0 != k by {
            if j >= 1 {
                assert(t.drop_first()[j - 1] == t[j]);
            }
        }
    }
}

// ---- the merge ----

/// The entries of a table, or the empty table for any other value.
pub open spec fn base_table(base: Cfg) -> Seq<(Seq<char>, Cfg)> {
    match base {
        Cfg::Table(t) => t,
        _ => t_empty(),
    }
}

pub open spec fn t_empty() -> Seq<(Seq<char>, Cfg)> {
    Seq::empty()
}

/// Merge an incoming value over a base value. A non-table incoming value
/// replaces the base outright; an incoming table is merged into the base
/// key by key, recursively.
pub open spec fn spec_merge(base: Cfg, inc: Cfg) -> Cfg
    decreases inc,
{
    match inc {
        Cfg::Table(entries) => Cfg::Table(spec_merge_entries(base_table(base), entries)),
        _ => inc,
    }
}

/// Fold the incoming entries, in order, into the destination table: a key
/// already present is merged in place, a new key is appended.
pub open spec fn spec_merge_entries(
    dst: Seq<(Seq<char>, Cfg)>,
    inc: Seq<(Seq<char>, Cfg)>,
) -> Seq<(Seq<char>, Cfg)>
    decreases inc,
{
    if inc.len() == 0 {
        dst
    } else {
        let k = inc[0].0;
        let i = table_key_index(dst, k);
        let dst2 = if i < dst.len() {
            dst.update(i, (k, spec_merge(dst[i].1, inc[0].1)))
        } else {
            dst.push((k, spec_merge(Cfg::Null, inc[0].1)))
        };
        spec_merge_entries(dst2, inc.drop_first())
    }
}

// ---- merge laws ----

/// No two entries of the table share a key.
pub open spec fn unique_keys(t: Seq<(Seq<char>, Cfg)>) -> bool {
    forall|i: int, j: int| 0 <= i < j < t.len() ==> (#[trigger] t[i]).0 != (#[trigger] t[j]).0
}

proof fn lemma_key_index_same_keys(
    t1: Seq<(Seq<char>, Cfg)>,
    t2: Seq<(Seq<char>, Cfg)>,
    k: Seq<char>,
)
    requires
        t1.len() == t2.len(),
        forall|i: int| 0 <= i < t1.len() ==> (#[trigger] t1[i]).0 == (#[trigger] t2[i]).0,
    ensures
        table_key_index(t1, k) == table_key_index(t2, k),
    decreases t1.len(),
{
    if t1.len() > 0 {
        assert(t1[0].0 == t2[0].0);
        if t1[0].0 != k {
            assert(forall|i: int|
                0 <= i < t1.drop_first().len() ==> (#[trigger] t1.drop_first()[i]).0 == (
                #[trigger] t2.drop_first()[i]).0) by {
                assert(forall|i: int|
                    0 <= i < t1.drop_first().len() ==> t1.drop_first()[i] == t1[i + 1]
                        && t2.drop_first()[i] == t2[i + 1]);
            }
            lemma_key_index_same_keys(t1.drop_first(), t2.drop_first(), k);
        }
    }
}

proof fn lemma_key_index_push(t: Seq<(Seq<char>, Cfg)>, p: (Seq<char>, Cfg), k: Seq<char>)
    ensures
        table_key_index(t.push(p), k) == if table_key_index(t, k) < t.len() {
            table_key_index(t, k)
        } else if p.0 == k {
            t.len() as int
        } else {
            t.len() + 1 as int
        },
        forall|i: int| 0 <= i < t.len() ==> #[trigger] t.push(p)[i] == t[i],
        t.push(p)[t.len() as int] == p,
    decreases t.len(),
{
    lemma_table_key_index(t, k);
    if t.len() == 0 {
        assert(t.push(p)[0] == p);
        assert(t.push(p).drop_first() =~= Seq::empty());
        if p.0 == k {
            assert(table_key_index(t.push(p), k) == 0);
        } else {
            assert(table_key_index(t.push(p), k) == 1) by {
                reveal_with_fuel(table_key_index, 2);
            }
        }
    } else {
        assert(t.push(p)[0] == t[0]);
        if t[0].0 == k {
            assert(table_key_index(t, k) == 0);
            assert(table_key_index(t.push(p), k) == 0);
        }
        if t[0].0 != k {
            lemma_key_index_push(t.drop_first(), p, k);
            assert(t.push(p).drop_first() =~= t.drop_first().push(p));
            assert(table_key_index(t.push(p), k) == 1 + table_key_index(
                t.drop_first().push(p),
                k,
            ));
            assert(table_key_index(t, k) == 1 + table_key_index(t.drop_first(), k));
        }
    }
}

/// The per-key characterization of the entry fold: for every key, the merged
/// table holds the destination value, the merged value, or the incoming
/// value (merged over null), according to where the key occurs.
pub proof fn lemma_merge_entries_lookup(
    dst: Seq<(Seq<char>, Cfg)>,
    inc: Seq<(Seq<char>, Cfg)>,
    k: Seq<char>,
)
    requires
        unique_keys(inc),
    ensures
        table_lookup(spec_merge_entries(dst, inc), k) == (match (
            table_lookup(dst, k),
            table_lookup(inc, k),
        ) {
            (Option::None, Option::None) => None::<Cfg>,
            (Option::Some(a), Option::None) => Some(a),
            (Option::None, Option::Some(b)) => Some(spec_merge(Cfg::Null, b)),
            (Option::Some(a), Option::Some(b)) => Some(spec_merge(a, b)),
        }),
    decreases inc,
{
    lemma_table_key_index(dst, k);
    lemma_table_key_index(inc, k);
    if inc.len() == 0 {
    } else {
        let k0 = inc[0].0;
        let v0 = inc[0].1;
        let i0 = table_key_index(dst, k0);
        let dst2 = if i0 < dst.len() {
            dst.update(i0, (k0, spec_merge(dst[i0].1, v0)))
        } else {
            dst.push((k0, spec_merge(Cfg::Null, v0)))
        };
        let rest = inc.drop_first();
        assert(unique_keys(rest)) by {
            assert(forall|i: int| 0 <= i < rest.len() ==> rest[i] == inc[i + 1]);
        }
        lemma_merge_entries_lookup(dst2, rest, k);
        lemma_table_key_index(dst, k0);
        lemma_table_key_index(dst2, k);
        lemma_table_key_index(rest, k);
        assert(forall|i: int| 0 <= i < rest.len() ==> rest[i] == inc[i + 1]);
        if i0 < dst.len() {
            lemma_key_index_same_keys(dst, dst2, k);
        } else {
            lemma_key_index_push(dst, (k0, spec_merge(Cfg::Null, v0)), k);
        }
        if k == k0 {
            // the key is settled by the first incoming entry; it does not
            // occur again in the rest
            assert(table_key_index(rest, k) == rest.len()) by {
                if table_key_index(rest, k) < rest.len() {
                    assert(rest[table_key_index(rest, k)].0 == k);
                    assert(inc[table_key_index(rest, k) + 1].0 == inc[0].0);
                }
            }
        } else {
            // lookups in `inc` shift to lookups in its tail
        }
    }
}

/// Law: merging an incoming (environment) table over a base (file) value is
/// resolved key by key — a key present only in the base keeps its base
/// value, a key present in the incoming table takes the incoming value,
/// merged recursively over the base value when the key is in both.
pub proof fn lemma_merge_lookup(base: Cfg, inc: Cfg, k: Seq<char>)
    requires
        inc is Table,
        unique_keys(inc->Table_0),
    ensures
        spec_merge(base, inc) is Table,
        table_lookup(spec_merge(base, inc)->Table_0, k) == (match (
            table_lookup(base_table(base), k),
            table_lookup(inc->Table_0, k),
        ) {
            (Option::None, Option::None) => None::<Cfg>,
            (Option::Some(a), Option::None) => Some(a),
            (Option::None, Option::Some(b)) => Some(spec_merge(Cfg::Null, b)),
            (Option::Some(a), Option::Some(b)) => Some(spec_merge(a, b)),
        }),
{
    lemma_merge_entries_lookup(base_table(base), inc->Table_0, k);
}

/// Law: on a key conflict the environment layer wins — a key bound to a
/// non-table value in the incoming layer ends up with exactly that value.
pub proof fn lemma_env_value_wins(file: Cfg, env: Cfg, k: Seq<char>)
    requires
        env is Table,
        unique_keys(env->Table_0),
        table_lookup(env->Table_0, k) is Some,
        !(table_lookup(env->Table_0, k)->Some_0 is Table),
    ensures
        table_lookup(spec_merge(file, env)->Table_0, k) == table_lookup(env->Table_0, k),
{
    lemma_merge_lookup(file, env, k);
}

/// Law: the merge is key-scoped — a key absent from the environment layer
/// keeps its file value, whatever the environment sets elsewhere.
pub proof fn lemma_file_value_kept(file: Cfg, env: Cfg, k: Seq<char>)
    requires
        env is Table,
        unique_keys(env->Table_0),
        table_lookup(env->Table_0, k) is None,
    ensures
        table_lookup(spec_merge(file, env)->Table_0, k) == table_lookup(base_table(file), k),
{
    lemma_merge_lookup(file, env, k);
}

// ---- tree well-formedness ----

/// Every table of the tree, at every depth, has pairwise distinct keys.
pub open spec fn tree_wf(c: Cfg) -> bool
    decreases c,
{
    match c {
        Cfg::List(items) => list_wf(items),
        Cfg::Table(entries) => unique_keys(entries) && entries_wf(entries),
        _ => true,
    }
}

pub open spec fn list_wf(items: Seq<Cfg>) -> bool
    decreases items,
{
    items.len() == 0 || (tree_wf(items[0]) && list_wf(items.drop_first()))
}

pub open spec fn entries_wf(entries: Seq<(Seq<char>, Cfg)>) -> bool
    decreases entries,
{
    entries.len() == 0 || (tree_wf(entries[0].1) && entries_wf(entries.drop_first()))
}

pub proof fn lemma_entries_wf_index(entries: Seq<(Seq<char>, Cfg)>)
    ensures
        entries_wf(entries) <==> (forall|i: int|
            0 <= i < entries.len() ==> tree_wf((#[trigger] entries[i]).1)),
    decreases entries.len(),
{
    if entries.len() > 0 {
        lemma_entries_wf_index(entries.drop_first());
        assert(forall|i: int|
            0 <= i < entries.drop_first().len() ==> #[trigger] entries.drop_first()[i] == entries[
                i + 1
            ]);
        if entries_wf(entries) {
            assert forall|i: int| 0 <= i < entries.len() implies tree_wf(
                (#[trigger] entries[i]).1,
            ) by {
                if i >= 1 {
                    assert(entries.drop_first()[i - 1] == entries[i]);
                    assert(tree_wf(entries.drop_first()[i - 1].1));
                }
            }
        }
        if forall|i: int| 0 <= i < entries.len() ==> tree_wf((#[trigger] entries[i]).1) {
            assert(tree_wf(entries[0].1));
            assert forall|i: int| 0 <= i < entries.drop_first().len() implies tree_wf(
                (#[trigger] entries.drop_first()[i]).1,
            ) by {
                assert(entries.drop_first()[i] == entries[i + 1]);
            }
            assert(entries_wf(entries.drop_first()));
            assert(entries_wf(entries));
        }
    }
}

/// Law: with nothing to merge in — an empty environment layer — a file
/// table comes through the merge unchanged.
pub proof fn lemma_merge_empty_env(file: Cfg)
    requires
        file is Table,
    ensures
        spec_merge(file, Cfg::Table(Seq::empty())) == file,
{
}

/// Law: merging two well-formed trees gives a well-formed tree.
pub proof fn lemma_merge_wf(base: Cfg, inc: Cfg)
    requires
        tree_wf(base),
        tree_wf(inc),
    ensures
        tree_wf(spec_merge(base, inc)),
    decreases inc,
{
    match inc {
        Cfg::Table(entries) => {
            lemma_entries_wf_index(entries);
            let dst = base_table(base);
            assert(unique_keys(dst) && entries_wf(dst)) by {
                match base {
                    Cfg::Table(_) => {},
                    _ => {
                        assert(dst =~= Seq::<(Seq<char>, Cfg)>::empty());
                    },
                }
            }
            lemma_entries_wf_index(dst);
            lemma_merge_entries_wf(dst, entries);
        },
        _ => {},
    }
}

proof fn lemma_merge_entries_wf(dst: Seq<(Seq<char>, Cfg)>, inc: Seq<(Seq<char>, Cfg)>)
    requires
        unique_keys(dst),
        forall|j: int| 0 <= j < dst.len() ==> tree_wf((#[trigger] dst[j]).1),
        forall|j: int| 0 <= j < inc.len() ==> tree_wf((#[trigger] inc[j]).1),
    ensures
        unique_keys(spec_merge_entries(dst, inc)),
        entries_wf(spec_merge_entries(dst, inc)),
    decreases inc,
{
    if inc.len() == 0 {
        lemma_entries_wf_index(dst);
    } else {
        let k = inc[0].0;
        let i = table_key_index(dst, k);
        lemma_table_key_index(dst, k);
        let old_v = if i < dst.len() {
            dst[i].1
        } else {
            Cfg::Null
        };
        lemma_merge_wf(old_v, inc[0].1);
        let merged = spec_merge(old_v, inc[0].1);
        let dst2 = if i < dst.len() {
            dst.update(i, (k, merged))
        } else {
            dst.push((k, merged))
        };
        assert(unique_keys(dst2)) by {
            if i < dst.len() {
                assert(dst[i].0 == k);
                assert forall|a: int, b: int| 0 <= a < b < dst2.len() implies (
                #[trigger] dst2[a]).0 != (#[trigger] dst2[b]).0 by {
                    assert(dst2[a].0 == dst[a].0);
                    assert(dst2[b].0 == dst[b].0);
                }
            } else {
                assert forall|a: int, b: int| 0 <= a < b < dst2.len() implies (
                #[trigger] dst2[a]).0 != (#[trigger] dst2[b]).0 by {
                    assert(dst2[a] == dst[a]);
                    if b < dst.len() {
                        assert(dst2[b] == dst[b]);
                    } else {
                        assert(dst2[b].0 == k);
                        assert(dst[a].0 != k);
                    }
                }
            }
        }
        assert(forall|j: int| 0 <= j < dst2.len() ==> tree_wf((#[trigger] dst2[j]).1)) by {
            if i < dst.len() {
                assert(forall|j: int| 0 <= j < dst2.len() && j != i ==> dst2[j] == dst[j]);
                assert(dst2[i].1 == merged);
            } else {
                assert(forall|j: int| 0 <= j < dst.len() ==> #[trigger] dst2[j] == dst[j]);
                assert(dst2[dst.len() as int].1 == merged);
            }
        }
        let rest = inc.drop_first();
        assert(forall|j: int| 0 <= j < rest.len() ==> #[trigger] rest[j] == inc[j + 1]);
        lemma_merge_entries_wf(dst2, rest);
    }
}

// ---- writing one value at a key path ----

/// Writing `v` at `path` in a tree: descend along the path, turning any
/// non-table node into a table on the way, and merge `v` over whatever the
/// last segment holds (for a non-table `v`, an overwrite). An empty path
/// leaves the tree unchanged.
pub open spec fn spec_set_path(tree: Cfg, path: Seq<Seq<char>>, v: Cfg) -> Cfg
    decreases path.len(),
{
    if path.len() == 0 {
        tree
    } else {
        let entries = base_table(tree);
        let i = table_key_index(entries, path[0]);
        let old_child = if i < entries.len() {
            entries[i].1
        } else {
            Cfg::Null
        };
        let new_child = if path.len() == 1 {
            spec_merge(old_child, v)
        } else {
            spec_set_path(old_child, path.drop_first(), v)
        };
        if i < entries.len() {
            Cfg::Table(entries.update(i, (path[0], new_child)))
        } else {
            Cfg::Table(entries.push((path[0], new_child)))
        }
    }
}

pub fn set_path(tree: ConfigValue, path: &Vec<String>, from: usize, v: ConfigValue) -> (r:
    ConfigValue)
    requires
        from < path@.len(),
    ensures
        r@ == spec_set_path(tree@, str_views(path@).skip(from as int), v@),
    decreases path@.len() - from,
{
    let ghost spath = str_views(path@).skip(from as int);
    let ghost t0 = base_table(tree@);
    let mut entries: Vec<(String, ConfigValue)> = match tree {
        ConfigValue::Table(es) => es,
        _ => Vec::new(),
    };
    proof {
        assert(view_entries(entries@) =~= t0);
        assert(spath[0] == path@[from as int]@);
        lemma_table_key_index(t0, spath[0]);
    }
    let k = &path[from];
    let idx_opt = table_find(&entries, k.as_str());
    let ghost i = table_key_index(t0, spath[0]);
    if from == path.len() - 1 {
        proof {
            assert(spath.len() == 1);
        }
        match idx_opt {
            Some(idx) => {
                let ghost e0 = entries@;
                let pair = entries.remove(idx);
                let merged = merge_values(&pair.1, &v);
                entries.insert(idx, (pair.0, merged));
                proof {
                    lemma_view_entries_index(e0);
                    lemma_view_entries_index(entries@);
                    assert(entries@ =~= e0.update(idx as int, (e0[idx as int].0, entries@[
                        idx as int].1)));
                    assert(view_entries(entries@) =~= t0.update(
                        i,
                        (spath[0], spec_merge(t0[i].1, v@)),
                    ));
                }
            },
            None => {
                let ghost e0 = entries@;
                let nullv = ConfigValue::Null;
                let merged = merge_values(&nullv, &v);
                entries.push((k.clone(), merged));
                proof {
                    lemma_view_entries_index(e0);
                    lemma_view_entries_index(entries@);
                    assert(view_entries(entries@) =~= t0.push(
                        (spath[0], spec_merge(Cfg::Null, v@)),
                    ));
                }
            },
        }
    } else {
        proof {
            assert(spath.drop_first() =~= str_views(path@).skip(from + 1));
        }
        match idx_opt {
            Some(idx) => {
                let ghost e0 = entries@;
                let pair = entries.remove(idx);
                let newchild = set_path(pair.1, path, from + 1, v);
                entries.insert(idx, (pair.0, newchild));
                proof {
                    lemma_view_entries_index(e0);
                    lemma_view_entries_index(entries@);
                    assert(entries@ =~= e0.update(idx as int, (e0[idx as int].0, entries@[
                        idx as int].1)));
                    assert(view_entries(entries@) =~= t0.update(
                        i,
                        (spath[0], spec_set_path(t0[i].1, spath.drop_first(), v@)),
                    ));
                }
            },
            None => {
                let ghost e0 = entries@;
                let newchild = set_path(ConfigValue::Null, path, from + 1, v);
                entries.push((k.clone(), newchild));
                proof {
                    lemma_view_entries_index(e0);
                    lemma_view_entries_index(entries@);
                    assert(view_entries(entries@) =~= t0.push(
                        (spath[0], spec_set_path(Cfg::Null, spath.drop_first(), v@)),
                    ));
                }
            },
        }
    }
    ConfigValue::Table(entries)
}

/// Writing a well-formed value keeps the tree well formed, and yields a
/// table whenever the path is non-empty.
pub proof fn lemma_set_path_wf(tree: Cfg, path: Seq<Seq<char>>, v: Cfg)
    requires
        tree_wf(tree),
        tree_wf(v),
    ensures
        tree_wf(spec_set_path(tree, path, v)),
        path.len() > 0 ==> spec_set_path(tree, path, v) is Table,
    decreases path.len(),
{
    if path.len() > 0 {
        let entries = base_table(tree);
        let k = path[0];
        let i = table_key_index(entries, k);
        assert(unique_keys(entries) && entries_wf(entries)) by {
            match tree {
                Cfg::Table(_) => {},
                _ => {
                    assert(entries =~= Seq::<(Seq<char>, Cfg)>::empty());
                },
            }
        }
        lemma_table_key_index(entries, k);
        lemma_entries_wf_index(entries);
        let old_child = if i < entries.len() {
            entries[i].1
        } else {
            Cfg::Null
        };
        assert(tree_wf(old_child));
        let nv = if path.len() == 1 {
            lemma_merge_wf(old_child, v);
            spec_merge(old_child, v)
        } else {
            lemma_set_path_wf(old_child, path.drop_first(), v);
            spec_set_path(old_child, path.drop_first(), v)
        };
        if i < entries.len() {
            let ne = entries.update(i, (k, nv));
            assert(unique_keys(ne)) by {
                assert(entries[i].0 == k);
                assert forall|a: int, b: int| 0 <= a < b < ne.len() implies (#[trigger] ne[a]).0
                    != (#[trigger] ne[b]).0 by {
                    assert(ne[a].0 == entries[a].0);
                    assert(ne[b].0 == entries[b].0);
                }
            }
            lemma_entries_wf_index(ne);
        } else {
            let ne = entries.push((k, nv));
            assert(unique_keys(ne)) by {
                assert forall|a: int, b: int| 0 <= a < b < ne.len() implies (#[trigger] ne[a]).0
                    != (#[trigger] ne[b]).0 by {
                    assert(ne[a] == entries[a]);
                    if b < entries.len() {
                        assert(ne[b] == entries[b]);
                    } else {
                        assert(ne[b].0 == k);
                        assert(entries[a].0 != k);
                    }
                }
            }
            lemma_entries_wf_index(ne);
            assert(entries_wf(ne)) by {
                assert(forall|a: int|
                    0 <= a < entries.len() ==> (#[trigger] ne[a]).1 == entries[a].1);
                assert(ne[entries.len() as int].1 == nv);
            }
        }
    }
}

/// No key of `inc` occurs in `dst`.
pub open spec fn keys_disjoint(dst: Seq<(Seq<char>, Cfg)>, inc: Seq<(Seq<char>, Cfg)>) -> bool {
    forall|i: int, j: int|
        0 <= i < dst.len() && 0 <= j < inc.len() ==> (#[trigger] dst[i]).0 != (
        #[trigger] inc[j]).0
}

/// Law: merging a well-formed value over nothing gives the value back.
pub proof fn lemma_merge_onto_null(v: Cfg)
    requires
        tree_wf(v),
    ensures
        spec_merge(Cfg::Null, v) == v,
    decreases v,
{
    match v {
        Cfg::Table(entries) => {
            lemma_entries_wf_index(entries);
            lemma_merge_entries_fresh(Seq::empty(), entries);
            assert(Seq::empty() + entries =~= entries);
        },
        _ => {},
    }
}

/// Folding entries whose keys are all new appends them, each merged over
/// nothing.
proof fn lemma_merge_entries_fresh(dst: Seq<(Seq<char>, Cfg)>, inc: Seq<(Seq<char>, Cfg)>)
    requires
        unique_keys(inc),
        keys_disjoint(dst, inc),
        forall|j: int| 0 <= j < inc.len() ==> tree_wf((#[trigger] inc[j]).1),
    ensures
        spec_merge_entries(dst, inc) == dst + inc,
    decreases inc,
{
    if inc.len() == 0 {
        assert(dst + inc =~= dst);
    } else {
        let k = inc[0].0;
        lemma_table_key_index(dst, k);
        assert(table_key_index(dst, k) == dst.len()) by {
            if table_key_index(dst, k) < dst.len() {
                assert(dst[table_key_index(dst, k)].0 == k);
            }
        }
        lemma_merge_onto_null(inc[0].1);
        let dst2 = dst.push((k, spec_merge(Cfg::Null, inc[0].1)));
        assert((k, spec_merge(Cfg::Null, inc[0].1)) == inc[0]);
        let rest = inc.drop_first();
        assert(forall|j: int| 0 <= j < rest.len() ==> #[trigger] rest[j] == inc[j + 1]);
        assert(keys_disjoint(dst2, rest)) by {
            assert(forall|i: int| 0 <= i < dst.len() ==> #[trigger] dst2[i] == dst[i]);
            assert(dst2[dst.len() as int] == inc[0]);
        }
        lemma_merge_entries_fresh(dst2, rest);
        assert(dst.push(inc[0]) + rest =~= dst + inc);
    }
}

// ---- executable deep copy ----

pub fn clone_value(v: &ConfigValue) -> (r: ConfigValue)
    ensures
        r@ == v@,
    decreases *v,
{
    match v {
        ConfigValue::Null => ConfigValue::Null,
        ConfigValue::Bool(b) => ConfigValue::Bool(*b),
        ConfigValue::Int(i) => ConfigValue::Int(*i),
        ConfigValue::Num(s) => ConfigValue::Num(s.clone()),
        ConfigValue::Str(s) => ConfigValue::Str(s.clone()),
        ConfigValue::List(items) => ConfigValue::List(clone_list(items)),
        ConfigValue::Table(entries) => ConfigValue::Table(clone_entries(entries)),
    }
}

pub fn clone_list(items: &Vec<ConfigValue>) -> (r: Vec<ConfigValue>)
    ensures
        view_list(r@) == view_list(items@),
    decreases *items,
{
    let n = items.len();
    let mut out: Vec<ConfigValue> = Vec::new();
    let mut i: usize = 0;
    while i < n
        invariant
            0 <= i <= n,
            n == items@.len(),
            out@.len() == i,
            forall|j: int| 0 <= j < i ==> view_value(#[trigger] out@[j]) == view_value(items@[j]),
        decreases n - i,
    {
        let c = clone_value(&items[i]);
        out.push(c);
        i += 1;
    }
    proof {
        lemma_view_list_index(out@);
        lemma_view_list_index(items@);
        assert(view_list(out@) =~= view_list(items@));
    }
    out
}

pub fn clone_entries(entries: &Vec<(String, ConfigValue)>) -> (r: Vec<(String, ConfigValue)>)
    ensures
        view_entries(r@) == view_entries(entries@),
    decreases *entries,
{
    let n = entries.len();
    let mut out: Vec<(String, ConfigValue)> = Vec::new();
    let mut i: usize = 0;
    while i < n
        invariant
            0 <= i <= n,
            n == entries@.len(),
            out@.len() == i,
            forall|j: int|
                0 <= j < i ==> (#[trigger] out@[j]).0@ == entries@[j].0@ && view_value(
                    out@[j].1,
                ) == view_value(entries@[j].1),
        decreases n - i,
    {
        let e = &entries[i];
        let c = clone_value(&e.1);
        out.push((e.0.clone(), c));
        i += 1;
    }
    proof {
        lemma_view_entries_index(out@);
        lemma_view_entries_index(entries@);
        assert(view_entries(out@) =~= view_entries(entries@));
    }
    out
}

// ---- executable table lookup ----

/// Index of the first entry with key `k`, mirroring `table_key_index`.
pub fn table_find(entries: &Vec<(String, ConfigValue)>, k: &str) -> (r: Option<usize>)
    ensures
        match r {
            Some(i) => 0 <= i < entries@.len() && table_key_index(view_entries(entries@), k@)
                == i,
            None => table_key_index(view_entries(entries@), k@) == entries@.len(),
        },
{
    let n = entries.len();
    proof {
        lemma_view_entries_index(entries@);
        lemma_table_key_index(view_entries(entries@), k@);
    }
    let mut i: usize = 0;
    while i < n
        invariant
            0 <= i <= n,
            n == entries@.len(),
            view_entries(entries@).len() == n,
            forall|j: int|
                0 <= j < n ==> #[trigger] view_entries(entries@)[j] == (
                    entries@[j].0@,
                    view_value(entries@[j].1),
                ),
            0 <= table_key_index(view_entries(entries@), k@) <= n,
            table_key_index(view_entries(entries@), k@) < n ==> view_entries(entries@)[
                table_key_index(view_entries(entries@), k@)
            ].0 == k@,
            forall|j: int|
                0 <= j < table_key_index(view_entries(entries@), k@) ==> (
                #[trigger] view_entries(entries@)[j]).0 != k@,
            forall|j: int| 0 <= j < i ==> (#[trigger] view_entries(entries@)[j]).0 != k@,
        decreases n - i,
    {
        if crate::text::str_eq(entries[i].0.as_str(), k) {
            proof {
                let t = view_entries(entries@);
                let idx = table_key_index(t, k@);
                assert(t[i as int].0 == k@);
                if idx < i as int {
                    assert(t[idx].0 != k@);
                }
                if idx > i as int {
                    assert(t[i as int].0 != k@);
                }
            }
            return Some(i);
        }
        i += 1;
    }
    None
}

// ---- executable merge ----

/// Merge `inc` over `base`: the run-time counterpart of `spec_merge`.
#[verifier::loop_isolation(false)]
pub fn merge_values(base: &ConfigValue, inc: &ConfigValue) -> (r: ConfigValue)
    ensures
        r@ == spec_merge(base@, inc@),
    decreases *inc,
{
    match inc {
        ConfigValue::Table(inc_entries) => {
            let mut out: Vec<(String, ConfigValue)> = match base {
                ConfigValue::Table(es) => clone_entries(es),
                _ => Vec::new(),
            };
            proof {
                assert(view_entries(out@) =~= base_table(base@));
            }
            let ghost base0 = base_table(base@);
            let ghost incv = view_entries(inc_entries@);
            let n = inc_entries.len();
            proof {
                lemma_view_entries_index(inc_entries@);
                assert(incv.skip(0) =~= incv);
            }
            let mut j: usize = 0;
            while j < n
                invariant
                    0 <= j <= n,
                    n == inc_entries@.len(),
                    incv == view_entries(inc_entries@),
                    incv.len() == n,
                    forall|l: int|
                        0 <= l < n ==> #[trigger] incv[l] == (
                            inc_entries@[l].0@,
                            view_value(inc_entries@[l].1),
                        ),
                    spec_merge_entries(base0, incv) == spec_merge_entries(
                        view_entries(out@),
                        incv.skip(j as int),
                    ),
                decreases n - j,
            {
                let ghost out0 = out@;
                let ghost t = view_entries(out0);
                let ghost k = incv[j as int].0;
                let ghost v = incv[j as int].1;
                let e = &inc_entries[j];
                proof {
                    let cv = *inc;
                    let p = inc_entries@[j as int];
                    assert(cv == ConfigValue::Table(*inc_entries));
                    assert(decreases_to!(cv => cv->Table_0));
                    assert(decreases_to!(*inc_entries => inc_entries@));
                    assert(decreases_to!(inc_entries@ => inc_entries@[j as int]));
                    assert(decreases_to!(p => p.1));
                    assert(decreases_to!(*inc => inc_entries@[j as int].1));
                }
                let idx_opt = table_find(&out, e.0.as_str());
                match idx_opt {
                    Some(i) => {
                        let m = merge_values(&out[i].1, &e.1);
                        proof {
                            lemma_view_entries_index(out0);
                        }
                        out[i] = (e.0.clone(), m);
                        proof {
                            lemma_view_entries_index(out@);
                            lemma_view_entries_index(out0);
                            assert(view_entries(out@) =~= t.update(
                                i as int,
                                (k, spec_merge(t[i as int].1, v)),
                            ));
                        }
                    },
                    None => {
                        let nullv = ConfigValue::Null;
                        let m = merge_values(&nullv, &e.1);
                        out.push((e.0.clone(), m));
                        proof {
                            lemma_view_entries_index(out@);
                            lemma_view_entries_index(out0);
                            assert(view_entries(out@) =~= t.push((k, spec_merge(Cfg::Null, v))));
                        }
                    },
                }
                proof {
                    assert(incv.skip(j as int)[0] == incv[j as int]);
                    assert(incv.skip(j as int).drop_first() =~= incv.skip(j + 1));
                }
                j += 1;
            }
            proof {
                assert(incv.skip(n as int) =~= Seq::empty());
                assert(spec_merge_entries(base0, incv) == view_entries(out@));
            }
            ConfigValue::Table(out)
        },
        _ => clone_value(inc),
    }
}

} // verus!
