//! The environment layer: which variables of a snapshot belong to the
//! configuration, how a variable name becomes a key path, and how the
//! resulting entries build a nested tree.
//!
//! A variable belongs to the layer when its lowercased name starts with the
//! lowercased prefix-plus-separator pattern. The rest of the name, with
//! separator occurrences turned into dots, is a dotted key path; its
//! segments are lowercase already. A path whose segments are not all plain
//! identifiers is kept as one single key.

use vstd::prelude::*;
use crate::coerce::{coerce_value, spec_coerce};
use crate::models::{ConfigError, EnvConfig, spec_separator};
use crate::text::{
    concat_str,
    has_prefix,
    key_path_exec,
    lower_str,
    replace_str,
    spec_has_prefix,
    spec_key_path,
    spec_lower,
    spec_replace,
    str_views,
};
use crate::value::{
    lemma_set_path_wf,
    set_path,
    spec_set_path,
    tree_wf,
    unique_keys,
    view_entries,
    Cfg,
    ConfigValue,
};

verus! {

broadcast use vstd::std_specs::vec::group_vec_axioms, vstd::seq::group_seq_axioms;

/// The key path of a prefix-stripped variable name: separator occurrences
/// become dots, and the dotted name splits as a path expression would.
pub open spec fn env_key_path(stripped: Seq<char>, sep: Seq<char>) -> Seq<Seq<char>> {
    spec_key_path(spec_replace(stripped, sep, "."@))
}

// ---- the layer over a whole snapshot ----

/// One variable folded into the tree: it contributes exactly when its
/// lowercased name starts with the lowercased prefix-plus-separator pattern.
pub open spec fn env_step(
    tree: Cfg,
    key: Seq<char>,
    val: Seq<char>,
    prefix: Seq<char>,
    sep: Seq<char>,
) -> Cfg {
    let pat = spec_lower(prefix + sep);
    let lk = spec_lower(key);
    if spec_has_prefix(lk, pat) {
        spec_set_path(tree, env_key_path(lk.skip(pat.len() as int), sep), spec_coerce(val))
    } else {
        tree
    }
}

/// The tree after folding the first `n` variables of the snapshot, in order.
pub open spec fn env_tree_upto(
    vars: Seq<(String, String)>,
    prefix: Seq<char>,
    sep: Seq<char>,
    n: int,
) -> Cfg
    decreases n,
{
    if n <= 0 {
        Cfg::Table(Seq::empty())
    } else {
        env_step(
            env_tree_upto(vars, prefix, sep, n - 1),
            vars[n - 1].0@,
            vars[n - 1].1@,
            prefix,
            sep,
        )
    }
}

/// The whole environment layer of a snapshot.
pub open spec fn env_layer_tree(vars: Seq<(String, String)>, prefix: Seq<char>, sep: Seq<char>) -> Cfg {
    env_tree_upto(vars, prefix, sep, vars.len() as int)
}

proof fn lemma_env_tree_upto_wf(
    vars: Seq<(String, String)>,
    prefix: Seq<char>,
    sep: Seq<char>,
    n: int,
)
    ensures
        tree_wf(env_tree_upto(vars, prefix, sep, n)),
        env_tree_upto(vars, prefix, sep, n) is Table,
    decreases n,
{
    if n > 0 {
        lemma_env_tree_upto_wf(vars, prefix, sep, n - 1);
        let t0 = env_tree_upto(vars, prefix, sep, n - 1);
        let key = vars[n - 1].0@;
        let val = vars[n - 1].1@;
        let pat = spec_lower(prefix + sep);
        let lk = spec_lower(key);
        if spec_has_prefix(lk, pat) {
            let path = env_key_path(lk.skip(pat.len() as int), sep);
            assert(tree_wf(spec_coerce(val)));
            assert(path.len() >= 1) by {
                crate::text::lemma_split_dots_len(
                    spec_replace(lk.skip(pat.len() as int), sep, "."@),
                );
            }
            lemma_set_path_wf(t0, path, spec_coerce(val));
        }
    }
}

/// Law: the environment layer is well formed — every table in it, at
/// every depth, binds each key exactly once. Together with the merge laws
/// this pins down the merged value at every key the layer holds.
pub proof fn lemma_env_layer_wf(vars: Seq<(String, String)>, prefix: Seq<char>, sep: Seq<char>)
    ensures
        env_layer_tree(vars, prefix, sep) is Table,
        tree_wf(env_layer_tree(vars, prefix, sep)),
        unique_keys(env_layer_tree(vars, prefix, sep)->Table_0),
{
    lemma_env_tree_upto_wf(vars, prefix, sep, vars.len() as int);
}

/// Some variable of the snapshot starts with the prefix itself.
pub open spec fn env_prefix_present(vars: Seq<(String, String)>, prefix: Seq<char>) -> bool {
    exists|i: int| 0 <= i < vars.len() && spec_has_prefix((#[trigger] vars[i]).0@, prefix)
}

/// Builds the environment layer from a snapshot of the process environment.
/// Fails exactly when not a single variable starts with the prefix.
/// A validated configuration always has a non-empty separator (an empty one
/// is a substring of every prefix), which the layer construction relies on.
#[verifier::loop_isolation(false)]
pub fn build_env_layer(vars: &Vec<(String, String)>, env_config: &EnvConfig) -> (r: Result<
    ConfigValue,
    ConfigError,
>)
    requires
        spec_separator(*env_config).len() > 0,
    ensures
        r is Ok <==> env_prefix_present(vars@, env_config.name@),
        r is Ok ==> r->Ok_0@ == env_layer_tree(
            vars@,
            env_config.name@,
            spec_separator(*env_config),
        ),
        r is Err ==> (r->Err_0 matches ConfigError::EnvPrefixNotFound(p) && p@
            == env_config.name@),
{
    let n = vars.len();
    let mut found = false;
    let mut i: usize = 0;
    while i < n
        invariant
            0 <= i <= n,
            found == exists|j: int|
                0 <= j < i && spec_has_prefix((#[trigger] vars@[j]).0@, env_config.name@),
        decreases n - i,
    {
        if !found && has_prefix(vars[i].0.as_str(), env_config.name.as_str()) {
            found = true;
        }
        i += 1;
    }
    if !found {
        return Err(ConfigError::EnvPrefixNotFound(env_config.name.clone()));
    }
    let sep = env_config.get_separator();
    let ghost ssep = spec_separator(*env_config);
    let pat_raw = concat_str(env_config.name.as_str(), sep);
    let pat = lower_str(pat_raw.as_str());
    let patlen = pat.unicode_len();
    let mut m: usize = 0;
    let mut tree = ConfigValue::Table(Vec::new());
    proof {
        assert(view_entries(Seq::<(String, ConfigValue)>::empty()) =~= Seq::<(
            Seq<char>,
            Cfg,
        )>::empty());
    }
    while m < n
        invariant
            0 <= m <= n,
            tree@ == env_tree_upto(vars@, env_config.name@, ssep, m as int),
            ssep.len() > 0,
            pat@ == spec_lower(env_config.name@ + ssep),
            patlen == pat@.len(),
        decreases n - m,
    {
        let ghost tree0 = tree@;
        let e = &vars[m];
        let lk = lower_str(e.0.as_str());
        if has_prefix(lk.as_str(), pat.as_str()) {
            let lklen = lk.as_str().unicode_len();
            let stripped = lk.as_str().substring_char(patlen, lklen);
            let dotted = replace_str(stripped, sep, ".");
            let path = key_path_exec(dotted.as_str());
            let val = coerce_value(e.1.clone());
            proof {
                assert(stripped@ =~= spec_lower(e.0@).skip(pat@.len() as int));
                assert(str_views(path@).skip(0) =~= str_views(path@));
            }
            tree = set_path(tree, &path, 0, val);
            proof {
                assert(tree@ == env_step(tree0, e.0@, e.1@, env_config.name@, ssep));
            }
        } else {
            proof {
                assert(tree@ == env_step(tree0, e.0@, e.1@, env_config.name@, ssep));
            }
        }
        proof {
            assert(env_tree_upto(vars@, env_config.name@, ssep, m + 1) == env_step(
                env_tree_upto(vars@, env_config.name@, ssep, m as int),
                vars@[m as int].0@,
                vars@[m as int].1@,
                env_config.name@,
                ssep,
            ));
        }
        m += 1;
    }
    Ok(tree)
}

} // verus!
