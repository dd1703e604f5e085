//! The resolution pipeline: parameter validation, layer construction,
//! precedence-ordered merging, and the diagnostics gate.

use vstd::prelude::*;
use crate::envsource::{build_env_layer, env_layer_tree, env_prefix_present};
use crate::filesource::{build_file_layer, file_layer_tree, lemma_expand_is_table, parsed_raw, spec_file_kind};
use crate::models::{spec_separator, ConfigError, EnvConfig, FileInput, LoadingParam};
use crate::text::{
    concat_str,
    contains_sub,
    lower_str,
    match_at,
    spec_contains,
    spec_lower,
    str_eq,
};
use crate::value::{merge_values, spec_merge, Cfg, ConfigValue};

verus! {

// ---- validation ----

/// An environment configuration is unusable when its prefix contains the
/// separator: stripping the prefix from a variable name would be ambiguous.
pub open spec fn env_config_invalid(c: EnvConfig) -> bool {
    spec_contains(c.name@, spec_separator(c))
}

/// The loading parameters name at least one source, and a named
/// environment source is usable.
pub open spec fn params_valid(param: LoadingParam) -> bool {
    &&& (param.file is Some || param.env_prefix is Some)
    &&& (param.env_prefix is Some ==> !env_config_invalid(param.env_prefix->0))
}

fn validate_env_config(env_config: &EnvConfig) -> (r: Result<(), ConfigError>)
    ensures
        r is Ok <==> !env_config_invalid(*env_config),
        r is Err ==> (r->Err_0 matches ConfigError::InvalidEnvConfig { prefix, separator }
            && prefix@ == env_config.name@ && separator@ == spec_separator(*env_config)),
{
    let separator = env_config.get_separator();
    if contains_sub(env_config.name.as_str(), separator) {
        Err(
            ConfigError::InvalidEnvConfig {
                prefix: env_config.name.clone(),
                separator: String::from_str(separator),
            },
        )
    } else {
        Ok(())
    }
}

/// Checks that the parameters name at least one source and that the
/// environment prefix does not contain the separator.
pub fn validate_loading_params(param: &LoadingParam) -> (r: Result<(), ConfigError>)
    ensures
        r is Ok <==> params_valid(*param),
        (param.file is None && param.env_prefix is None) ==> r == Err::<(), ConfigError>(
            ConfigError::InvalidLoadingParam,
        ),
        (r is Err && (param.file is Some || param.env_prefix is Some)) ==> (r->Err_0 matches
            ConfigError::InvalidEnvConfig { prefix, separator }
            && param.env_prefix is Some
            && prefix@ == param.env_prefix->0.name@
            && separator@ == spec_separator(param.env_prefix->0)),
{
    if param.file.is_none() && param.env_prefix.is_none() {
        return Err(ConfigError::InvalidLoadingParam);
    }
    match &param.env_prefix {
        Some(env_config) => match validate_env_config(env_config) {
            Err(e) => Err(e),
            Ok(_) => Ok(()),
        },
        None => Ok(()),
    }
}

// ---- resolution ----

/// When resolution succeeds: the parameters are valid, a declared file was
/// found and its text parses in the inferred format, and a declared
/// environment prefix matches at least one variable.
pub open spec fn resolve_ok(
    param: LoadingParam,
    file: FileInput,
    vars: Seq<(String, String)>,
) -> bool {
    &&& params_valid(param)
    &&& (param.file is Some ==> file is Read && parsed_raw(
        file->Read_0@,
        spec_file_kind(param.file->0@),
    ) is Some)
    &&& (param.env_prefix is Some ==> env_prefix_present(vars, param.env_prefix->0.name@))
}

/// The resolved tree: the parsed file layer (or the empty table) with the
/// environment layer (or the empty table) merged over it — the
/// environment always wins on conflicting keys.
pub open spec fn resolved_model(
    param: LoadingParam,
    file: FileInput,
    vars: Seq<(String, String)>,
) -> Cfg {
    let file_tree = if param.file is Some {
        file_layer_tree(file->Read_0@, spec_file_kind(param.file->0@))
    } else {
        Cfg::Table(Seq::empty())
    };
    let env_tree = if param.env_prefix is Some {
        env_layer_tree(vars, param.env_prefix->0.name@, spec_separator(param.env_prefix->0))
    } else {
        Cfg::Table(Seq::empty())
    };
    spec_merge(file_tree, env_tree)
}

/// Resolves the configuration tree described by the parameters, from the
/// file's text (as found by the caller) and a snapshot of the process
/// environment. Checks run in a fixed order: validation, then the file's
/// presence, then the prefix match, then reading and parsing.
pub fn resolve_config(
    param: &LoadingParam,
    file: &FileInput,
    env_vars: &Vec<(String, String)>,
) -> (r: Result<ConfigValue, ConfigError>)
    ensures
        r is Ok <==> resolve_ok(*param, *file, env_vars@),
        r is Ok ==> r->Ok_0@ == resolved_model(*param, *file, env_vars@),
        (param.file is None && param.env_prefix is None) ==> r == Err::<
            ConfigValue,
            ConfigError,
        >(ConfigError::InvalidLoadingParam),
        (!params_valid(*param) && (param.file is Some || param.env_prefix is Some)) ==> (
        r->Err_0 matches ConfigError::InvalidEnvConfig { prefix, separator }
            && prefix@ == param.env_prefix->0.name@
            && separator@ == spec_separator(param.env_prefix->0)),
        (params_valid(*param) && param.file is Some && file is Absent) ==> (r->Err_0 matches
            ConfigError::FileNotFound(p) && p@ == param.file->0@),
        (params_valid(*param) && (param.file is Some ==> !(file is Absent)) && param.env_prefix
            is Some && !env_prefix_present(env_vars@, param.env_prefix->0.name@)) ==> (
        r->Err_0 matches ConfigError::EnvPrefixNotFound(p) && p@ == param.env_prefix->0.name@),
        (params_valid(*param) && param.file is Some && !(file is Absent) && (param.env_prefix
            is Some ==> env_prefix_present(env_vars@, param.env_prefix->0.name@)) && !(r is Ok))
            ==> r->Err_0 is Config,
{
    if let Err(e) = validate_loading_params(param) {
        return Err(e);
    }
    // a declared file must exist before anything is read or matched
    if let Some(path) = &param.file {
        if let FileInput::Absent = file {
            return Err(ConfigError::FileNotFound(path.clone()));
        }
    }
    // the environment layer, with its prefix-match check
    let mut env_tree: ConfigValue = ConfigValue::Table(Vec::new());
    if let Some(env_config) = &param.env_prefix {
        proof {
            if spec_separator(*env_config).len() == 0 {
                assert(env_config.name@.subrange(0, 0) =~= spec_separator(*env_config));
                assert(match_at(env_config.name@, spec_separator(*env_config), 0));
            }
        }
        match build_env_layer(env_vars, env_config) {
            Err(e) => {
                return Err(e);
            },
            Ok(tree) => {
                env_tree = tree;
            },
        }
    } else {
        proof {
            assert(crate::value::view_entries(Seq::<(String, ConfigValue)>::empty()) =~= Seq::<
                (Seq<char>, Cfg),
            >::empty());
        }
    }
    // the file layer, read and parsed last
    let mut file_tree: ConfigValue = ConfigValue::Table(Vec::new());
    if let Some(path) = &param.file {
        match build_file_layer(path.as_str(), file) {
            Err(e) => {
                return Err(e);
            },
            Ok(tree) => {
                file_tree = tree;
            },
        }
    } else {
        proof {
            assert(crate::value::view_entries(Seq::<(String, ConfigValue)>::empty()) =~= Seq::<
                (Seq<char>, Cfg),
            >::empty());
        }
    }
    Ok(merge_values(&file_tree, &env_tree))
}

/// Law: a file-only load resolves to exactly the parsed file tree — with
/// no environment layer, the merge neither adds, drops nor reorders a key.
pub proof fn lemma_file_only_resolution(
    param: LoadingParam,
    file: FileInput,
    vars: Seq<(String, String)>,
)
    requires
        param.env_prefix is None,
        param.file is Some,
    ensures
        resolved_model(param, file, vars) == file_layer_tree(
            file->Read_0@,
            spec_file_kind(param.file->0@),
        ),
{
    let entries = crate::value::base_table(
        parsed_raw(file->Read_0@, spec_file_kind(param.file->0@))->Some_0,
    );
    lemma_expand_is_table(entries, entries.len() as int);
    crate::value::lemma_merge_empty_env(
        file_layer_tree(file->Read_0@, spec_file_kind(param.file->0@)),
    );
}

/// Law: an environment-only load resolves to exactly the environment
/// layer — merging it over the empty file layer changes nothing.
pub proof fn lemma_env_only_resolution(
    param: LoadingParam,
    file: FileInput,
    vars: Seq<(String, String)>,
)
    requires
        param.file is None,
        param.env_prefix is Some,
    ensures
        resolved_model(param, file, vars) == env_layer_tree(
            vars,
            param.env_prefix->0.name@,
            spec_separator(param.env_prefix->0),
        ),
{
    let env = env_layer_tree(vars, param.env_prefix->0.name@, spec_separator(param.env_prefix->0));
    crate::envsource::lemma_env_layer_wf(
        vars,
        param.env_prefix->0.name@,
        spec_separator(param.env_prefix->0),
    );
    crate::value::lemma_merge_onto_null(env);
    assert(crate::value::base_table(Cfg::Table(Seq::empty())) == crate::value::base_table(
        Cfg::Null,
    ));
}

// ---- the diagnostics gate ----

/// The first value bound to `key` in the snapshot, if any.
pub open spec fn spec_env_lookup(vars: Seq<(String, String)>, key: Seq<char>) -> Option<
    Seq<char>,
>
    decreases vars.len(),
{
    if vars.len() == 0 {
        None
    } else if vars[0].0@ == key {
        Some(vars[0].1@)
    } else {
        spec_env_lookup(vars.drop_first(), key)
    }
}

/// The variable that opts in to diagnostics: `{prefix}{separator}SHOW_SETTINGS`.
pub open spec fn show_settings_key(c: EnvConfig) -> Seq<char> {
    c.name@ + spec_separator(c) + "SHOW_SETTINGS"@
}

/// The accepted truthy spellings, matched without regard to case.
pub open spec fn is_truthy(v: Seq<char>) -> bool {
    ||| spec_lower(v) == "true"@
    ||| spec_lower(v) == "1"@
    ||| spec_lower(v) == "yes"@
    ||| spec_lower(v) == "on"@
}

/// Diagnostics are emitted only for an environment-aware load whose
/// `SHOW_SETTINGS` variable holds a truthy value; everything else —
/// including a file-only load — stays quiet.
pub open spec fn spec_should_show(param: LoadingParam, vars: Seq<(String, String)>) -> bool {
    match param.env_prefix {
        Some(c) => match spec_env_lookup(vars, show_settings_key(c)) {
            Some(v) => is_truthy(v),
            None => false,
        },
        None => false,
    }
}

/// Decides the diagnostics gate from the parameters and an environment
/// snapshot.
#[verifier::loop_isolation(false)]
pub fn should_show_settings(param: &LoadingParam, env_vars: &Vec<(String, String)>) -> (r: bool)
    ensures
        r == spec_should_show(*param, env_vars@),
{
    let env_config = match &param.env_prefix {
        Some(c) => c,
        None => {
            return false;
        },
    };
    let key = concat_str(
        concat_str(env_config.name.as_str(), env_config.get_separator()).as_str(),
        "SHOW_SETTINGS",
    );
    let n = env_vars.len();
    let mut i: usize = 0;
    proof {
        assert(env_vars@.skip(0) =~= env_vars@);
    }
    while i < n
        invariant
            0 <= i <= n,
            key@ == show_settings_key(*env_config),
            spec_env_lookup(env_vars@, key@) == spec_env_lookup(env_vars@.skip(i as int), key@),
        decreases n - i,
    {
        let e = &env_vars[i];
        proof {
            assert(env_vars@.skip(i as int)[0] == env_vars@[i as int]);
            assert(env_vars@.skip(i as int).drop_first() =~= env_vars@.skip(i + 1));
        }
        if str_eq(e.0.as_str(), key.as_str()) {
            let lv = lower_str(e.1.as_str());
            return str_eq(lv.as_str(), "true") || str_eq(lv.as_str(), "1") || str_eq(
                lv.as_str(),
                "yes",
            ) || str_eq(lv.as_str(), "on");
        }
        i += 1;
    }
    proof {
        assert(env_vars@.skip(n as int) =~= Seq::<(String, String)>::empty());
    }
    false
}

/// The diagnostics gate, exposed for direct checking.
pub fn test_should_show_settings(param: &LoadingParam, env_vars: &Vec<(String, String)>) -> (r:
    bool)
    ensures
        r == spec_should_show(*param, env_vars@),
{
    should_show_settings(param, env_vars)
}

// ---- the legacy file search ----

/// The file names the convenience loader tries, in order: the
/// environment-qualified pair when an environment name is set and
/// non-empty, the plain pair otherwise.
pub fn config_file_candidates(env_value: &Option<String>) -> (r: Vec<String>)
    ensures
        r@.len() == 2,
        (env_value is Some && env_value->0@.len() > 0) ==> r@[0]@ == "config."@ + env_value->0@
            + ".yml"@ && r@[1]@ == "config."@ + env_value->0@ + ".yaml"@,
        !(env_value is Some && env_value->0@.len() > 0) ==> r@[0]@ == "config.yml"@ && r@[1]@
            == "config.yaml"@,
{
    let mut out: Vec<String> = Vec::new();
    match env_value {
        Some(e) => {
            if !e.as_str().is_empty() {
                let base = concat_str("config.", e.as_str());
                out.push(concat_str(base.as_str(), ".yml"));
                out.push(concat_str(base.as_str(), ".yaml"));
                return out;
            }
            out.push(String::from_str("config.yml"));
            out.push(String::from_str("config.yaml"));
            out
        },
        None => {
            out.push(String::from_str("config.yml"));
            out.push(String::from_str("config.yaml"));
            out
        },
    }
}

} // verus!
