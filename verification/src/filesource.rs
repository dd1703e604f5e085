//! The file layer: format inference from the file extension, and parsing of
//! the file's text through the configuration engine into a value tree.

use vstd::prelude::*;
use std::collections::BTreeMap;
use config::ValueKind;
use crate::models::{ConfigError, FileInput};
use crate::text::{key_path_exec, spec_key_path, str_eq, str_views};
use crate::value::{
    base_table,
    clone_value,
    lemma_view_entries_index,
    set_path,
    spec_set_path,
    view_entries,
    view_value,
    Cfg,
    ConfigValue,
};

verus! {

/// The parsing strategy for a configuration file.
#[derive(Clone, Copy, Debug, PartialEq, Eq, Structural)]
pub enum FileKind {
    Json,
    Yaml,
    Toml,
    Ini,
}

// ---- extension inference ----

/// The part of `s` after the last occurrence of `c`; all of `s` when `c`
/// does not occur.
pub open spec fn after_last(s: Seq<char>, c: char) -> Seq<char>
    decreases s.len(),
{
    if s.len() == 0 {
        s
    } else if s.last() == c {
        Seq::empty()
    } else {
        after_last(s.drop_last(), c).push(s.last())
    }
}

proof fn lemma_after_last_at(s: Seq<char>, c: char, j: int)
    requires
        0 <= j < s.len(),
        s[j] == c,
        forall|k: int| j < k < s.len() ==> s[k] != c,
    ensures
        after_last(s, c) == s.skip(j + 1),
    decreases s.len(),
{
    if j == s.len() - 1 {
        assert(s.skip(j + 1) =~= Seq::empty());
    } else {
        assert(s.last() != c);
        assert(forall|k: int| 0 <= k < s.len() - 1 ==> s.drop_last()[k] == s[k]);
        lemma_after_last_at(s.drop_last(), c, j);
        assert(s.drop_last().skip(j + 1).push(s.last()) =~= s.skip(j + 1));
    }
}

proof fn lemma_after_last_none(s: Seq<char>, c: char)
    requires
        forall|k: int| 0 <= k < s.len() ==> s[k] != c,
    ensures
        after_last(s, c) == s,
    decreases s.len(),
{
    if s.len() > 0 {
        assert(forall|k: int| 0 <= k < s.len() - 1 ==> s.drop_last()[k] == s[k]);
        lemma_after_last_none(s.drop_last(), c);
        assert(s.drop_last().push(s.last()) =~= s);
    }
}

/// The extension of a path: within the last path segment, the part after
/// the final dot, provided some dot stands after the segment's first
/// character. A name without a dot, or with a dot only at its start, has
/// no extension.
pub open spec fn spec_extension(p: Seq<char>) -> Option<Seq<char>> {
    let name = after_last(p, '/');
    if exists|i: int| 1 <= i < name.len() && name[i] == '.' {
        Some(after_last(name, '.'))
    } else {
        None
    }
}

/// The format chosen for a path: by its extension, with YAML as the
/// default for unknown or missing extensions.
pub open spec fn spec_file_kind(p: Seq<char>) -> FileKind {
    match spec_extension(p) {
        Some(e) => if e == "json"@ {
            FileKind::Json
        } else if e == "yaml"@ || e == "yml"@ {
            FileKind::Yaml
        } else if e == "toml"@ {
            FileKind::Toml
        } else if e == "ini"@ {
            FileKind::Ini
        } else {
            FileKind::Yaml
        },
        None => FileKind::Yaml,
    }
}

/// Infers the file format from the path's extension.
#[verifier::loop_isolation(false)]
pub fn get_file_format(path: &str) -> (r: FileKind)
    ensures
        r == spec_file_kind(path@),
{
    let n = path.unicode_len();
    let mut name_start: usize = 0;
    let mut i: usize = 0;
    while i < n
        invariant
            0 <= name_start <= i <= n,
            name_start > 0 ==> path@[name_start - 1] == '/',
            forall|k: int| name_start <= k < i ==> path@[k] != '/',
        decreases n - i,
    {
        if path.get_char(i) == '/' {
            name_start = i + 1;
        }
        i += 1;
    }
    let ghost name = after_last(path@, '/');
    proof {
        if name_start > 0 {
            lemma_after_last_at(path@, '/', name_start - 1);
        } else {
            lemma_after_last_none(path@, '/');
            assert(path@.skip(0) =~= path@);
        }
        assert(name == path@.skip(name_start as int));
    }
    let mut has_dot = false;
    let mut dot_idx: usize = 0;
    let mut j: usize = if name_start < n {
        name_start + 1
    } else {
        n
    };
    while j < n
        invariant
            j <= n,
            name_start < n ==> name_start + 1 <= j,
            name_start >= n ==> j == n,
            name == path@.skip(name_start as int),
            has_dot ==> name_start + 1 <= dot_idx < j && path@[dot_idx as int] == '.' && forall|
                k: int,
            | dot_idx < k < j ==> path@[k] != '.',
            !has_dot ==> forall|k: int| name_start + 1 <= k < j ==> path@[k] != '.',
        decreases n - j,
    {
        if path.get_char(j) == '.' {
            has_dot = true;
            dot_idx = j;
        }
        j += 1;
    }
    proof {
        assert(forall|r: int| 0 <= r < name.len() ==> name[r] == path@[name_start + r]);
        if has_dot {
            assert(name[dot_idx - name_start] == '.');
            assert(exists|i2: int| 1 <= i2 < name.len() && name[i2] == '.');
            lemma_after_last_at(name, '.', dot_idx - name_start);
            assert(name.skip(dot_idx - name_start + 1) =~= path@.subrange(dot_idx + 1, n as int));
        } else {
            if exists|i2: int| 1 <= i2 < name.len() && name[i2] == '.' {
                let i2 = choose|i2: int| 1 <= i2 < name.len() && name[i2] == '.';
                assert(path@[name_start + i2] == '.');
            }
        }
    }
    if !has_dot {
        return FileKind::Yaml;
    }
    let ext = path.substring_char(dot_idx + 1, n);
    if str_eq(ext, "json") {
        FileKind::Json
    } else if str_eq(ext, "yaml") || str_eq(ext, "yml") {
        FileKind::Yaml
    } else if str_eq(ext, "toml") {
        FileKind::Toml
    } else if str_eq(ext, "ini") {
        FileKind::Ini
    } else {
        FileKind::Yaml
    }
}

// ---- parsing through the format engines ----

#[verifier::external_type_specification]
#[verifier::external_body]
pub struct ExConfigValue(config::Value);

/// What a format's parser turns a file's text into: the top-level keys
/// with their raw value trees, before any dotted-key expansion, every
/// table read out in sorted key order — a function of the text and the
/// format alone. `None` stands for a parse failure.
pub uninterp spec fn parsed_raw(text: Seq<char>, kind: FileKind) -> Option<Cfg>;

/// A narrowed integer where it fits, its text where it does not.
fn int_or_text<E>(narrowed: Result<i64, E>, text: String) -> (r: ConfigValue)
    ensures
        narrowed is Ok ==> r@ == Cfg::Int(narrowed->Ok_0),
        narrowed is Err ==> r@ == Cfg::Num(text@),
{
    match narrowed {
        Ok(i) => ConfigValue::Int(i),
        Err(_) => ConfigValue::Num(text),
    }
}

/// Converts one parsed value into the library's value type, variant by
/// variant; numbers beyond the 64-bit integer range keep their text.
#[verifier::external_body]
fn from_config(v: config::Value) -> ConfigValue {
    match v.kind {
        ValueKind::Nil => ConfigValue::Null,
        ValueKind::Boolean(b) => ConfigValue::Bool(b),
        ValueKind::I64(i) => ConfigValue::Int(i),
        ValueKind::I128(i) => int_or_text(i64::try_from(i), i.to_string()),
        ValueKind::U64(u) => int_or_text(i64::try_from(u), u.to_string()),
        ValueKind::U128(u) => int_or_text(i64::try_from(u), u.to_string()),
        ValueKind::Float(x) => ConfigValue::Num(x.to_string()),
        ValueKind::String(s) => ConfigValue::Str(s),
        ValueKind::Array(a) => ConfigValue::List(a.into_iter().map(from_config).collect()),
        ValueKind::Table(t) => ConfigValue::Table(sorted_entries(t.into_iter().collect())),
    }
}

/// Reads a parsed table's entries in sorted key order, converting each
/// value.
#[verifier::external_body]
fn sorted_entries(t: Vec<(String, config::Value)>) -> Vec<(String, ConfigValue)> {
    t.into_iter()
        .collect::<BTreeMap<String, config::Value>>()
        .into_iter()
        .map(|p| (p.0, from_config(p.1)))
        .collect()
}

/// Relies on the format parsers of the config crate (`Format::parse`):
/// text in the given format parses into its raw top-level map, whose keys
/// and values depend on the text and format alone; tables are read out in
/// sorted key order, so the whole result does too, and a successful root
/// is a table.
#[verifier::external_body]
fn parse_file_raw(text: &str, kind: FileKind) -> (r: Result<ConfigValue, String>)
    ensures
        r is Ok <==> parsed_raw(text@, kind) is Some,
        r is Ok ==> r->Ok_0@ == parsed_raw(text@, kind)->Some_0,
        r is Ok ==> r->Ok_0@ is Table,
{
    let format = match kind {
        FileKind::Json => config::FileFormat::Json,
        FileKind::Yaml => config::FileFormat::Yaml,
        FileKind::Toml => config::FileFormat::Toml,
        FileKind::Ini => config::FileFormat::Ini,
    };
    match config::Format::parse(&format, None, text) {
        Ok(map) => Ok(from_config(config::Value::new(None, ValueKind::Table(map)))),
        Err(e) => Err(e.to_string()),
    }
}

// ---- dotted-key expansion ----

/// The tree after writing the first `n` top-level entries of the raw
/// table, in order, each at the key path its dotted key describes.
pub open spec fn expand_upto(entries: Seq<(Seq<char>, Cfg)>, n: int) -> Cfg
    decreases n,
{
    if n <= 0 {
        Cfg::Table(Seq::empty())
    } else {
        spec_set_path(
            expand_upto(entries, n - 1),
            spec_key_path(entries[n - 1].0),
            entries[n - 1].1,
        )
    }
}

/// The file layer: the raw parse with every top-level dotted key expanded
/// into its nested path, table values merging into what stands there.
pub open spec fn file_layer_tree(text: Seq<char>, kind: FileKind) -> Cfg {
    let entries = base_table(parsed_raw(text, kind)->Some_0);
    expand_upto(entries, entries.len() as int)
}

pub proof fn lemma_expand_is_table(entries: Seq<(Seq<char>, Cfg)>, n: int)
    ensures
        expand_upto(entries, n) is Table,
{
    if n > 0 {
        crate::text::lemma_split_dots_len(entries[n - 1].0);
        assert(spec_key_path(entries[n - 1].0).len() >= 1);
    }
}

#[verifier::loop_isolation(false)]
fn expand_file_tree(raw: &ConfigValue) -> (r: ConfigValue)
    ensures
        r@ == expand_upto(base_table(raw@), base_table(raw@).len() as int),
{
    let entries = match raw {
        ConfigValue::Table(es) => es,
        _ => {
            proof {
                assert(base_table(raw@) =~= Seq::<(Seq<char>, Cfg)>::empty());
                assert(view_entries(Seq::<(String, ConfigValue)>::empty()) =~= Seq::<(
                    Seq<char>,
                    Cfg,
                )>::empty());
            }
            return ConfigValue::Table(Vec::new());
        },
    };
    let ghost t = view_entries(entries@);
    let n = entries.len();
    proof {
        lemma_view_entries_index(entries@);
        assert(view_entries(Seq::<(String, ConfigValue)>::empty()) =~= Seq::<(
            Seq<char>,
            Cfg,
        )>::empty());
    }
    let mut tree = ConfigValue::Table(Vec::new());
    let mut j: usize = 0;
    while j < n
        invariant
            0 <= j <= n,
            n == entries@.len(),
            t == view_entries(entries@),
            t.len() == n,
            forall|l: int|
                0 <= l < n ==> #[trigger] t[l] == (entries@[l].0@, view_value(entries@[l].1)),
            tree@ == expand_upto(t, j as int),
        decreases n - j,
    {
        let ghost tree0 = tree@;
        let e = &entries[j];
        let path = key_path_exec(e.0.as_str());
        let v = clone_value(&e.1);
        proof {
            assert(str_views(path@).skip(0) =~= str_views(path@));
        }
        tree = set_path(tree, &path, 0, v);
        proof {
            assert(tree@ == spec_set_path(tree0, spec_key_path(t[j as int].0), t[j as int].1));
        }
        j += 1;
    }
    tree
}

/// Builds the file layer: the declared file must have been found, and its
/// text must parse in the format inferred from the path's extension; the
/// parsed top-level keys are then expanded along their dotted paths.
pub fn build_file_layer(path: &str, input: &FileInput) -> (r: Result<ConfigValue, ConfigError>)
    ensures
        match input {
            FileInput::Absent => (r matches Err(ConfigError::FileNotFound(p)) && p@ == path@),
            FileInput::Failed(m) => (r matches Err(ConfigError::Config(t)) && t@ == m@),
            FileInput::Read(c) => {
                &&& (r is Ok <==> parsed_raw(c@, spec_file_kind(path@)) is Some)
                &&& (r is Ok ==> r->Ok_0@ == file_layer_tree(c@, spec_file_kind(path@)))
                &&& (r is Ok ==> r->Ok_0@ is Table)
                &&& (r is Err ==> r->Err_0 is Config)
            },
        },
{
    match input {
        FileInput::Absent => Err(ConfigError::FileNotFound(String::from_str(path))),
        FileInput::Failed(m) => Err(ConfigError::Config(m.clone())),
        FileInput::Read(contents) => {
            let kind = get_file_format(path);
            match parse_file_raw(contents.as_str(), kind) {
                Ok(raw) => {
                    let tree = expand_file_tree(&raw);
                    proof {
                        lemma_expand_is_table(
                            base_table(raw@),
                            base_table(raw@).len() as int,
                        );
                    }
                    Ok(tree)
                },
                Err(msg) => Err(ConfigError::Config(msg)),
            }
        },
    }
}

} // verus!
