//! The narrow interface to the external text codecs: TOML, YAML and JSON
//! text is parsed into a value tree by outside crates, behind trusted
//! wrappers; choosing the codec by file extension is verified here.

use vstd::prelude::*;
use vstd::string::StrSliceExecFns;

use crate::error::CnfgError;
use crate::value::{value_wf, ValueTree, ValueModel};

verus! {

#[verifier::external_type_specification]
#[verifier::external_body]
pub struct ExJsonValue(serde_json::Value);

/// The tree a JSON document denotes, when the text parses.
pub uninterp spec fn json_tree_of(text: Seq<char>) -> Option<ValueModel>;

/// The tree a TOML document denotes, when the text parses.
pub uninterp spec fn toml_tree_of(text: Seq<char>) -> Option<ValueModel>;

/// The tree a YAML document denotes, when the text parses.
pub uninterp spec fn yaml_tree_of(text: Seq<char>) -> Option<ValueModel>;

/// Relies on serde_json::Value: the parsed document is converted node by
/// node; a parsed document's object keys are unique, so the result is
/// well-formed.  Numbers outside the 64-bit signed range are carried as
/// float literals.
#[verifier::external_body]
fn from_json(j: serde_json::Value) -> (r: ValueTree)
    ensures
        value_wf(r),
{
    match j {
        serde_json::Value::Null => ValueTree::Null,
        serde_json::Value::Bool(b) => ValueTree::Bool(b),
        serde_json::Value::Number(n) => match n.as_i64() {
            Some(i) => ValueTree::Int(i),
            None => ValueTree::Float(n.to_string()),
        },
        serde_json::Value::String(s) => ValueTree::Str(s),
        serde_json::Value::Array(a) => ValueTree::Array(a.into_iter().map(from_json).collect()),
        serde_json::Value::Object(m) => ValueTree::Object(
            m.into_iter().map(|(k, v)| (k, from_json(v))).collect(),
        ),
    }
}

/// Relies on serde_json::from_str: whether JSON text parses, and the tree
/// it denotes, depend on the text alone.
#[verifier::external_body]
fn parse_json(text: &str) -> (r: Result<ValueTree, String>)
    ensures
        r is Ok <==> json_tree_of(text@) is Some,
        r matches Ok(v) ==> json_tree_of(text@) == Option::Some(v@) && value_wf(v),
{
    match serde_json::from_str::<serde_json::Value>(text) {
        Ok(v) => Ok(from_json(v)),
        Err(e) => Err(e.to_string()),
    }
}

/// Relies on toml::from_str and serde_json::to_value: whether TOML text
/// parses, and the tree it denotes, depend on the text alone.
#[verifier::external_body]
fn parse_toml(text: &str) -> (r: Result<ValueTree, String>)
    ensures
        r is Ok <==> toml_tree_of(text@) is Some,
        r matches Ok(v) ==> toml_tree_of(text@) == Option::Some(v@) && value_wf(v),
{
    match toml::from_str::<toml::Value>(text) {
        Ok(t) => match serde_json::to_value(t) {
            Ok(j) => Ok(from_json(j)),
            Err(e) => Err(e.to_string()),
        },
        Err(e) => Err(e.to_string()),
    }
}

/// Relies on serde_yaml::from_str: whether YAML text parses, and the tree
/// it denotes, depend on the text alone.
#[verifier::external_body]
fn parse_yaml(text: &str) -> (r: Result<ValueTree, String>)
    ensures
        r is Ok <==> yaml_tree_of(text@) is Some,
        r matches Ok(v) ==> yaml_tree_of(text@) == Option::Some(v@) && value_wf(v),
{
    match serde_yaml::from_str::<serde_json::Value>(text) {
        Ok(j) => Ok(from_json(j)),
        Err(e) => Err(e.to_string()),
    }
}

/// Whether `s` ends with the given suffix.
pub open spec fn ends_with(s: Seq<char>, suffix: Seq<char>) -> bool {
    s.len() >= suffix.len() && s.skip(s.len() - suffix.len()) == suffix
}

/// Suffix test on strings.
#[verifier::loop_isolation(false)]
pub fn str_ends_with(s: &str, suffix: &str) -> (r: bool)
    ensures
        r == ends_with(s@, suffix@),
{
    let n = s.unicode_len();
    let m = suffix.unicode_len();
    if n < m {
        return false;
    }
    let mut i: usize = 0;
    while i < m
        invariant
            i <= m,
            m <= n,
            n == s@.len(),
            m == suffix@.len(),
            forall|j: int| 0 <= j < i ==> s@[n - m + j] == suffix@[j],
        decreases m - i,
    {
        if s.get_char(n - m + i) != suffix.get_char(i) {
            proof {
                assert(s@.skip(n - m)[i as int] == s@[n - m + i]);
            }
            return false;
        }
        i = i + 1;
    }
    proof {
        assert(s@.skip(n - m) =~= suffix@);
    }
    true
}

/// Parse a config file's text by its path's extension: `.toml`, `.yaml`,
/// `.yml` or `.json`; any other extension is a hard error.
pub fn parse_file_text(path: &str, text: &str) -> (r: Result<ValueTree, CnfgError>)
    ensures
        ends_with(path@, ".toml"@) ==> (match r {
            Ok(v) => toml_tree_of(text@) == Option::Some(v@) && value_wf(v),
            Err(e) => e is ParseToml && toml_tree_of(text@) is None,
        }),
        !ends_with(path@, ".toml"@) && (ends_with(path@, ".yaml"@) || ends_with(
            path@,
            ".yml"@,
        )) ==> (match r {
            Ok(v) => yaml_tree_of(text@) == Option::Some(v@) && value_wf(v),
            Err(e) => e is ParseYaml && yaml_tree_of(text@) is None,
        }),
        !ends_with(path@, ".toml"@) && !ends_with(path@, ".yaml"@) && !ends_with(
            path@,
            ".yml"@,
        ) && ends_with(path@, ".json"@) ==> (match r {
            Ok(v) => json_tree_of(text@) == Option::Some(v@) && value_wf(v),
            Err(e) => e is ParseJson && json_tree_of(text@) is None,
        }),
        !ends_with(path@, ".toml"@) && !ends_with(path@, ".yaml"@) && !ends_with(
            path@,
            ".yml"@,
        ) && !ends_with(path@, ".json"@) ==> (r matches Err(e) && e matches CnfgError::Cli(m)
            && m@ == "unknown config extension for "@ + path@
            + "; use .toml, .yaml, .yml, or .json"@),
{
    if str_ends_with(path, ".toml") {
        match parse_toml(text) {
            Ok(v) => Ok(v),
            Err(m) => Err(CnfgError::ParseToml(m)),
        }
    } else if str_ends_with(path, ".yaml") || str_ends_with(path, ".yml") {
        match parse_yaml(text) {
            Ok(v) => Ok(v),
            Err(m) => Err(CnfgError::ParseYaml(m)),
        }
    } else if str_ends_with(path, ".json") {
        match parse_json(text) {
            Ok(v) => Ok(v),
            Err(m) => Err(CnfgError::ParseJson(m)),
        }
    } else {
        let m1 = crate::strutil::str_concat("unknown config extension for ", path);
        let msg = crate::strutil::str_concat(
            m1.as_str(),
            "; use .toml, .yaml, .yml, or .json",
        );
        proof {
            assert(msg@ =~= "unknown config extension for "@ + path@
                + "; use .toml, .yaml, .yml, or .json"@);
        }
        Err(CnfgError::Cli(msg))
    }
}

/// The conventional config file names, tried in order when no explicit
/// override names a file.
pub fn config_file_candidates() -> (r: Vec<String>)
    ensures
        r.deep_view() == seq!["config.toml"@, "config.yaml"@, "config.yml"@, "config.json"@],
{
    let mut out: Vec<String> = Vec::new();
    out.push("config.toml".to_owned());
    out.push("config.yaml".to_owned());
    out.push("config.yml".to_owned());
    out.push("config.json".to_owned());
    proof {
        assert(out.deep_view() =~= seq![
            "config.toml"@,
            "config.yaml"@,
            "config.yml"@,
            "config.json"@,
        ]);
    }
    out
}

} // verus!
