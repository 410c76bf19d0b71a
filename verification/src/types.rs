//! Schema metadata: per-field descriptors and CLI-flag descriptors, consumed
//! by the loading pipeline.  A schema's author registers these once; nested
//! schemas splice their descriptors into the parent's list with a prefix.

use vstd::prelude::*;

use crate::error::ValidationErrors;
use crate::strutil::{dashes_for, join_dotted, replace_underscores, split_dots, split_on_dot,
    str_concat};

verus! {

/// Kind of configuration value.
#[derive(Clone, Copy, PartialEq, Eq, Structural)]
pub enum Kind {
    Bool,
    Int,
    Float,
    String,
    Object,
}

/// Specification of a config field (for env + defaults).
pub struct FieldSpec {
    /// Field name in the schema.
    pub name: String,
    /// Optional env var to read from.
    pub env: Option<String>,
    /// Fully-qualified dotted path (e.g. `database.url`).
    pub path: String,
    /// Combined doc text of the field.
    pub doc: Option<String>,
    /// Kind of value exposed by this field.
    pub kind: Kind,
    /// Default literal (for help output), if any.
    pub default: Option<String>,
    /// Whether this field was declared as required.
    pub required: bool,
}

/// Specification of a CLI argument.
pub struct CliSpec {
    /// Flag name, hyphenated, without leading dashes (e.g. `port`).
    pub flag: String,
    /// Field name this flag maps to.
    pub field: String,
    /// The expected kind of value.
    pub kind: Kind,
    /// Fully-qualified dotted path for insertion.
    pub path: String,
    /// Documentation extracted from the field.
    pub doc: Option<String>,
    /// Whether the flag expects a following value.
    pub takes_value: bool,
    /// Default literal displayed in help, if any.
    pub default: Option<String>,
    /// Whether this flag is required (mirrors field requirement).
    pub required: bool,
}

/// Trait implemented by config schemas that support runtime validation.
pub trait Validate {
    fn validate(&self) -> Result<(), ValidationErrors>;
}

/// The view of an optional string.
pub open spec fn opt_view(o: Option<String>) -> Option<Seq<char>> {
    match o {
        Option::Some(s) => Option::Some(s@),
        Option::None => Option::None,
    }
}

/// Clone an optional string.
fn clone_opt(o: &Option<String>) -> (r: Option<String>)
    ensures
        opt_view(r) == opt_view(*o),
{
    match o {
        Option::Some(s) => Option::Some(s.clone()),
        Option::None => Option::None,
    }
}

impl FieldSpec {
    /// Produce a copy of this spec with `prefix.` applied to the path; all
    /// other parts are preserved verbatim.
    pub fn with_prefix(&self, prefix: &str) -> (r: Self)
        ensures
            r.name@ == self.name@,
            opt_view(r.env) == opt_view(self.env),
            r.path@ == prefix@ + seq!['.'] + self.path@,
            opt_view(r.doc) == opt_view(self.doc),
            r.kind == self.kind,
            opt_view(r.default) == opt_view(self.default),
            r.required == self.required,
    {
        let combined_path = join_dotted(prefix, self.path.as_str());
        Self {
            name: self.name.clone(),
            env: clone_opt(&self.env),
            path: combined_path,
            doc: clone_opt(&self.doc),
            kind: self.kind,
            default: clone_opt(&self.default),
            required: self.required,
        }
    }

    /// Return dotted path segments for this field.
    pub fn segments(&self) -> (r: Vec<String>)
        ensures
            r.deep_view() == split_on_dot(self.path@),
            r@.len() >= 1,
    {
        split_dots(self.path.as_str())
    }
}

impl CliSpec {
    /// Produce a copy of this spec with the provided prefix applied: the
    /// flag becomes `prefix-flag` (underscores of the prefix turned into
    /// dashes, or just the prefix when the flag is empty), and the path
    /// becomes `prefix.path`.
    pub fn with_prefix(&self, prefix: &str) -> (r: Self)
        ensures
            r.flag@ == if self.flag@.len() == 0 {
                dashes_for(prefix@)
            } else {
                dashes_for(prefix@) + seq!['-'] + self.flag@
            },
            r.field@ == self.field@,
            r.kind == self.kind,
            r.path@ == prefix@ + seq!['.'] + self.path@,
            opt_view(r.doc) == opt_view(self.doc),
            r.takes_value == self.takes_value,
            opt_view(r.default) == opt_view(self.default),
            r.required == self.required,
    {
        proof {
            reveal_strlit("-");
        }
        let combined_path = join_dotted(prefix, self.path.as_str());
        let dashed = replace_underscores(prefix);
        let combined_flag = if self.flag.as_str().unicode_len() == 0 {
            dashed
        } else {
            let with_dash = str_concat(dashed.as_str(), "-");
            let full = str_concat(with_dash.as_str(), self.flag.as_str());
            proof {
                assert(full@ =~= dashes_for(prefix@) + seq!['-'] + self.flag@);
            }
            full
        };
        Self {
            flag: combined_flag,
            field: self.field.clone(),
            kind: self.kind,
            path: combined_path,
            doc: clone_opt(&self.doc),
            takes_value: self.takes_value,
            default: clone_opt(&self.default),
            required: self.required,
        }
    }

    /// Return dotted path segments for this CLI flag.
    pub fn segments(&self) -> (r: Vec<String>)
        ensures
            r.deep_view() == split_on_dot(self.path@),
            r@.len() >= 1,
    {
        split_dots(self.path.as_str())
    }
}

} // verus!
