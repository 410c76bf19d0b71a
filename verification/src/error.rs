//! Structured validation issues and the top-level error type.

use vstd::prelude::*;

use crate::strutil::{join_dotted, str_concat};
use vstd::string::StringExecFns;

verus! {

/// A structured validation error for a config field.
#[derive(Debug)]
pub struct Issue {
    /// Dotted path of the offending field.
    pub field: String,
    /// What rule the field violated.
    pub kind: IssueKind,
    /// Human-readable description of the violation.
    pub message: String,
}

/// The type of validation error.
#[derive(Clone, Copy, PartialEq, Eq, Structural, Debug)]
pub enum IssueKind {
    Missing,
    Range,
    Regex,
    Url,
    Custom,
}

/// Aggregated validation errors across multiple fields.
#[derive(Debug)]
pub struct ValidationErrors {
    issues: Vec<Issue>,
}

impl ValidationErrors {
    /// The issues collected so far, in the order they were pushed.
    pub closed spec fn issues_seq(&self) -> Seq<Issue> {
        self.issues@
    }

    pub fn new() -> (r: Self)
        ensures
            r.issues_seq() == Seq::<Issue>::empty(),
    {
        Self { issues: Vec::new() }
    }

    pub fn push(&mut self, issue: Issue)
        ensures
            final(self).issues_seq() == old(self).issues_seq().push(issue),
    {
        self.issues.push(issue);
    }

    pub fn is_empty(&self) -> (r: bool)
        ensures
            r == (self.issues_seq().len() == 0),
    {
        self.issues.len() == 0
    }

    pub fn into_vec(self) -> (r: Vec<Issue>)
        ensures
            r@ == self.issues_seq(),
    {
        self.issues
    }

    pub fn len(&self) -> (r: usize)
        ensures
            r == self.issues_seq().len(),
    {
        self.issues.len()
    }

    /// Borrow the collected issues.
    pub fn iter(&self) -> (r: &Vec<Issue>)
        ensures
            r@ == self.issues_seq(),
    {
        &self.issues
    }

    pub fn extend(&mut self, other: ValidationErrors)
        ensures
            final(self).issues_seq() == old(self).issues_seq() + other.issues_seq(),
    {
        let ValidationErrors { issues: mut rest } = other;
        let n = rest.len();
        let ghost start = self.issues@;
        let ghost incoming = rest@;
        let mut i: usize = 0;
        while i < n
            invariant
                n == incoming.len(),
                i <= n,
                rest@ == incoming.skip(i as int),
                self.issues@ == start + incoming.take(i as int),
            decreases n - i,
        {
            let issue = rest.remove(0);
            assert(issue == incoming[i as int]);
            self.issues.push(issue);
            i = i + 1;
            proof {
                assert(rest@ =~= incoming.skip(i as int));
                assert(self.issues@ =~= start + incoming.take(i as int));
            }
        }
        proof {
            assert(self.issues@ =~= start + incoming);
        }
    }

    /// Rewrite every contained issue's field by prepending `prefix.`, so a
    /// nested schema's failures are attributed to their dotted position in
    /// the parent.
    pub fn with_prefix(self, prefix: &str) -> (r: Self)
        ensures
            r.issues_seq().len() == self.issues_seq().len(),
            forall|i: int|
                0 <= i < self.issues_seq().len() ==> {
                    &&& (#[trigger] r.issues_seq()[i]).field@ == prefix@ + seq!['.']
                        + self.issues_seq()[i].field@
                    &&& r.issues_seq()[i].kind == self.issues_seq()[i].kind
                    &&& r.issues_seq()[i].message@ == self.issues_seq()[i].message@
                },
    {
        let ValidationErrors { issues: mut rest } = self;
        let ghost incoming = rest@;
        let mut out: Vec<Issue> = Vec::new();
        let n = rest.len();
        let mut i: usize = 0;
        while i < n
            invariant
                n == incoming.len(),
                i <= n,
                rest@ == incoming.skip(i as int),
                out@.len() == i,
                forall|j: int|
                    0 <= j < i ==> {
                        &&& (#[trigger] out@[j]).field@ == prefix@ + seq!['.']
                            + incoming[j].field@
                        &&& out@[j].kind == incoming[j].kind
                        &&& out@[j].message@ == incoming[j].message@
                    },
            decreases n - i,
        {
            let issue = rest.remove(0);
            proof {
                assert(issue == incoming[i as int]);
                assert(rest@ =~= incoming.skip(i as int + 1));
            }
            let combined = join_dotted(prefix, issue.field.as_str());
            out.push(Issue { field: combined, kind: issue.kind, message: issue.message });
            i = i + 1;
        }
        ValidationErrors { issues: out }
    }
}

/// One line per issue: `  - field — message`.
pub open spec fn issue_lines(issues: Seq<Issue>) -> Seq<char>
    decreases issues.len(),
{
    if issues.len() == 0 {
        Seq::empty()
    } else {
        "  - "@ + issues[0].field@ + " \u{2014} "@ + issues[0].message@ + "\n"@ + issue_lines(
            issues.skip(1),
        )
    }
}

/// One step of rendering the issue list.
proof fn lemma_issue_lines_take_step(issues: Seq<Issue>, i: int)
    requires
        0 <= i < issues.len(),
    ensures
        issue_lines(issues.take(i + 1)) == issue_lines(issues.take(i)) + ("  - "@
            + issues[i].field@ + " \u{2014} "@ + issues[i].message@ + "\n"@),
    decreases i,
{
    if i == 0 {
        assert(issues.take(1)[0] == issues[0]);
        assert(issues.take(1).skip(1) =~= Seq::<Issue>::empty());
        assert(issues.take(0) =~= Seq::<Issue>::empty());
        assert(issue_lines(issues.take(1)) =~= issue_lines(issues.take(0)) + ("  - "@
            + issues[0].field@ + " \u{2014} "@ + issues[0].message@ + "\n"@));
    } else {
        lemma_issue_lines_take_step(issues.skip(1), i - 1);
        assert(issues.take(i + 1)[0] == issues[0]);
        assert(issues.take(i + 1).skip(1) =~= issues.skip(1).take(i));
        assert(issues.take(i)[0] == issues[0]);
        assert(issues.take(i).skip(1) =~= issues.skip(1).take(i - 1));
        assert(issues.skip(1)[i - 1] == issues[i]);
        assert(issue_lines(issues.take(i + 1)) =~= issue_lines(issues.take(i)) + ("  - "@
            + issues[i].field@ + " \u{2014} "@ + issues[i].message@ + "\n"@));
    }
}

impl ValidationErrors {
    /// Human-readable rendering: a header, then one line per issue.
    #[verifier::loop_isolation(false)]
    pub fn render(&self) -> (r: String)
        ensures
            self.issues_seq().len() == 0 ==> r@ == "no validation errors"@,
            self.issues_seq().len() > 0 ==> r@ == "validation failed:\n"@ + issue_lines(
                self.issues_seq(),
            ),
    {
        if self.issues.len() == 0 {
            return "no validation errors".to_owned();
        }
        let mut out = "validation failed:\n".to_owned();
        let mut i: usize = 0;
        let n = self.issues.len();
        proof {
            assert(self.issues@.take(0) =~= Seq::<Issue>::empty());
            assert(out@ =~= "validation failed:\n"@ + issue_lines(self.issues@.take(0)));
        }
        while i < n
            invariant
                i <= n,
                n == self.issues@.len(),
                out@ == "validation failed:\n"@ + issue_lines(self.issues@.take(i as int)),
            decreases n - i,
        {
            let issue = &self.issues[i];
            out.append("  - ");
            out.append(issue.field.as_str());
            out.append(" \u{2014} ");
            out.append(issue.message.as_str());
            out.append("\n");
            proof {
                lemma_issue_lines_take_step(self.issues@, i as int);
                assert(out@ =~= "validation failed:\n"@ + issue_lines(
                    self.issues@.take(i as int + 1),
                ));
            }
            i = i + 1;
        }
        proof {
            assert(self.issues@.take(n as int) =~= self.issues@);
        }
        out
    }
}

impl CnfgError {
    /// Human-readable rendering of the error.
    pub fn render(&self) -> (r: String)
        ensures
            match self {
                CnfgError::Io(m) => r@ == "I/O error: "@ + m@,
                CnfgError::ParseToml(m) => r@ == "TOML parse error: "@ + m@,
                CnfgError::ParseJson(m) => r@ == "JSON parse error: "@ + m@,
                CnfgError::ParseYaml(m) => r@ == "YAML parse error: "@ + m@,
                CnfgError::Validation(e) => (e.issues_seq().len() == 0 ==> r@
                    == "no validation errors"@) && (e.issues_seq().len() > 0 ==> r@
                    == "validation failed:\n"@ + issue_lines(e.issues_seq())),
                CnfgError::Cli(m) => r@ == "CLI error: "@ + m@,
                CnfgError::Env(m) => r@ == "Env error: "@ + m@,
                CnfgError::HelpPrinted => r@ == "help requested"@,
            },
    {
        match self {
            CnfgError::Io(m) => str_concat("I/O error: ", m.as_str()),
            CnfgError::ParseToml(m) => str_concat("TOML parse error: ", m.as_str()),
            CnfgError::ParseJson(m) => str_concat("JSON parse error: ", m.as_str()),
            CnfgError::ParseYaml(m) => str_concat("YAML parse error: ", m.as_str()),
            CnfgError::Validation(e) => e.render(),
            CnfgError::Cli(m) => str_concat("CLI error: ", m.as_str()),
            CnfgError::Env(m) => str_concat("Env error: ", m.as_str()),
            CnfgError::HelpPrinted => "help requested".to_owned(),
        }
    }
}

/// The top-level error type for config loading.  Failures of outside codecs
/// are carried as their rendered messages.
#[derive(Debug)]
pub enum CnfgError {
    /// A file could not be read.
    Io(String),
    /// The chosen config file did not parse as TOML.
    ParseToml(String),
    /// The chosen config file (or the merged tree) did not parse as JSON.
    ParseJson(String),
    /// The chosen config file did not parse as YAML.
    ParseYaml(String),
    /// Required fields were missing, or validators rejected the result.
    Validation(ValidationErrors),
    /// A command-line argument could not be understood.
    Cli(String),
    /// An environment variable held a value of the wrong kind.
    Env(String),
    /// Help was requested and printed; not a failure.
    HelpPrinted,
}

} // verus!
