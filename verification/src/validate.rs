//! Post-binding validators: numeric ranges, regular expressions and URL
//! well-formedness, each appending issues to a shared batch.

use vstd::prelude::*;
use vstd::string::StrSliceExecFns;
use vstd::string::StringExecFns;

use crate::error::{Issue, IssueKind, ValidationErrors};
use crate::strutil::str_concat;

verus! {

/// The decimal digit characters of a non-negative number.
pub open spec fn dec_digits(n: int) -> Seq<char>
    recommends
        n >= 0,
    decreases n,
{
    if n < 10 {
        seq![digit_char(n)]
    } else {
        dec_digits(n / 10).push(digit_char(n % 10))
    }
}

/// The character of one decimal digit.
pub open spec fn digit_char(d: int) -> char {
    if d == 0 {
        '0'
    } else if d == 1 {
        '1'
    } else if d == 2 {
        '2'
    } else if d == 3 {
        '3'
    } else if d == 4 {
        '4'
    } else if d == 5 {
        '5'
    } else if d == 6 {
        '6'
    } else if d == 7 {
        '7'
    } else if d == 8 {
        '8'
    } else {
        '9'
    }
}

/// The decimal rendering of an integer.
pub open spec fn dec_str(v: int) -> Seq<char> {
    if v < 0 {
        seq!['-'] + dec_digits(-v)
    } else {
        dec_digits(v)
    }
}

/// Render one digit.
fn digit_to_str(d: u64) -> (r: &'static str)
    requires
        d < 10,
    ensures
        r@ == seq![digit_char(d as int)],
{
    proof {
        reveal_strlit("0");
        reveal_strlit("1");
        reveal_strlit("2");
        reveal_strlit("3");
        reveal_strlit("4");
        reveal_strlit("5");
        reveal_strlit("6");
        reveal_strlit("7");
        reveal_strlit("8");
        reveal_strlit("9");
    }
    if d == 0 {
        "0"
    } else if d == 1 {
        "1"
    } else if d == 2 {
        "2"
    } else if d == 3 {
        "3"
    } else if d == 4 {
        "4"
    } else if d == 5 {
        "5"
    } else if d == 6 {
        "6"
    } else if d == 7 {
        "7"
    } else if d == 8 {
        "8"
    } else {
        "9"
    }
}

/// Render a non-negative number in decimal.
fn dec_u64(n: u64) -> (r: String)
    ensures
        r@ == dec_digits(n as int),
    decreases n,
{
    if n < 10 {
        digit_to_str(n).to_owned()
    } else {
        let mut s = dec_u64(n / 10);
        s.append(digit_to_str(n % 10));
        proof {
            assert(s@ =~= dec_digits(n as int / 10).push(digit_char(n as int % 10)));
        }
        s
    }
}

/// Render a signed number in decimal.
pub fn i64_to_string(v: i64) -> (r: String)
    ensures
        r@ == dec_str(v as int),
{
    proof {
        reveal_strlit("-");
    }
    if v < 0 {
        let magnitude = (-(v as i128)) as u64;
        proof {
            assert(magnitude as int == -(v as int));
        }
        let digits = dec_u64(magnitude);
        let r = str_concat("-", digits.as_str());
        proof {
            assert("-"@ =~= seq!['-']);
            assert(r@ =~= dec_str(v as int));
        }
        r
    } else {
        dec_u64(v as u64)
    }
}

/// The range-violation messages for a value against its optional bounds:
/// one per violated bound, lower bound first.
pub open spec fn range_msgs(value: int, min: Option<i64>, max: Option<i64>) -> Seq<Seq<char>> {
    (match min {
        Option::Some(m) => if value < m {
            seq!["must be >= "@ + dec_str(m as int)]
        } else {
            Seq::<Seq<char>>::empty()
        },
        Option::None => Seq::<Seq<char>>::empty(),
    }) + (match max {
        Option::Some(m) => if value > m {
            seq!["must be <= "@ + dec_str(m as int)]
        } else {
            Seq::<Seq<char>>::empty()
        },
        Option::None => Seq::<Seq<char>>::empty(),
    })
}

/// Check an integer field against its declared bounds, appending one Range
/// issue per violated bound.
pub fn check_range_i64(
    field: &str,
    value: i64,
    min: Option<i64>,
    max: Option<i64>,
    errs: &mut ValidationErrors,
)
    ensures
        ({
            let msgs = range_msgs(value as int, min, max);
            &&& final(errs).issues_seq().len() == old(errs).issues_seq().len() + msgs.len()
            &&& forall|j: int|
                0 <= j < old(errs).issues_seq().len() ==> final(errs).issues_seq()[j] == old(
                    errs,
                ).issues_seq()[j]
            &&& forall|j: int|
                0 <= j < msgs.len() ==> {
                    let it = #[trigger] final(errs).issues_seq()[old(
                        errs,
                    ).issues_seq().len() + j];
                    &&& it.field@ == field@
                    &&& it.kind == IssueKind::Range
                    &&& it.message@ == msgs[j]
                }
        }),
{
    match min {
        Some(m) => {
            if value < m {
                let rendered = i64_to_string(m);
                let msg = str_concat("must be >= ", rendered.as_str());
                errs.push(
                    Issue { field: field.to_owned(), kind: IssueKind::Range, message: msg },
                );
            }
        },
        None => {},
    }
    match max {
        Some(m) => {
            if value > m {
                let rendered = i64_to_string(m);
                let msg = str_concat("must be <= ", rendered.as_str());
                errs.push(
                    Issue { field: field.to_owned(), kind: IssueKind::Range, message: msg },
                );
            }
        },
        None => {},
    }
}

/// Whether a pattern is a valid regular expression.
pub uninterp spec fn regex_pattern_valid(pattern: Seq<char>) -> bool;

/// Whether a valid pattern matches a text.
pub uninterp spec fn regex_matches(pattern: Seq<char>, text: Seq<char>) -> bool;

/// Relies on regex::Regex::new and regex::Regex::is_match: whether the
/// pattern compiles, and whether it matches the text, depend on the two
/// strings alone.
#[verifier::external_body]
fn regex_match(pattern: &str, text: &str) -> (r: Option<bool>)
    ensures
        r is Some <==> regex_pattern_valid(pattern@),
        r matches Some(b) ==> b == regex_matches(pattern@, text@),
{
    match regex::Regex::new(pattern) {
        Ok(re) => Some(re.is_match(text)),
        Err(_) => None,
    }
}

/// Whether a text is a well-formed URL.
pub uninterp spec fn url_well_formed(s: Seq<char>) -> bool;

/// Relies on url::Url::parse: whether a text parses as an URL depends on
/// the text alone.
#[verifier::external_body]
fn url_parses(s: &str) -> (r: bool)
    ensures
        r == url_well_formed(s@),
{
    url::Url::parse(s).is_ok()
}

/// Check a string field against a regular expression, appending one Regex
/// issue when the pattern does not match.  Returns whether the pattern was
/// a valid regular expression; an invalid pattern appends nothing.
pub fn check_regex(field: &str, pattern: &str, value: &str, errs: &mut ValidationErrors) -> (r:
    bool)
    ensures
        r == regex_pattern_valid(pattern@),
        r && !regex_matches(pattern@, value@) ==> {
            &&& final(errs).issues_seq().len() == old(errs).issues_seq().len() + 1
            &&& forall|j: int|
                0 <= j < old(errs).issues_seq().len() ==> final(errs).issues_seq()[j] == old(
                    errs,
                ).issues_seq()[j]
            &&& final(errs).issues_seq().last().field@ == field@
            &&& final(errs).issues_seq().last().kind == IssueKind::Regex
            &&& final(errs).issues_seq().last().message@ == "regex not matched: "@ + pattern@
        },
        !(r && !regex_matches(pattern@, value@)) ==> final(errs).issues_seq() == old(
            errs,
        ).issues_seq(),
{
    match regex_match(pattern, value) {
        Some(matched) => {
            if !matched {
                let msg = str_concat("regex not matched: ", pattern);
                errs.push(
                    Issue { field: field.to_owned(), kind: IssueKind::Regex, message: msg },
                );
            }
            true
        },
        None => false,
    }
}

/// Check a string field for URL well-formedness, appending one Url issue
/// when the text is not a well-formed URL.
pub fn check_url(field: &str, value: &str, errs: &mut ValidationErrors)
    ensures
        !url_well_formed(value@) ==> {
            &&& final(errs).issues_seq().len() == old(errs).issues_seq().len() + 1
            &&& forall|j: int|
                0 <= j < old(errs).issues_seq().len() ==> final(errs).issues_seq()[j] == old(
                    errs,
                ).issues_seq()[j]
            &&& final(errs).issues_seq().last().field@ == field@
            &&& final(errs).issues_seq().last().kind == IssueKind::Url
            &&& final(errs).issues_seq().last().message@ == "invalid URL"@
        },
        url_well_formed(value@) ==> final(errs).issues_seq() == old(errs).issues_seq(),
{
    if !url_parses(value) {
        errs.push(
            Issue {
                field: field.to_owned(),
                kind: IssueKind::Url,
                message: "invalid URL".to_owned(),
            },
        );
    }
}

} // verus!
