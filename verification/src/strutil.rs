//! Verified helpers for strings: comparison, concatenation, splitting.

use vstd::prelude::*;
use vstd::string::StrSliceExecFns;
use vstd::string::StringExecFns;

verus! {

/// Exact string equality, specified over the character views.
pub fn str_eq(a: &str, b: &str) -> (r: bool)
    ensures
        r == (a@ == b@),
{
    let an = a.unicode_len();
    let bn = b.unicode_len();
    if an != bn {
        return false;
    }
    let mut i: usize = 0;
    while i < an
        invariant
            an == a@.len(),
            bn == b@.len(),
            an == bn,
            i <= an,
            forall|j: int| 0 <= j < i ==> a@[j] == b@[j],
        decreases an - i,
    {
        if a.get_char(i) != b.get_char(i) {
            return false;
        }
        i = i + 1;
    }
    proof {
        assert(a@ =~= b@);
    }
    true
}

/// String-against-slice equality, for comparing owned keys with a borrowed key.
pub fn string_eq_str(a: &String, b: &str) -> (r: bool)
    ensures
        r == (a@ == b@),
{
    str_eq(a.as_str(), b)
}

/// Join two pieces around a dot, as dotted paths are extended.
pub fn join_dotted(prefix: &str, rest: &str) -> (r: String)
    ensures
        r@ == prefix@ + seq!['.'] + rest@,
{
    proof {
        reveal_strlit(".");
    }
    let mut combined = prefix.to_owned();
    combined.append(".");
    combined.append(rest);
    proof {
        assert(combined@ =~= prefix@ + seq!['.'] + rest@);
    }
    combined
}

/// Concatenate two strings.
pub fn str_concat(a: &str, b: &str) -> (r: String)
    ensures
        r@ == a@ + b@,
{
    let mut combined = a.to_owned();
    combined.append(b);
    combined
}

/// The characters of `s` with every underscore replaced by a dash.
pub open spec fn dashes_for(s: Seq<char>) -> Seq<char> {
    Seq::new(s.len(), |i: int| if s[i] == '_' { '-' } else { s[i] })
}

/// Replace every underscore with a dash, as flag names are derived from
/// field names.
#[verifier::loop_isolation(false)]
pub fn replace_underscores(s: &str) -> (r: String)
    ensures
        r@ == dashes_for(s@),
{
    proof {
        reveal_strlit("-");
    }
    let n = s.unicode_len();
    let mut out = String::new();
    let mut i: usize = 0;
    while i < n
        invariant
            n == s@.len(),
            i <= n,
            out@ =~= dashes_for(s@.take(i as int)),
        decreases n - i,
    {
        let c = s.get_char(i);
        if c == '_' {
            out.append("-");
        } else {
            let piece = s.substring_char(i, i + 1);
            proof {
                assert(piece@ =~= seq![s@[i as int]]);
            }
            out.append(piece);
        }
        i = i + 1;
        proof {
            assert(out@ =~= dashes_for(s@.take(i as int)));
        }
    }
    proof {
        assert(s@.take(n as int) =~= s@);
    }
    out
}

/// How a string splits on a separator: the separator ends the current
/// segment, and both the empty string and a trailing separator yield an
/// empty segment.
pub open spec fn split_on_char(s: Seq<char>, sep: char) -> Seq<Seq<char>>
    decreases s.len(),
{
    if s.len() == 0 {
        seq![Seq::<char>::empty()]
    } else if s[0] == sep {
        seq![Seq::<char>::empty()] + split_on_char(s.skip(1), sep)
    } else {
        let rest = split_on_char(s.skip(1), sep);
        seq![seq![s[0]] + rest[0]] + rest.skip(1)
    }
}

/// How a dotted path splits into segments.
pub open spec fn split_on_dot(s: Seq<char>) -> Seq<Seq<char>> {
    split_on_char(s, '.')
}

/// No character of `s` is the separator.
pub open spec fn sep_free(s: Seq<char>, sep: char) -> bool {
    forall|i: int| 0 <= i < s.len() ==> s[i] != sep
}

/// No character of `s` is a dot.
pub open spec fn dot_free(s: Seq<char>) -> bool {
    sep_free(s, '.')
}

/// A separator-free string is one whole segment.
pub proof fn lemma_split_sep_free(s: Seq<char>, sep: char)
    requires
        sep_free(s, sep),
    ensures
        split_on_char(s, sep) == seq![s],
    decreases s.len(),
{
    if s.len() == 0 {
        assert(split_on_char(s, sep) =~~= seq![s]);
    } else {
        lemma_split_sep_free(s.skip(1), sep);
        let rest = split_on_char(s.skip(1), sep);
        assert(rest[0] == s.skip(1));
        assert(seq![s[0]] + s.skip(1) =~= s);
        assert(rest.skip(1) =~= Seq::<Seq<char>>::empty());
        assert(split_on_char(s, sep) =~~= seq![s]);
    }
}

/// A separator after a separator-free prefix ends exactly one segment.
pub proof fn lemma_split_prefix(a: Seq<char>, t: Seq<char>, sep: char)
    requires
        sep_free(a, sep),
    ensures
        split_on_char(a + seq![sep] + t, sep) == seq![a] + split_on_char(t, sep),
    decreases a.len(),
{
    let s = a + seq![sep] + t;
    if a.len() == 0 {
        assert(s[0] == sep);
        assert(s.skip(1) =~= t);
        assert(split_on_char(s, sep) =~~= seq![a] + split_on_char(t, sep));
    } else {
        assert(s[0] == a[0]);
        assert(s[0] != sep);
        assert(s.skip(1) =~= a.skip(1) + seq![sep] + t);
        lemma_split_prefix(a.skip(1), t, sep);
        let rest = split_on_char(s.skip(1), sep);
        assert(rest == seq![a.skip(1)] + split_on_char(t, sep));
        assert(rest[0] == a.skip(1));
        assert(seq![s[0]] + rest[0] =~= a);
        assert(rest.skip(1) =~= split_on_char(t, sep));
        assert(split_on_char(s, sep) =~~= seq![a] + split_on_char(t, sep));
    }
}

/// Split a string on a separator character.
#[verifier::loop_isolation(false)]
pub fn split_chars(s: &str, sep: char) -> (r: Vec<String>)
    ensures
        r.deep_view() == split_on_char(s@, sep),
        r@.len() >= 1,
{
    let n = s.unicode_len();
    let mut out: Vec<String> = Vec::new();
    let mut start: usize = 0;
    let mut i: usize = 0;
    proof {
        assert(out.deep_view() =~= Seq::<Seq<char>>::empty());
        assert(s@.skip(0) =~= s@);
        assert(out.deep_view() + split_on_char(s@.skip(0), sep) =~= split_on_char(s@, sep));
    }
    while i < n
        invariant
            n == s@.len(),
            start <= i <= n,
            sep_free(s@.subrange(start as int, i as int), sep),
            split_on_char(s@, sep) == out.deep_view() + split_on_char(
                s@.skip(start as int),
                sep,
            ),
        decreases n - i,
    {
        let c = s.get_char(i);
        if c == sep {
            let seg = s.substring_char(start, i).to_owned();
            let ghost segv = seg@;
            let ghost dv_old = out.deep_view();
            out.push(seg);
            proof {
                assert(out.deep_view() =~= dv_old.push(segv));
                assert(segv =~= s@.subrange(start as int, i as int));
                assert(s@.skip(start as int) =~= segv + seq![sep] + s@.skip(i as int + 1));
                lemma_split_prefix(segv, s@.skip(i as int + 1), sep);
                assert(dv_old + (seq![segv] + split_on_char(s@.skip(i as int + 1), sep))
                    =~= dv_old.push(segv) + split_on_char(s@.skip(i as int + 1), sep));
                assert(s@.subrange(i as int + 1, i as int + 1) =~= Seq::<char>::empty());
            }
            start = i + 1;
        } else {
            proof {
                assert(s@.subrange(start as int, i as int + 1) =~= s@.subrange(
                    start as int,
                    i as int,
                ).push(s@[i as int]));
            }
        }
        i = i + 1;
    }
    let seg = s.substring_char(start, n).to_owned();
    let ghost segv = seg@;
    let ghost dv_old = out.deep_view();
    out.push(seg);
    proof {
        assert(out.deep_view() =~= dv_old.push(segv));
        assert(segv =~= s@.subrange(start as int, n as int));
        assert(segv =~= s@.skip(start as int));
        lemma_split_sep_free(segv, sep);
        assert(dv_old + seq![segv] =~= dv_old.push(segv));
        assert(split_on_char(s@, sep) =~= out.deep_view());
    }
    out
}

/// Split a dotted path into its segments.
pub fn split_dots(s: &str) -> (r: Vec<String>)
    ensures
        r.deep_view() == split_on_dot(s@),
        r@.len() >= 1,
{
    split_chars(s, '.')
}

/// Whitespace, as this library trims it: blanks, tabs and line breaks.
pub open spec fn is_ws(c: char) -> bool {
    c == ' ' || c == '\t' || c == '\r' || c == '\n'
}

/// A string without its leading whitespace.
pub open spec fn trim_front(s: Seq<char>) -> Seq<char>
    decreases s.len(),
{
    if s.len() > 0 && is_ws(s[0]) {
        trim_front(s.skip(1))
    } else {
        s
    }
}

/// A string without its trailing whitespace.
pub open spec fn trim_back(s: Seq<char>) -> Seq<char>
    decreases s.len(),
{
    if s.len() > 0 && is_ws(s[s.len() - 1]) {
        trim_back(s.take(s.len() - 1))
    } else {
        s
    }
}

/// A string without leading and trailing whitespace.
pub open spec fn trim_spec(s: Seq<char>) -> Seq<char> {
    trim_back(trim_front(s))
}

/// Skipping leading whitespace reaches the first non-blank character.
proof fn lemma_trim_front_at(s: Seq<char>, a: int)
    requires
        0 <= a <= s.len(),
        forall|j: int| 0 <= j < a ==> is_ws(#[trigger] s[j]),
        a < s.len() ==> !is_ws(s[a]),
    ensures
        trim_front(s) == s.skip(a),
    decreases a,
{
    if a == 0 {
        if s.len() > 0 {
            assert(!is_ws(s[0]));
        }
        assert(s.skip(0) =~= s);
    } else {
        assert(is_ws(s[0]));
        lemma_trim_front_at(s.skip(1), a - 1);
        assert(s.skip(1).skip(a - 1) =~= s.skip(a));
    }
}

/// Dropping trailing whitespace reaches the last non-blank character.
proof fn lemma_trim_back_at(s: Seq<char>, b: int)
    requires
        0 <= b <= s.len(),
        forall|j: int| b <= j < s.len() ==> is_ws(#[trigger] s[j]),
        b > 0 ==> !is_ws(s[b - 1]),
    ensures
        trim_back(s) == s.take(b),
    decreases s.len() - b,
{
    if b == s.len() {
        if s.len() > 0 {
            assert(!is_ws(s[s.len() - 1]));
        }
        assert(s.take(b) =~= s);
    } else {
        assert(is_ws(s[s.len() - 1]));
        lemma_trim_back_at(s.take(s.len() - 1), b);
        assert(s.take(s.len() - 1).take(b) =~= s.take(b));
    }
}

/// Trim leading and trailing whitespace.
#[verifier::loop_isolation(false)]
pub fn trim(s: &str) -> (r: String)
    ensures
        r@ == trim_spec(s@),
{
    let n = s.unicode_len();
    let mut a: usize = 0;
    let mut scanning = true;
    while scanning && a < n
        invariant
            a <= n,
            n == s@.len(),
            forall|j: int| 0 <= j < a ==> is_ws(#[trigger] s@[j]),
            !scanning ==> a < n && !is_ws(s@[a as int]),
        decreases n - a, (if scanning {
            1int
        } else {
            0int
        }),
    {
        let c = s.get_char(a);
        if c == ' ' || c == '\t' || c == '\r' || c == '\n' {
            a = a + 1;
        } else {
            scanning = false;
        }
    }
    let mut b: usize = n;
    let mut scanning_back = true;
    while scanning_back && b > a
        invariant
            a <= b <= n,
            n == s@.len(),
            forall|j: int| b <= j < n ==> is_ws(#[trigger] s@[j]),
            !scanning_back ==> b > a && !is_ws(s@[b - 1]),
        decreases b, (if scanning_back {
            1int
        } else {
            0int
        }),
    {
        let c = s.get_char(b - 1);
        if c == ' ' || c == '\t' || c == '\r' || c == '\n' {
            b = b - 1;
        } else {
            scanning_back = false;
        }
    }
    let r = s.substring_char(a, b).to_owned();
    proof {
        lemma_trim_front_at(s@, a as int);
        let t = s@.skip(a as int);
        assert forall|j: int| b - a <= j < t.len() implies is_ws(#[trigger] t[j]) by {
            assert(t[j] == s@[a + j]);
        }
        if b > a {
            assert(t[b - a - 1] == s@[b - 1]);
        }
        lemma_trim_back_at(t, b - a);
        assert(r@ =~= t.take(b - a));
    }
    r
}

/// Trim trailing whitespace only.
#[verifier::loop_isolation(false)]
pub fn trim_end(s: &str) -> (r: String)
    ensures
        r@ == trim_back(s@),
{
    let n = s.unicode_len();
    let mut b: usize = n;
    let mut scanning_back = true;
    while scanning_back && b > 0
        invariant
            b <= n,
            n == s@.len(),
            forall|j: int| b <= j < n ==> is_ws(#[trigger] s@[j]),
            !scanning_back ==> b > 0 && !is_ws(s@[b - 1]),
        decreases b, (if scanning_back {
            1int
        } else {
            0int
        }),
    {
        let c = s.get_char(b - 1);
        if c == ' ' || c == '\t' || c == '\r' || c == '\n' {
            b = b - 1;
        } else {
            scanning_back = false;
        }
    }
    let r = s.substring_char(0, b).to_owned();
    proof {
        lemma_trim_back_at(s@, b as int);
        assert(r@ =~= s@.take(b as int));
    }
    r
}

} // verus!
