//! Parsing of textual literals (from environment variables and CLI values)
//! into value-tree leaves, according to the field's declared kind.

use vstd::prelude::*;
use vstd::string::StrSliceExecFns;

use crate::strutil::str_eq;
use crate::types::Kind;
use crate::value::{value_model, value_wf, ValueTree, ValueModel};

verus! {

/// A decimal digit.
pub open spec fn is_digit(c: char) -> bool {
    48 <= c as int <= 57
}

/// The value of a decimal digit.
pub open spec fn digit_val(c: char) -> int {
    c as int - 48
}

/// The value of a digit string, most significant digit first.
pub open spec fn digits_val(s: Seq<char>) -> int
    decreases s.len(),
{
    if s.len() == 0 {
        0
    } else {
        digits_val(s.take(s.len() - 1)) * 10 + digit_val(s[s.len() - 1])
    }
}

/// A non-empty, all-digits string.
pub open spec fn all_digits(s: Seq<char>) -> bool {
    s.len() > 0 && forall|i: int| 0 <= i < s.len() ==> is_digit(#[trigger] s[i])
}

/// The rest of a literal after an optional leading sign.
pub open spec fn opt_sign(s: Seq<char>) -> Seq<char> {
    if s.len() > 0 && (s[0] == '+' || s[0] == '-') {
        s.skip(1)
    } else {
        s
    }
}

/// Whether a literal denotes a negative number.
pub open spec fn is_negative(s: Seq<char>) -> bool {
    s.len() > 0 && s[0] == '-'
}

/// An integer literal: an optional sign followed by one or more digits.
pub open spec fn is_int_literal(s: Seq<char>) -> bool {
    all_digits(opt_sign(s))
}

/// The mathematical value of an integer literal.
pub open spec fn int_literal_val(s: Seq<char>) -> int {
    if is_negative(s) {
        -digits_val(opt_sign(s))
    } else {
        digits_val(opt_sign(s))
    }
}

/// Whether a mathematical integer fits a 64-bit signed value.
pub open spec fn in_i64_range(v: int) -> bool {
    i64::MIN <= v <= i64::MAX
}

/// The value of a digit string is never negative.
pub proof fn lemma_digits_val_nonneg(s: Seq<char>)
    requires
        forall|i: int| 0 <= i < s.len() ==> is_digit(#[trigger] s[i]),
    ensures
        digits_val(s) >= 0,
    decreases s.len(),
{
    if s.len() > 0 {
        lemma_digits_val_nonneg(s.take(s.len() - 1));
    }
}

/// Appending digits never shrinks the value of a digit string.
pub proof fn lemma_digits_val_monotone(s: Seq<char>, i: int, j: int)
    requires
        forall|k: int| 0 <= k < s.len() ==> is_digit(#[trigger] s[k]),
        0 <= i <= j <= s.len(),
    ensures
        digits_val(s.take(i)) <= digits_val(s.take(j)),
    decreases j - i,
{
    if i < j {
        lemma_digits_val_monotone(s, i, j - 1);
        assert(s.take(j).take(j - 1) =~= s.take(j - 1));
        lemma_digits_val_nonneg(s.take(j - 1));
    }
}

/// Parse a base-10 signed 64-bit integer; `None` exactly when the text is
/// not an integer literal or its value does not fit.
#[verifier::loop_isolation(false)]
pub fn parse_i64_str(s: &str) -> (r: Option<i64>)
    ensures
        match r {
            Some(v) => is_int_literal(s@) && in_i64_range(int_literal_val(s@)) && v as int
                == int_literal_val(s@),
            None => !(is_int_literal(s@) && in_i64_range(int_literal_val(s@))),
        },
{
    let n = s.unicode_len();
    let mut p: usize = 0;
    let mut neg = false;
    if n > 0 {
        let c0 = s.get_char(0);
        if c0 == '+' {
            p = 1;
        } else if c0 == '-' {
            p = 1;
            neg = true;
        }
    }
    let ghost digits = opt_sign(s@);
    proof {
        assert(digits =~= s@.skip(p as int));
        assert(neg == is_negative(s@));
    }
    if p == n {
        return None;
    }
    let mut acc: u128 = 0;
    let mut i = p;
    proof {
        assert(s@.subrange(p as int, p as int) =~= Seq::<char>::empty());
    }
    while i < n
        invariant
            p <= i <= n,
            n == s@.len(),
            p < n,
            forall|j: int| p <= j < i ==> is_digit(#[trigger] s@[j]),
            acc <= 9223372036854775808u128 ==> acc as int == digits_val(
                s@.subrange(p as int, i as int),
            ),
            acc > 9223372036854775808u128 ==> acc == 9223372036854775809u128 && digits_val(
                s@.subrange(p as int, i as int),
            ) > 9223372036854775808,
        decreases n - i,
    {
        let c = s.get_char(i);
        let cv = c as u32;
        if cv < 48 || cv > 57 {
            proof {
                assert(digits[i - p] == s@[i as int]);
                assert(!is_digit(digits[i - p]));
                assert(!all_digits(digits));
            }
            return None;
        }
        let d = (cv - 48) as u128;
        proof {
            assert(s@.subrange(p as int, i as int + 1).take(i - p) =~= s@.subrange(
                p as int,
                i as int,
            ));
            assert(s@.subrange(p as int, i as int + 1)[i - p] == s@[i as int]);
            assert(digits_val(s@.subrange(p as int, i as int + 1)) == digits_val(
                s@.subrange(p as int, i as int),
            ) * 10 + digit_val(s@[i as int]));
            if acc <= 9223372036854775808u128 {
                lemma_digits_val_nonneg(s@.subrange(p as int, i as int));
            }
        }
        if acc > 9223372036854775808u128 {
            // already out of range; further digits keep it out
        } else {
            let next = acc * 10 + d;
            if next > 9223372036854775808u128 {
                acc = 9223372036854775809u128;
            } else {
                acc = next;
            }
        }
        i = i + 1;
    }
    proof {
        assert(digits =~= s@.subrange(p as int, n as int));
        assert(all_digits(digits));
        lemma_digits_val_nonneg(digits);
    }
    if neg {
        if acc > 9223372036854775808u128 {
            None
        } else {
            let v = (-(acc as i128)) as i64;
            proof {
                assert(int_literal_val(s@) == -(acc as int));
            }
            Some(v)
        }
    } else {
        if acc > 9223372036854775807u128 {
            None
        } else {
            Some(acc as i64)
        }
    }
}

/// Case-insensitive match of `c` against a lower-case letter.
pub open spec fn eq_ci(c: char, l: char) -> bool {
    c as int == l as int || c as int == l as int - 32
}

/// Case-insensitive match against a lower-case word.
pub open spec fn matches_ci(s: Seq<char>, t: Seq<char>) -> bool {
    s.len() == t.len() && forall|i: int| 0 <= i < s.len() ==> eq_ci(#[trigger] s[i], t[i])
}

/// The special float words, in any letter case.
pub open spec fn is_special_float(s: Seq<char>) -> bool {
    ||| matches_ci(s, seq!['i', 'n', 'f'])
    ||| matches_ci(s, seq!['i', 'n', 'f', 'i', 'n', 'i', 't', 'y'])
    ||| matches_ci(s, seq!['n', 'a', 'n'])
}

/// Characters allowed in a mantissa.
pub open spec fn dot_digit_chars(s: Seq<char>) -> bool {
    forall|i: int| 0 <= i < s.len() ==> is_digit(#[trigger] s[i]) || s[i] == '.'
}

/// How many characters of `s` are dots.
pub open spec fn count_dots(s: Seq<char>) -> int
    decreases s.len(),
{
    if s.len() == 0 {
        0
    } else {
        (if s[s.len() - 1] == '.' {
            1int
        } else {
            0int
        }) + count_dots(s.take(s.len() - 1))
    }
}

/// A mantissa: digits with at most one dot among them, at least one digit.
pub open spec fn is_mantissa(s: Seq<char>) -> bool {
    dot_digit_chars(s) && count_dots(s) <= 1 && count_dots(s) < s.len()
}

/// The index of the first exponent marker, or the length if there is none.
pub open spec fn first_exp_idx(s: Seq<char>) -> int
    decreases s.len(),
{
    if s.len() == 0 {
        0
    } else if s[0] == 'e' || s[0] == 'E' {
        0
    } else {
        1 + first_exp_idx(s.skip(1))
    }
}

/// A number: a mantissa, optionally followed by an exponent marker, an
/// optional sign and one or more digits.
pub open spec fn is_float_number(s: Seq<char>) -> bool {
    let e = first_exp_idx(s);
    if e == s.len() {
        is_mantissa(s)
    } else {
        is_mantissa(s.take(e)) && all_digits(opt_sign(s.skip(e + 1)))
    }
}

/// A float literal, after the grammar of IEEE double parsing: an optional
/// sign, then a number or one of the special words.
pub open spec fn is_float_literal(s: Seq<char>) -> bool {
    let t = opt_sign(s);
    is_special_float(t) || is_float_number(t)
}

/// Whether the text, after an optional sign, is one of the special float
/// words (in any letter case).
#[verifier::loop_isolation(false)]
pub fn is_special_float_str(s: &str) -> (r: bool)
    ensures
        r == is_special_float(opt_sign(s@)),
{
    proof {
        reveal_strlit("inf");
        reveal_strlit("infinity");
        reveal_strlit("nan");
    }
    let n = s.unicode_len();
    let mut p: usize = 0;
    if n > 0 {
        let c0 = s.get_char(0);
        if c0 == '+' || c0 == '-' {
            p = 1;
        }
    }
    proof {
        assert(opt_sign(s@) =~= s@.skip(p as int));
        assert("inf"@ =~= seq!['i', 'n', 'f']);
        assert("infinity"@ =~= seq!['i', 'n', 'f', 'i', 'n', 'i', 't', 'y']);
        assert("nan"@ =~= seq!['n', 'a', 'n']);
    }
    matches_ci_from(s, p, "inf") || matches_ci_from(s, p, "infinity") || matches_ci_from(
        s,
        p,
        "nan",
    )
}

/// The first exponent marker is where no earlier character is one.
pub proof fn lemma_first_exp(s: Seq<char>, i: int)
    requires
        0 <= i <= s.len(),
        forall|j: int| 0 <= j < i ==> !((#[trigger] s[j]) == 'e' || s[j] == 'E'),
        i < s.len() ==> (s[i] == 'e' || s[i] == 'E'),
    ensures
        first_exp_idx(s) == i,
    decreases i,
{
    if i > 0 {
        assert(s[0] != 'e' && s[0] != 'E');
        lemma_first_exp(s.skip(1), i - 1);
    }
}

/// Case-insensitive comparison of a suffix of `s` with a lower-case word.
#[verifier::loop_isolation(false)]
fn matches_ci_from(s: &str, from: usize, t: &str) -> (r: bool)
    requires
        from <= s@.len(),
    ensures
        r == matches_ci(s@.skip(from as int), t@),
{
    let n = s.unicode_len();
    let m = t.unicode_len();
    if n - from != m {
        return false;
    }
    let mut i: usize = 0;
    while i < m
        invariant
            i <= m,
            m == t@.len(),
            n == s@.len(),
            n - from == m,
            forall|j: int| 0 <= j < i ==> eq_ci(#[trigger] s@.skip(from as int)[j], t@[j]),
        decreases m - i,
    {
        let c = s.get_char(from + i);
        let l = t.get_char(i);
        let ok = c == l || (l as u32 >= 32 && c as u32 == l as u32 - 32);
        proof {
            assert(s@.skip(from as int)[i as int] == s@[from + i]);
        }
        if !ok {
            proof {
                assert(!eq_ci(s@.skip(from as int)[i as int], t@[i as int]));
            }
            return false;
        }
        i = i + 1;
    }
    true
}

/// Whether the text is a float literal, per the grammar of IEEE double
/// parsing.
#[verifier::loop_isolation(false)]
#[verifier::rlimit(60)]
pub fn is_float_str(s: &str) -> (r: bool)
    ensures
        r == is_float_literal(s@),
{
    proof {
        reveal_strlit("inf");
        reveal_strlit("infinity");
        reveal_strlit("nan");
    }
    let n = s.unicode_len();
    let mut p: usize = 0;
    if n > 0 {
        let c0 = s.get_char(0);
        if c0 == '+' || c0 == '-' {
            p = 1;
        }
    }
    let ghost t = opt_sign(s@);
    proof {
        assert(t =~= s@.skip(p as int));
    }
    if matches_ci_from(s, p, "inf") || matches_ci_from(s, p, "infinity") || matches_ci_from(
        s,
        p,
        "nan",
    ) {
        proof {
            assert("inf"@ =~= seq!['i', 'n', 'f']);
            assert("infinity"@ =~= seq!['i', 'n', 'f', 'i', 'n', 'i', 't', 'y']);
            assert("nan"@ =~= seq!['n', 'a', 'n']);
        }
        return true;
    }
    proof {
        assert("inf"@ =~= seq!['i', 'n', 'f']);
        assert("infinity"@ =~= seq!['i', 'n', 'f', 'i', 'n', 'i', 't', 'y']);
        assert("nan"@ =~= seq!['n', 'a', 'n']);
        assert(!is_special_float(t));
    }
    // find the first exponent marker after the sign
    let mut e: usize = p;
    let mut scanning = true;
    while scanning && e < n
        invariant
            p <= e <= n,
            n == s@.len(),
            forall|j: int| p <= j < e ==> !((#[trigger] s@[j]) == 'e' || s@[j] == 'E'),
            !scanning ==> e < n && (s@[e as int] == 'e' || s@[e as int] == 'E'),
        decreases n - e, (if scanning {
            1int
        } else {
            0int
        }),
    {
        let c = s.get_char(e);
        if c == 'e' || c == 'E' {
            scanning = false;
        } else {
            e = e + 1;
        }
    }
    proof {
        assert forall|j: int| 0 <= j < e - p implies !((#[trigger] t[j]) == 'e' || t[j]
            == 'E') by {
            assert(t[j] == s@[p + j]);
        }
        if e < n {
            assert(t[e - p] == s@[e as int]);
        }
        lemma_first_exp(t, e - p);
    }
    // validate the mantissa region between the sign and the marker
    let mut dots: usize = 0;
    let mut digits: usize = 0;
    let mut i: usize = p;
    let ghost mant = t.take(e - p);
    proof {
        assert(mant.take(0) =~= Seq::<char>::empty());
    }
    while i < e
        invariant
            p <= i <= e <= n,
            n == s@.len(),
            mant == t.take(e - p),
            t =~= s@.skip(p as int),
            dots <= i - p,
            digits <= i - p,
            forall|j: int| 0 <= j < i - p ==> is_digit(#[trigger] mant[j]) || mant[j] == '.',
            dots as int == count_dots(mant.take(i - p)),
            digits as int + dots as int == i - p,
            digits > 0 ==> count_dots(mant.take(i - p)) < i - p,
            digits == 0 ==> count_dots(mant.take(i - p)) == i - p,
        decreases e - i,
    {
        let c = s.get_char(i);
        let cv = c as u32;
        proof {
            assert(mant[i - p] == s@[i as int]);
            assert(mant.take(i - p + 1).take(i - p) =~= mant.take(i - p));
            assert(mant.take(i - p + 1)[i - p] == mant[i - p]);
        }
        if cv >= 48 && cv <= 57 {
            digits = digits + 1;
        } else if c == '.' {
            dots = dots + 1;
        } else {
            proof {
                assert(!(is_digit(mant[i - p]) || mant[i - p] == '.'));
                assert(!dot_digit_chars(mant));
                assert(!is_mantissa(mant));
                if e == n {
                    assert(!is_float_number(t));
                } else {
                    assert(!is_float_number(t));
                }
            }
            return false;
        }
        i = i + 1;
    }
    proof {
        assert(mant.take(e - p) =~= mant);
    }
    if dots > 1 || digits == 0 {
        proof {
            assert(!is_mantissa(mant));
            if e == n {
                assert(mant =~= t);
            }
        }
        return false;
    }
    proof {
        assert(is_mantissa(mant));
    }
    if e == n {
        proof {
            assert(mant =~= t);
        }
        return true;
    }
    // validate the exponent: an optional sign then one or more digits
    let ghost expo = t.skip(e - p + 1);
    let mut q = e + 1;
    proof {
        assert(expo =~= s@.skip(q as int));
    }
    if q < n {
        let c = s.get_char(q);
        if c == '+' || c == '-' {
            q = q + 1;
        }
    }
    let ghost expd = opt_sign(expo);
    proof {
        assert(expd =~= s@.skip(q as int));
    }
    if q == n {
        proof {
            assert(expd.len() == 0);
            assert(!all_digits(expd));
        }
        return false;
    }
    let mut k = q;
    while k < n
        invariant
            q <= k <= n,
            n == s@.len(),
            expd =~= s@.skip(q as int),
            forall|j: int| 0 <= j < k - q ==> is_digit(#[trigger] expd[j]),
        decreases n - k,
    {
        let c = s.get_char(k);
        let cv = c as u32;
        proof {
            assert(expd[k - q] == s@[k as int]);
        }
        if cv < 48 || cv > 57 {
            proof {
                assert(!is_digit(expd[k - q]));
                assert(!all_digits(expd));
            }
            return false;
        }
        k = k + 1;
    }
    proof {
        assert(all_digits(expd));
        assert(is_float_number(t));
    }
    true
}

/// What parsing a literal of a given kind yields: the parsed leaf value, or
/// the message of the rejection.
pub open spec fn literal_model(raw: Seq<char>, kind: Kind) -> Result<ValueModel, Seq<char>> {
    match kind {
        Kind::Bool => if raw == "1"@ || raw == "true"@ || raw == "TRUE"@ || raw == "True"@ {
            Result::Ok(ValueModel::Bool(true))
        } else if raw == "0"@ || raw == "false"@ || raw == "FALSE"@ || raw == "False"@ {
            Result::Ok(ValueModel::Bool(false))
        } else {
            Result::Err("expected a boolean"@)
        },
        Kind::Int => if is_int_literal(raw) && in_i64_range(int_literal_val(raw)) {
            Result::Ok(ValueModel::Int(int_literal_val(raw)))
        } else {
            Result::Err("expected an integer"@)
        },
        // NaN and the infinities cannot stand as numbers in the value tree,
        // so the special words are rejected in either sign and any letter
        // case.  A literal whose value merely overflows the double range
        // (such as one with a huge exponent) is not told apart here:
        // deciding overflow would take float arithmetic.
        Kind::Float => if is_float_literal(raw) && !is_special_float(opt_sign(raw)) {
            Result::Ok(ValueModel::Float(raw))
        } else {
            Result::Err("expected a float"@)
        },
        Kind::String => Result::Ok(ValueModel::Str(raw)),
        Kind::Object => Result::Err("cannot assign composite value from string"@),
    }
}

/// Parse a raw string according to the field's kind.
pub fn parse_literal(raw: &str, kind: Kind) -> (r: Result<ValueTree, String>)
    ensures
        match r {
            Ok(v) => literal_model(raw@, kind) == Result::<ValueModel, Seq<char>>::Ok(
                value_model(v),
            ) && value_wf(v),
            Err(m) => literal_model(raw@, kind) == Result::<ValueModel, Seq<char>>::Err(m@),
        },
{
    match kind {
        Kind::Bool => {
            if str_eq(raw, "1") || str_eq(raw, "true") || str_eq(raw, "TRUE") || str_eq(
                raw,
                "True",
            ) {
                Ok(ValueTree::Bool(true))
            } else if str_eq(raw, "0") || str_eq(raw, "false") || str_eq(raw, "FALSE") || str_eq(
                raw,
                "False",
            ) {
                Ok(ValueTree::Bool(false))
            } else {
                Err("expected a boolean".to_owned())
            }
        },
        Kind::Int => {
            match parse_i64_str(raw) {
                Some(v) => Ok(ValueTree::Int(v)),
                None => Err("expected an integer".to_owned()),
            }
        },
        Kind::Float => {
            if is_float_str(raw) && !is_special_float_str(raw) {
                Ok(ValueTree::Float(raw.to_owned()))
            } else {
                Err("expected a float".to_owned())
            }
        },
        Kind::String => Ok(ValueTree::Str(raw.to_owned())),
        Kind::Object => Err("cannot assign composite value from string".to_owned()),
    }
}

} // verus!
