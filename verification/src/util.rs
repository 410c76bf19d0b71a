//! Text helpers for CLI help output.

use vstd::prelude::*;
use vstd::string::StrSliceExecFns;
use vstd::string::StringExecFns;

use crate::strutil::{split_chars, split_on_char, str_concat, trim, trim_spec};

verus! {

/// The lines that remain once empty ones are dropped.
pub open spec fn nonempty_lines(ls: Seq<Seq<char>>) -> Seq<Seq<char>>
    decreases ls.len(),
{
    if ls.len() == 0 {
        Seq::empty()
    } else {
        (if ls[0].len() > 0 {
            seq![ls[0]]
        } else {
            Seq::<Seq<char>>::empty()
        }) + nonempty_lines(ls.skip(1))
    }
}

/// Lines joined with a separator character.
pub open spec fn join_with(ls: Seq<Seq<char>>, sep: char) -> Seq<char>
    decreases ls.len(),
{
    if ls.len() == 0 {
        Seq::empty()
    } else if ls.len() == 1 {
        ls[0]
    } else {
        ls[0] + seq![sep] + join_with(ls.skip(1), sep)
    }
}

/// What formatting a doc block produces: lines split on newlines, each
/// trimmed, empty ones dropped, the rest joined with single blanks.
pub open spec fn format_doc_model(s: Seq<char>) -> Seq<char> {
    join_with(nonempty_lines(split_on_char(s, '\n').map_values(|l: Seq<char>| trim_spec(l))), ' ')
}

/// Appending a line extends the filtered lines at the back.
pub proof fn lemma_nonempty_push(ls: Seq<Seq<char>>, x: Seq<char>)
    ensures
        nonempty_lines(ls.push(x)) == nonempty_lines(ls) + (if x.len() > 0 {
            seq![x]
        } else {
            Seq::<Seq<char>>::empty()
        }),
    decreases ls.len(),
{
    if ls.len() == 0 {
        let e = Seq::<Seq<char>>::empty();
        assert(ls.push(x)[0] == x);
        assert(ls.push(x).skip(1) =~= e);
        assert(ls =~= e);
        assert(nonempty_lines(e) == e);
        assert(nonempty_lines(ls.push(x)) == (if x.len() > 0 {
            seq![x]
        } else {
            e
        }) + nonempty_lines(ls.push(x).skip(1)));
        assert(nonempty_lines(ls.push(x)) =~= nonempty_lines(ls) + (if x.len() > 0 {
            seq![x]
        } else {
            Seq::<Seq<char>>::empty()
        }));
    } else {
        assert(ls.push(x).skip(1) =~= ls.skip(1).push(x));
        lemma_nonempty_push(ls.skip(1), x);
        assert(ls.push(x)[0] == ls[0]);
        assert(nonempty_lines(ls.push(x)) =~= nonempty_lines(ls) + (if x.len() > 0 {
            seq![x]
        } else {
            Seq::<Seq<char>>::empty()
        }));
    }
}

/// Appending a line extends the joined text at the back.
pub proof fn lemma_join_push(ls: Seq<Seq<char>>, x: Seq<char>, sep: char)
    ensures
        join_with(ls.push(x), sep) == if ls.len() == 0 {
            x
        } else {
            join_with(ls, sep) + seq![sep] + x
        },
    decreases ls.len(),
{
    if ls.len() == 0 {
        assert(ls.push(x)[0] == x);
    } else {
        assert(ls.push(x).skip(1) =~= ls.skip(1).push(x));
        lemma_join_push(ls.skip(1), x, sep);
        assert(ls.push(x)[0] == ls[0]);
        if ls.len() == 1 {
            assert(ls.push(x).len() == 2);
            assert(join_with(ls.push(x), sep) == ls[0] + seq![sep] + join_with(
                ls.skip(1).push(x),
                sep,
            ));
            assert(ls.skip(1).len() == 0);
            assert(join_with(ls.skip(1).push(x), sep) == x);
            assert(join_with(ls, sep) == ls[0]);
        } else {
            assert(join_with(ls.push(x), sep) =~= join_with(ls, sep) + seq![sep] + x);
        }
    }
}

/// Format a block of documentation for CLI help: lines are trimmed, empty
/// ones dropped, and the rest joined with single blanks.
#[verifier::loop_isolation(false)]
pub fn format_doc(doc: Option<&str>) -> (r: Option<String>)
    ensures
        match (doc, r) {
            (Some(d), Some(out)) => out@ == format_doc_model(d@),
            (None, None) => true,
            _ => false,
        },
{
    match doc {
        None => None,
        Some(d) => {
            let lines = split_chars(d, '\n');
            let ghost linesv = split_on_char(d@, '\n');
            let ghost trimmed = linesv.map_values(|l: Seq<char>| trim_spec(l));
            let mut out = String::new();
            let mut any = false;
            let ghost flt0 = nonempty_lines(trimmed.take(0));
            proof {
                assert(trimmed.take(0) =~= Seq::<Seq<char>>::empty());
                assert(flt0 =~= Seq::<Seq<char>>::empty());
            }
            let mut i: usize = 0;
            let n = lines.len();
            while i < n
                invariant
                    i <= n,
                    n == linesv.len(),
                    lines.deep_view() == linesv,
                    trimmed == linesv.map_values(|l: Seq<char>| trim_spec(l)),
                    out@ == join_with(nonempty_lines(trimmed.take(i as int)), ' '),
                    any == (nonempty_lines(trimmed.take(i as int)).len() > 0),
                decreases n - i,
            {
                let t = trim(lines[i].as_str());
                let ghost flt = nonempty_lines(trimmed.take(i as int));
                proof {
                    assert(trimmed.take(i as int + 1) =~= trimmed.take(i as int).push(
                        trimmed[i as int],
                    ));
                    lemma_nonempty_push(trimmed.take(i as int), trimmed[i as int]);
                    assert(t@ == trimmed[i as int]);
                }
                if t.as_str().unicode_len() > 0 {
                    proof {
                        assert(nonempty_lines(trimmed.take(i as int + 1)) =~= flt.push(t@));
                        lemma_join_push(flt, t@, ' ');
                    }
                    if any {
                        out.append(" ");
                        proof {
                            reveal_strlit(" ");
                            assert(" "@ =~= seq![' ']);
                        }
                    }
                    out.append(t.as_str());
                    any = true;
                    proof {
                        assert(out@ =~= join_with(
                            nonempty_lines(trimmed.take(i as int + 1)),
                            ' ',
                        ));
                    }
                } else {
                    proof {
                        assert(nonempty_lines(trimmed.take(i as int + 1)) =~= flt);
                    }
                }
                i = i + 1;
            }
            proof {
                assert(trimmed.take(n as int) =~= trimmed);
            }
            Some(out)
        },
    }
}

/// What rendering a flag produces.
pub open spec fn format_flag_model(flag: Seq<char>, takes_value: bool) -> Seq<char> {
    if takes_value {
        "--"@ + flag + " <value>"@
    } else {
        "--"@ + flag
    }
}

/// Render a CLI flag for help output.
pub fn format_flag(flag: &str, takes_value: bool) -> (r: String)
    ensures
        r@ == format_flag_model(flag@, takes_value),
{
    let with_dashes = str_concat("--", flag);
    if takes_value {
        let full = str_concat(with_dashes.as_str(), " <value>");
        proof {
            assert(full@ =~= "--"@ + flag@ + " <value>"@);
        }
        full
    } else {
        with_dashes
    }
}

} // verus!
