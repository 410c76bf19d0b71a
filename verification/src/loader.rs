//! The loading pipeline: overlays from environment variables and CLI
//! arguments, the required-field check, and their composition.

use vstd::prelude::*;

use crate::error::{CnfgError, Issue, IssueKind, ValidationErrors};
use crate::literal::{literal_model, parse_literal};
use crate::merge::{
    has_path_model, insert_path, insert_path_model, leaf_at, merge, merge_model, obj_find,
};
use crate::strutil::{split_dots, split_on_dot, str_concat, str_eq, string_eq_str};
use crate::types::{CliSpec, FieldSpec};
use crate::strutil::{trim, trim_back, trim_end, trim_spec};
use crate::util::{format_doc, format_doc_model, format_flag, format_flag_model, join_with,
    lemma_join_push};
use vstd::string::StrSliceExecFns;
use vstd::string::StringExecFns;
use crate::value::{
    entries_map, lemma_model_object_shape, lemma_value_model_object, obj_dom, value_model,
    value_wf, ValueTree, ValueModel,
};

verus! {

/// The views of a list of name/value pairs.
pub open spec fn pair_views(e: Seq<(String, String)>) -> Seq<(Seq<char>, Seq<char>)> {
    e.map_values(|p: (String, String)| (p.0@, p.1@))
}

/// Whether a dotted path resolves to a non-null value in a tree.
#[verifier::loop_isolation(false)]
pub fn has_path(value: &ValueTree, path: &str) -> (r: bool)
    requires
        value_wf(*value),
    ensures
        r == has_path_model(value@, split_on_dot(path@)),
{
    let segs = split_dots(path);
    let ghost segsv = split_on_dot(path@);
    let mut cur: &ValueTree = value;
    let mut i: usize = 0;
    let n = segs.len();
    proof {
        assert(segsv.skip(0) =~= segsv);
    }
    while i < n
        invariant
            n == segsv.len(),
            segs.deep_view() == segsv,
            i <= n,
            value_wf(*cur),
            has_path_model(value@, segsv) == has_path_model(cur@, segsv.skip(i as int)),
        decreases n - i,
    {
        match cur {
            ValueTree::Object(entries) => {
                match obj_find(entries, segs[i].as_str()) {
                    Some(fi) => {
                        proof {
                            crate::merge::lemma_obj_index(entries@, segsv[i as int], fi as int);
                            lemma_value_model_object(*entries);
                            assert(cur@ == ValueModel::Object(entries_map(entries@)));
                            assert(entries_map(entries@).dom().contains(segsv[i as int]));
                            assert(entries_map(entries@)[segsv[i as int]] == value_model(
                                entries@[fi as int].1,
                            ));
                            assert(segsv.skip(i as int)[0] == segsv[i as int]);
                            assert(segsv.skip(i as int).skip(1) =~= segsv.skip(i as int + 1));
                        }
                        cur = &entries[fi].1;
                    },
                    None => {
                        proof {
                            lemma_value_model_object(*entries);
                            assert(cur@ == ValueModel::Object(entries_map(entries@)));
                            assert(!entries_map(entries@).dom().contains(segsv[i as int]));
                            assert(segsv.skip(i as int)[0] == segsv[i as int]);
                            assert(!has_path_model(cur@, segsv.skip(i as int)));
                        }
                        return false;
                    },
                }
            },
            _ => {
                proof {
                    lemma_model_object_shape(*cur);
                    assert(!(cur@ is Object));
                    assert(segsv.skip(i as int).len() > 0);
                }
                return false;
            },
        }
        i = i + 1;
    }
    proof {
        assert(segsv.skip(n as int) =~= Seq::<Seq<char>>::empty());
    }
    match cur {
        ValueTree::Null => false,
        _ => true,
    }
}

/// The first value bound to a name in an environment snapshot.
pub open spec fn env_lookup(env: Seq<(Seq<char>, Seq<char>)>, name: Seq<char>) -> Option<
    Seq<char>,
>
    decreases env.len(),
{
    if env.len() == 0 {
        Option::None
    } else if env[0].0 == name {
        Option::Some(env[0].1)
    } else {
        env_lookup(env.skip(1), name)
    }
}

/// What the environment overlay produces: each field with a set variable has
/// the parsed value written at its path, in declaration order; a value of
/// the wrong kind stops the overlay with the variable's name and the
/// parser's message.
pub open spec fn apply_env_model(
    acc: ValueModel,
    specs: Seq<FieldSpec>,
    env: Seq<(Seq<char>, Seq<char>)>,
) -> Result<ValueModel, Seq<char>>
    decreases specs.len(),
{
    if specs.len() == 0 {
        Result::Ok(acc)
    } else {
        let sp = specs[0];
        match sp.env {
            Option::Some(name) => match env_lookup(env, name@) {
                Option::Some(raw) => match literal_model(raw, sp.kind) {
                    Result::Ok(v) => apply_env_model(
                        insert_path_model(acc, split_on_dot(sp.path@), v),
                        specs.skip(1),
                        env,
                    ),
                    Result::Err(m) => Result::Err(name@ + seq![':', ' '] + m),
                },
                Option::None => apply_env_model(acc, specs.skip(1), env),
            },
            Option::None => apply_env_model(acc, specs.skip(1), env),
        }
    }
}

/// Look a name up in an environment snapshot.
fn env_get<'a>(env: &'a Vec<(String, String)>, name: &str) -> (r: Option<&'a String>)
    ensures
        match r {
            Some(v) => env_lookup(pair_views(env@), name@) == Option::Some(v@),
            None => env_lookup(pair_views(env@), name@) is None,
        },
{
    let mut i: usize = 0;
    let n = env.len();
    proof {
        assert(pair_views(env@).skip(0) =~= pair_views(env@));
    }
    while i < n
        invariant
            n == env@.len(),
            i <= n,
            env_lookup(pair_views(env@), name@) == env_lookup(
                pair_views(env@).skip(i as int),
                name@,
            ),
        decreases n - i,
    {
        proof {
            assert(pair_views(env@).skip(i as int)[0] == (env@[i as int].0@, env@[i as int].1@));
            assert(pair_views(env@).skip(i as int).skip(1) =~= pair_views(env@).skip(
                i as int + 1,
            ));
        }
        if string_eq_str(&env[i].0, name) {
            return Some(&env[i].1);
        }
        i = i + 1;
    }
    None
}

/// Overlay environment variables onto the accumulated tree, one field at a
/// time, in field declaration order.
#[verifier::loop_isolation(false)]
pub fn apply_environment(
    root: &mut ValueTree,
    specs: &Vec<FieldSpec>,
    env: &Vec<(String, String)>,
) -> (r: Result<(), CnfgError>)
    requires
        value_wf(*old(root)),
    ensures
        match r {
            Ok(_) => apply_env_model(old(root)@, specs@, pair_views(env@)) == Result::<
                ValueModel,
                Seq<char>,
            >::Ok(final(root)@) && value_wf(*final(root)),
            // On failure the overlay is fail-fast but not all-or-nothing:
            // the earlier fields' insertions remain, and the failing field
            // is named in the message.
            Err(e) => e matches CnfgError::Env(m) && apply_env_model(
                old(root)@,
                specs@,
                pair_views(env@),
            ) == Result::<ValueModel, Seq<char>>::Err(m@) && value_wf(*final(root)) && exists|
                i: int,
            |
                #![auto]
                0 <= i < specs@.len() && apply_env_model(
                    old(root)@,
                    specs@.take(i),
                    pair_views(env@),
                ) == Result::<ValueModel, Seq<char>>::Ok(final(root)@) && (specs@[i].env matches
            Some(nm) && env_lookup(pair_views(env@), nm@) matches Some(raw) && literal_model(
                raw,
                specs@[i].kind,
            ) matches Err(pm) && m@ == nm@ + seq![':', ' '] + pm),
        },
{
    proof {
        reveal_strlit(": ");
    }
    let ghost env_v = pair_views(env@);
    let mut i: usize = 0;
    let n = specs.len();
    proof {
        assert(specs@.skip(0) =~= specs@);
        assert(specs@.take(0) =~= Seq::<FieldSpec>::empty());
    }
    while i < n
        invariant
            n == specs@.len(),
            i <= n,
            value_wf(*root),
            apply_env_model(old(root)@, specs@, env_v) == apply_env_model(
                root@,
                specs@.skip(i as int),
                env_v,
            ),
            apply_env_model(old(root)@, specs@.take(i as int), env_v) == Result::<
                ValueModel,
                Seq<char>,
            >::Ok(root@),
        decreases n - i,
    {
        proof {
            assert(specs@.skip(i as int)[0] == specs@[i as int]);
            assert(specs@.skip(i as int).skip(1) =~= specs@.skip(i as int + 1));
            assert(specs@.take(i as int + 1) =~= specs@.take(i as int).push(specs@[i as int]));
            lemma_apply_env_snoc(old(root)@, specs@.take(i as int), specs@[i as int], env_v);
            assert(seq![specs@[i as int]][0] == specs@[i as int]);
            assert(seq![specs@[i as int]].skip(1) =~= Seq::<FieldSpec>::empty());
        }
        let ghost prev = *root;
        let sp = &specs[i];
        match &sp.env {
            Some(name) => {
                match env_get(env, name.as_str()) {
                    Some(raw) => {
                        match parse_literal(raw.as_str(), sp.kind) {
                            Ok(v) => {
                                let ghost vg = v;
                                let segs = sp.segments();
                                insert_path(root, &segs, v);
                                proof {
                                    assert(root@ == insert_path_model(
                                        prev@,
                                        split_on_dot(sp.path@),
                                        value_model(vg),
                                    ));
                                    assert(literal_model(raw@, sp.kind) == Result::<
                                        ValueModel,
                                        Seq<char>,
                                    >::Ok(value_model(vg)));
                                    assert(env_lookup(env_v, name@) == Option::Some(raw@));
                                }
                            },
                            Err(m) => {
                                let prefix = str_concat(name.as_str(), ": ");
                                let msg = str_concat(prefix.as_str(), m.as_str());
                                proof {
                                    assert(msg@ =~= name@ + seq![':', ' '] + m@);
                                    assert(apply_env_model(
                                        old(root)@,
                                        specs@.take(i as int),
                                        env_v,
                                    ) == Result::<ValueModel, Seq<char>>::Ok(root@));
                                    assert(specs@[i as int].env matches Some(nm) && env_lookup(
                                        env_v,
                                        nm@,
                                    ) matches Some(raw2) && literal_model(
                                        raw2,
                                        specs@[i as int].kind,
                                    ) matches Err(pm) && msg@ == nm@ + seq![':', ' '] + pm);
                                }
                                return Err(CnfgError::Env(msg));
                            },
                        }
                    },
                    None => {},
                }
            },
            None => {},
        }
        proof {
            assert(apply_env_model(root@, Seq::<FieldSpec>::empty(), env_v) == Result::<
                ValueModel,
                Seq<char>,
            >::Ok(root@));
            assert(apply_env_model(prev@, seq![specs@[i as int]], env_v) == Result::<
                ValueModel,
                Seq<char>,
            >::Ok(root@));
        }
        i = i + 1;
    }
    proof {
        assert(specs@.skip(n as int) =~= Seq::<FieldSpec>::empty());
    }
    Ok(())
}

/// Appending one more field steps the environment fold at the back.
proof fn lemma_apply_env_snoc(
    acc: ValueModel,
    specs: Seq<FieldSpec>,
    x: FieldSpec,
    env: Seq<(Seq<char>, Seq<char>)>,
)
    ensures
        apply_env_model(acc, specs.push(x), env) == (match apply_env_model(acc, specs, env) {
            Result::Ok(t) => apply_env_model(t, seq![x], env),
            Result::Err(m) => Result::<ValueModel, Seq<char>>::Err(m),
        }),
    decreases specs.len(),
{
    if specs.len() == 0 {
        assert(specs.push(x) =~= seq![x]);
        assert(specs =~= Seq::<FieldSpec>::empty());
    } else {
        assert(specs.push(x)[0] == specs[0]);
        assert(specs.push(x).skip(1) =~= specs.skip(1).push(x));
        match specs[0].env {
            Option::Some(name) => {
                match env_lookup(env, name@) {
                    Option::Some(raw) => {
                        match literal_model(raw, specs[0].kind) {
                            Result::Ok(v) => {
                                lemma_apply_env_snoc(
                                    insert_path_model(acc, split_on_dot(specs[0].path@), v),
                                    specs.skip(1),
                                    x,
                                    env,
                                );
                            },
                            Result::Err(_) => {},
                        }
                    },
                    Option::None => {
                        lemma_apply_env_snoc(acc, specs.skip(1), x, env);
                    },
                }
            },
            Option::None => {
                lemma_apply_env_snoc(acc, specs.skip(1), x, env);
            },
        }
    }
}

/// Outcome of scanning the command line.
#[derive(Debug)]
pub enum CliOutcome {
    /// The overlay tree assembled from the flags.
    Values(ValueTree),
    /// Help was requested; the scan stopped without error.
    Help,
}

/// Ghost outcome of the command-line scan.
pub enum CliModelOutcome {
    Values(ValueModel),
    Help,
    Fail(Seq<char>),
}

/// The model of an empty object.
pub open spec fn empty_object_model() -> ValueModel {
    ValueModel::Object(Map::<Seq<char>, ValueModel>::empty())
}

/// A token with every repeated leading `--` removed.
pub open spec fn strip_dashes(a: Seq<char>) -> Seq<char>
    decreases a.len(),
{
    if a.len() >= 2 && a[0] == '-' && a[1] == '-' {
        strip_dashes(a.skip(2))
    } else {
        a
    }
}

/// The first CLI spec whose flag matches exactly.
pub open spec fn find_flag(specs: Seq<CliSpec>, flag: Seq<char>) -> Option<CliSpec>
    decreases specs.len(),
{
    if specs.len() == 0 {
        Option::None
    } else if specs[0].flag@ == flag {
        Option::Some(specs[0])
    } else {
        find_flag(specs.skip(1), flag)
    }
}

/// What scanning the argument list produces.  `--help`/`-h` at any position
/// stops the scan with the help outcome; a token without leading dashes is
/// an unexpected positional; flags of every kind but Bool consume the next
/// token as their value, and Bool flags never consume one.
pub open spec fn cli_model(
    args: Seq<Seq<char>>,
    specs: Seq<CliSpec>,
    acc: ValueModel,
) -> CliModelOutcome
    decreases args.len(),
{
    if args.len() == 0 {
        CliModelOutcome::Values(acc)
    } else {
        let a = args[0];
        if a == "--help"@ || a == "-h"@ {
            CliModelOutcome::Help
        } else if !(a.len() >= 2 && a[0] == '-' && a[1] == '-') {
            CliModelOutcome::Fail("unexpected positional argument `"@ + a + "`"@)
        } else {
            let flag = strip_dashes(a);
            match find_flag(specs, flag) {
                Option::None => CliModelOutcome::Fail("unknown flag --"@ + flag),
                Option::Some(sp) => if sp.takes_value {
                    if args.len() < 2 {
                        CliModelOutcome::Fail("missing value for --"@ + flag)
                    } else {
                        match literal_model(args[1], sp.kind) {
                            Result::Ok(v) => cli_model(
                                args.skip(2),
                                specs,
                                insert_path_model(acc, split_on_dot(sp.path@), v),
                            ),
                            Result::Err(m) => CliModelOutcome::Fail(
                                "--"@ + flag + ": "@ + m,
                            ),
                        }
                    }
                } else {
                    cli_model(
                        args.skip(1),
                        specs,
                        insert_path_model(
                            acc,
                            split_on_dot(sp.path@),
                            ValueModel::Bool(true),
                        ),
                    )
                },
            }
        }
    }
}

/// Strip every repeated leading `--` from a token.
#[verifier::loop_isolation(false)]
fn strip_dashes_str<'a>(a: &'a str) -> (r: &'a str)
    ensures
        r@ == strip_dashes(a@),
{
    let n = a.unicode_len();
    let mut k: usize = 0;
    let mut scanning = true;
    proof {
        assert(a@.skip(0) =~= a@);
    }
    while scanning
        invariant
            k <= n,
            n == a@.len(),
            strip_dashes(a@) == strip_dashes(a@.skip(k as int)),
            !scanning ==> !(n - k >= 2 && a@[k as int] == '-' && a@[k as int + 1] == '-'),
        decreases n - k, (if scanning {
            1int
        } else {
            0int
        }),
    {
        if n - k >= 2 {
            let c0 = a.get_char(k);
            let c1 = a.get_char(k + 1);
            if c0 == '-' && c1 == '-' {
                proof {
                    assert(a@.skip(k as int)[0] == a@[k as int]);
                    assert(a@.skip(k as int)[1] == a@[k as int + 1]);
                    assert(a@.skip(k as int).skip(2) =~= a@.skip(k as int + 2));
                }
                k = k + 2;
            } else {
                scanning = false;
            }
        } else {
            scanning = false;
        }
    }
    let r = a.substring_char(k, n);
    proof {
        assert(r@ =~= a@.skip(k as int));
        if a@.skip(k as int).len() >= 2 {
            assert(a@.skip(k as int)[0] == a@[k as int]);
            assert(a@.skip(k as int)[1] == a@[k as int + 1]);
        }
        assert(strip_dashes(a@.skip(k as int)) == a@.skip(k as int));
    }
    r
}

/// Find the CLI spec for a flag name.
fn find_cli_spec<'a>(specs: &'a Vec<CliSpec>, flag: &str) -> (r: Option<&'a CliSpec>)
    ensures
        match r {
            Some(sp) => find_flag(specs@, flag@) == Option::Some(*sp),
            None => find_flag(specs@, flag@) is None,
        },
{
    let mut i: usize = 0;
    let n = specs.len();
    proof {
        assert(specs@.skip(0) =~= specs@);
    }
    while i < n
        invariant
            i <= n,
            n == specs@.len(),
            find_flag(specs@, flag@) == find_flag(specs@.skip(i as int), flag@),
        decreases n - i,
    {
        proof {
            assert(specs@.skip(i as int)[0] == specs@[i as int]);
            assert(specs@.skip(i as int).skip(1) =~= specs@.skip(i as int + 1));
        }
        if string_eq_str(&specs[i].flag, flag) {
            return Some(&specs[i]);
        }
        i = i + 1;
    }
    None
}

/// Scan the argument list left to right into a separate overlay tree.
///
/// `--help`/`-h` anywhere stops the scan with the help outcome; unknown
/// flags, missing values and positional arguments are hard errors; Bool
/// flags set `true` and never consume a following token.
#[verifier::loop_isolation(false)]
pub fn parse_cli(args: &Vec<String>, specs: &Vec<CliSpec>) -> (r: Result<CliOutcome, CnfgError>)
    ensures
        match r {
            Ok(out) => match out {
                CliOutcome::Values(v) => cli_model(args.deep_view(), specs@, empty_object_model())
                    == CliModelOutcome::Values(value_model(v)) && value_wf(v),
                CliOutcome::Help => cli_model(args.deep_view(), specs@, empty_object_model())
                    is Help,
            },
            Err(e) => e matches CnfgError::Cli(m) && cli_model(
                args.deep_view(),
                specs@,
                empty_object_model(),
            ) == CliModelOutcome::Fail(m@),
        },
{
    let empty_entries: Vec<(String, ValueTree)> = Vec::new();
    let ghost emptyg = empty_entries;
    let mut acc = ValueTree::Object(empty_entries);
    let ghost argsv = args.deep_view();
    proof {
        lemma_value_model_object(emptyg);
        assert forall|k: Seq<char>| !obj_dom(emptyg@).contains(k) by {
            if obj_dom(emptyg@).contains(k) {
                let w = choose|w: int| 0 <= w < emptyg@.len() && emptyg@[w].0@ == k;
            }
        }
        assert(entries_map(emptyg@) =~= Map::<Seq<char>, ValueModel>::empty());
        assert(acc@ == empty_object_model());
        assert(argsv.skip(0) =~= argsv);
    }
    let mut i: usize = 0;
    let n = args.len();
    while i < n
        invariant
            i <= n,
            n == argsv.len(),
            value_wf(acc),
            cli_model(argsv, specs@, empty_object_model()) == cli_model(
                argsv.skip(i as int),
                specs@,
                acc@,
            ),
        decreases n - i,
    {
        let a = &args[i];
        proof {
            assert(argsv.skip(i as int)[0] == argsv[i as int]);
            assert(argsv[i as int] == a@);
        }
        if str_eq(a.as_str(), "--help") || str_eq(a.as_str(), "-h") {
            return Ok(CliOutcome::Help);
        }
        let an = a.as_str().unicode_len();
        let has_dashes = an >= 2 && a.as_str().get_char(0) == '-' && a.as_str().get_char(1)
            == '-';
        if !has_dashes {
            let m1 = str_concat("unexpected positional argument `", a.as_str());
            let msg = str_concat(m1.as_str(), "`");
            proof {
                assert(msg@ =~= "unexpected positional argument `"@ + a@ + "`"@);
            }
            return Err(CnfgError::Cli(msg));
        }
        let flag = strip_dashes_str(a.as_str());
        match find_cli_spec(specs, flag) {
            None => {
                let msg = str_concat("unknown flag --", flag);
                return Err(CnfgError::Cli(msg));
            },
            Some(sp) => {
                if sp.takes_value {
                    if i + 1 >= n {
                        let msg = str_concat("missing value for --", flag);
                        proof {
                            assert(argsv.skip(i as int).len() < 2);
                        }
                        return Err(CnfgError::Cli(msg));
                    }
                    let raw = &args[i + 1];
                    proof {
                        assert(argsv.skip(i as int)[1] == argsv[i as int + 1]);
                        assert(argsv[i as int + 1] == raw@);
                    }
                    match parse_literal(raw.as_str(), sp.kind) {
                        Ok(v) => {
                            let segs = sp.segments();
                            insert_path(&mut acc, &segs, v);
                            proof {
                                assert(argsv.skip(i as int).skip(2) =~= argsv.skip(
                                    i as int + 2,
                                ));
                            }
                            i = i + 2;
                        },
                        Err(m) => {
                            let m1 = str_concat("--", flag);
                            let m2 = str_concat(m1.as_str(), ": ");
                            let msg = str_concat(m2.as_str(), m.as_str());
                            proof {
                                assert(msg@ =~= "--"@ + flag@ + ": "@ + m@);
                            }
                            return Err(CnfgError::Cli(msg));
                        },
                    }
                } else {
                    let segs = sp.segments();
                    insert_path(&mut acc, &segs, ValueTree::Bool(true));
                    proof {
                        assert(argsv.skip(i as int).skip(1) =~= argsv.skip(i as int + 1));
                    }
                    i = i + 1;
                }
            },
        }
    }
    proof {
        assert(argsv.skip(n as int).len() == 0);
    }
    Ok(CliOutcome::Values(acc))
}

/// A Bool flag never consumes a following token: it sets `true` at its
/// path and the scan resumes at the very next argument, whatever that
/// argument holds.
pub proof fn lemma_bool_flag_consumes_nothing(
    args: Seq<Seq<char>>,
    specs: Seq<CliSpec>,
    acc: ValueModel,
)
    requires
        args.len() >= 1,
        args[0] != "--help"@ && args[0] != "-h"@,
        args[0].len() >= 2 && args[0][0] == '-' && args[0][1] == '-',
        find_flag(specs, strip_dashes(args[0])) matches Some(sp) && !sp.takes_value,
    ensures
        cli_model(args, specs, acc) == cli_model(
            args.skip(1),
            specs,
            insert_path_model(
                acc,
                split_on_dot(find_flag(specs, strip_dashes(args[0]))->0.path@),
                ValueModel::Bool(true),
            ),
        ),
{
}

/// The required paths that a tree does not resolve, in declaration order.
pub open spec fn missing_of(m: ValueModel, required: Seq<Seq<char>>) -> Seq<Seq<char>>
    decreases required.len(),
{
    if required.len() == 0 {
        Seq::empty()
    } else {
        (if !has_path_model(m, split_on_dot(required[0])) {
            seq![required[0]]
        } else {
            Seq::<Seq<char>>::empty()
        }) + missing_of(m, required.skip(1))
    }
}

/// The required check is complete: every required path the tree does not
/// resolve appears among the missing ones.
pub proof fn lemma_missing_of_complete(m: ValueModel, required: Seq<Seq<char>>, j: int)
    requires
        0 <= j < required.len(),
        !has_path_model(m, split_on_dot(required[j])),
    ensures
        exists|k: int|
            0 <= k < missing_of(m, required).len() && missing_of(m, required)[k] == required[j],
    decreases j,
{
    let head: Seq<Seq<char>> = if !has_path_model(m, split_on_dot(required[0])) {
        seq![required[0]]
    } else {
        Seq::<Seq<char>>::empty()
    };
    if j == 0 {
        assert(missing_of(m, required)[0] == required[0]);
    } else {
        lemma_missing_of_complete(m, required.skip(1), j - 1);
        let k = choose|k: int|
            0 <= k < missing_of(m, required.skip(1)).len() && missing_of(m, required.skip(1))[k]
                == required.skip(1)[j - 1];
        assert(missing_of(m, required)[head.len() + k] == required[j]);
    }
}

/// The required check is sound: every missing path is a required path the
/// tree does not resolve.
pub proof fn lemma_missing_of_sound(m: ValueModel, required: Seq<Seq<char>>, k: int)
    requires
        0 <= k < missing_of(m, required).len(),
    ensures
        exists|j: int|
            0 <= j < required.len() && required[j] == missing_of(m, required)[k]
                && !has_path_model(m, split_on_dot(required[j])),
    decreases required.len(),
{
    let head: Seq<Seq<char>> = if !has_path_model(m, split_on_dot(required[0])) {
        seq![required[0]]
    } else {
        Seq::<Seq<char>>::empty()
    };
    if k < head.len() {
        assert(missing_of(m, required)[0] == required[0]);
    } else {
        lemma_missing_of_sound(m, required.skip(1), k - head.len());
        let j = choose|j: int|
            0 <= j < required.skip(1).len() && required.skip(1)[j] == missing_of(
                m,
                required.skip(1),
            )[k - head.len()] && !has_path_model(m, split_on_dot(required.skip(1)[j]));
        assert(required[j + 1] == missing_of(m, required)[k]);
        assert(!has_path_model(m, split_on_dot(required[j + 1])));
    }
}

/// Check every required dotted path against the assembled tree, collecting
/// one `Missing` issue per unresolved path — never failing fast.
#[verifier::loop_isolation(false)]
pub fn check_required(value: &ValueTree, required: &Vec<String>, errs: &mut ValidationErrors)
    requires
        value_wf(*value),
    ensures
        ({
            let miss = missing_of(value@, required.deep_view());
            &&& final(errs).issues_seq().len() == old(errs).issues_seq().len() + miss.len()
            &&& forall|j: int|
                0 <= j < old(errs).issues_seq().len() ==> final(errs).issues_seq()[j] == old(
                    errs,
                ).issues_seq()[j]
            &&& forall|j: int|
                0 <= j < miss.len() ==> {
                    let it = #[trigger] final(errs).issues_seq()[old(
                        errs,
                    ).issues_seq().len() + j];
                    &&& it.field@ == miss[j]
                    &&& it.kind == IssueKind::Missing
                    &&& it.message@ == "required field missing"@
                }
        }),
{
    let ghost req = required.deep_view();
    let ghost base = old(errs).issues_seq();
    let mut i: usize = 0;
    let n = required.len();
    while i < n
        invariant
            n == req.len(),
            i <= n,
            ({
                let miss = missing_of(value@, req.take(i as int));
                &&& errs.issues_seq().len() == base.len() + miss.len()
                &&& forall|j: int|
                    0 <= j < base.len() ==> errs.issues_seq()[j] == base[j]
                &&& forall|j: int|
                    0 <= j < miss.len() ==> {
                        let it = #[trigger] errs.issues_seq()[base.len() + j];
                        &&& it.field@ == miss[j]
                        &&& it.kind == IssueKind::Missing
                        &&& it.message@ == "required field missing"@
                    }
            }),
        decreases n - i,
    {
        let ghost miss_old = missing_of(value@, req.take(i as int));
        let path = &required[i];
        if !has_path(value, path.as_str()) {
            errs.push(
                Issue {
                    field: path.clone(),
                    kind: IssueKind::Missing,
                    message: "required field missing".to_owned(),
                },
            );
        }
        i = i + 1;
        proof {
            lemma_missing_take_step(value@, req, i - 1);
        }
    }
    proof {
        assert(req.take(n as int) =~= req);
    }
}

/// Outcome of resolving the layered configuration into one tree.
#[derive(Debug)]
pub enum ResolveOutcome {
    /// The merged, required-complete tree, ready for typed binding.
    Resolved(ValueTree),
    /// Help was requested on the command line.
    Help,
}

/// Ghost outcome of the resolution pipeline.
pub enum ResolveModel {
    Resolved(ValueModel),
    Help,
    EnvFail(Seq<char>),
    CliFail(Seq<char>),
    MissingFail(Seq<Seq<char>>),
}

/// The whole resolution pipeline: defaults, then the file, then the
/// environment overlay, then the CLI overlay, then the required check.
pub open spec fn resolve_model(
    defaults: ValueModel,
    file: Option<ValueModel>,
    env: Seq<(Seq<char>, Seq<char>)>,
    fspecs: Seq<FieldSpec>,
    cspecs: Seq<CliSpec>,
    args: Seq<Seq<char>>,
    required: Seq<Seq<char>>,
) -> ResolveModel {
    let with_file = match file {
        Option::Some(f) => merge_model(defaults, f),
        Option::None => defaults,
    };
    match apply_env_model(with_file, fspecs, env) {
        Result::Err(m) => ResolveModel::EnvFail(m),
        Result::Ok(with_env) => match cli_model(args, cspecs, empty_object_model()) {
            CliModelOutcome::Help => ResolveModel::Help,
            CliModelOutcome::Fail(m) => ResolveModel::CliFail(m),
            CliModelOutcome::Values(cli) => {
                let merged = merge_model(with_env, cli);
                let miss = missing_of(merged, required);
                if miss.len() > 0 {
                    ResolveModel::MissingFail(miss)
                } else {
                    ResolveModel::Resolved(merged)
                }
            },
        },
    }
}

/// Resolve the configuration tree from its four sources and check required
/// fields, without touching the outside world: the caller supplies the
/// defaults tree, the parsed config file (if one was found), an environment
/// snapshot and the argument list.
pub fn resolve(
    defaults: ValueTree,
    file: Option<ValueTree>,
    env: &Vec<(String, String)>,
    field_specs: &Vec<FieldSpec>,
    cli_specs: &Vec<CliSpec>,
    args: &Vec<String>,
    required: &Vec<String>,
) -> (r: Result<ResolveOutcome, CnfgError>)
    requires
        value_wf(defaults),
        file matches Some(f) ==> value_wf(f),
    ensures
        ({
            let model = resolve_model(
                defaults@,
                match file {
                    Some(f) => Option::Some(f@),
                    None => Option::None,
                },
                pair_views(env@),
                field_specs@,
                cli_specs@,
                args.deep_view(),
                required.deep_view(),
            );
            match r {
                Ok(out) => match out {
                    ResolveOutcome::Resolved(v) => model == ResolveModel::Resolved(v@)
                        && value_wf(v),
                    ResolveOutcome::Help => model is Help,
                },
                Err(e) => match e {
                    CnfgError::Env(m) => model == ResolveModel::EnvFail(m@),
                    CnfgError::Cli(m) => model == ResolveModel::CliFail(m@),
                    CnfgError::Validation(errs) => model matches ResolveModel::MissingFail(miss)
                        && errs.issues_seq().len() == miss.len() && miss.len() > 0 && forall|
                        j: int,
                    |
                        0 <= j < miss.len() ==> {
                            let it = #[trigger] errs.issues_seq()[j];
                            &&& it.field@ == miss[j]
                            &&& it.kind == IssueKind::Missing
                            &&& it.message@ == "required field missing"@
                        },
                    _ => false,
                },
            }
        }),
{
    let mut acc = defaults;
    match file {
        Some(f) => merge(&mut acc, f),
        None => {},
    }
    match apply_environment(&mut acc, field_specs, env) {
        Ok(_) => {},
        Err(e) => {
            return Err(e);
        },
    }
    match parse_cli(args, cli_specs) {
        Err(e) => {
            return Err(e);
        },
        Ok(CliOutcome::Help) => {
            return Ok(ResolveOutcome::Help);
        },
        Ok(CliOutcome::Values(cli_values)) => {
            merge(&mut acc, cli_values);
        },
    }
    let mut errs = ValidationErrors::new();
    check_required(&acc, required, &mut errs);
    if errs.len() > 0 {
        proof {
            let miss = missing_of(acc@, required.deep_view());
            assert forall|j: int| 0 <= j < miss.len() implies {
                let it = #[trigger] errs.issues_seq()[j];
                &&& it.field@ == miss[j]
                &&& it.kind == IssueKind::Missing
                &&& it.message@ == "required field missing"@
            } by {
                assert(errs.issues_seq()[0 + j].field@ == miss[j]);
                assert(errs.issues_seq()[0 + j].kind == IssueKind::Missing);
                assert(errs.issues_seq()[0 + j].message@ == "required field missing"@);
            }
        }
        return Err(CnfgError::Validation(errs));
    }
    Ok(ResolveOutcome::Resolved(acc))
}

/// A leading `--help` or `-h` always yields the help outcome, whatever the
/// schema holds and whatever else the command line holds.
pub proof fn lemma_help_flag(args: Seq<Seq<char>>, specs: Seq<CliSpec>, acc: ValueModel)
    requires
        args.len() >= 1,
        args[0] == "--help"@ || args[0] == "-h"@,
    ensures
        cli_model(args, specs, acc) is Help,
{
}

/// Through the whole pipeline: when the environment overlay succeeds, a
/// leading `--help` or `-h` yields the help outcome — never a validation
/// error, however many required fields are missing.
pub proof fn lemma_help_resolves(
    defaults: ValueModel,
    file: Option<ValueModel>,
    env: Seq<(Seq<char>, Seq<char>)>,
    fspecs: Seq<FieldSpec>,
    cspecs: Seq<CliSpec>,
    args: Seq<Seq<char>>,
    required: Seq<Seq<char>>,
)
    requires
        args.len() >= 1,
        args[0] == "--help"@ || args[0] == "-h"@,
        ({
            let with_file = match file {
                Option::Some(f) => merge_model(defaults, f),
                Option::None => defaults,
            };
            apply_env_model(with_file, fspecs, env) is Ok
        }),
    ensures
        resolve_model(defaults, file, env, fspecs, cspecs, args, required) is Help,
{
    lemma_help_flag(args, cspecs, empty_object_model());
}

/// The environment overlay never binds a path diverging from `p`, so the
/// leaf at `p` survives it.
pub proof fn lemma_env_preserves_diverging(
    acc: ValueModel,
    specs: Seq<FieldSpec>,
    env: Seq<(Seq<char>, Seq<char>)>,
    p: Seq<Seq<char>>,
)
    requires
        apply_env_model(acc, specs, env) is Ok,
        forall|j: int|
            0 <= j < specs.len() ==> ((#[trigger] specs[j]).env matches Some(nm) && env_lookup(
                env,
                nm@,
            ) is Some ==> crate::merge::paths_diverge(p, split_on_dot(specs[j].path@))),
    ensures
        leaf_at(apply_env_model(acc, specs, env)->Ok_0, p) == leaf_at(acc, p),
    decreases specs.len(),
{
    if specs.len() > 0 {
        let sp = specs[0];
        assert forall|j: int|
            0 <= j < specs.skip(1).len() && ((#[trigger] specs.skip(1)[j]).env matches Some(nm)
                && env_lookup(env, nm@) is Some) implies crate::merge::paths_diverge(
            p,
            split_on_dot(specs.skip(1)[j].path@),
        ) by {
            assert(specs.skip(1)[j] == specs[j + 1]);
        }
        match sp.env {
            Option::Some(name) => {
                match env_lookup(env, name@) {
                    Option::Some(raw) => {
                        match literal_model(raw, sp.kind) {
                            Result::Ok(v) => {
                                let segs = split_on_dot(sp.path@);
                                assert(crate::merge::paths_diverge(p, segs));
                                assert(segs.len() >= 1) by {
                                    let w = choose|i: int|
                                        0 <= i < p.len() && i < segs.len() && p[i] != segs[i];
                                }
                                crate::merge::lemma_insert_preserves_diverging(
                                    acc,
                                    segs,
                                    v,
                                    p,
                                );
                                lemma_env_preserves_diverging(
                                    insert_path_model(acc, segs, v),
                                    specs.skip(1),
                                    env,
                                    p,
                                );
                            },
                            Result::Err(_) => {},
                        }
                    },
                    Option::None => {
                        lemma_env_preserves_diverging(acc, specs.skip(1), env, p);
                    },
                }
            },
            Option::None => {
                lemma_env_preserves_diverging(acc, specs.skip(1), env, p);
            },
        }
    }
}

/// Precedence, highest layer: when the CLI overlay binds a leaf at `p`,
/// the resolved tree holds the CLI value there, whatever the defaults,
/// the file and the environment put there.
pub proof fn lemma_precedence_cli(
    defaults: ValueModel,
    file: Option<ValueModel>,
    env: Seq<(Seq<char>, Seq<char>)>,
    fspecs: Seq<FieldSpec>,
    cspecs: Seq<CliSpec>,
    args: Seq<Seq<char>>,
    required: Seq<Seq<char>>,
    p: Seq<Seq<char>>,
)
    requires
        resolve_model(defaults, file, env, fspecs, cspecs, args, required) is Resolved,
        cli_model(args, cspecs, empty_object_model()) matches CliModelOutcome::Values(cli)
            && leaf_at(cli, p) is Some,
    ensures
        ({
            let cli = cli_model(args, cspecs, empty_object_model())->Values_0;
            leaf_at(
                resolve_model(defaults, file, env, fspecs, cspecs, args, required)->Resolved_0,
                p,
            ) == leaf_at(cli, p)
        }),
{
    let with_file = match file {
        Option::Some(f) => merge_model(defaults, f),
        Option::None => defaults,
    };
    let with_env = apply_env_model(with_file, fspecs, env)->Ok_0;
    let cli = cli_model(args, cspecs, empty_object_model())->Values_0;
    crate::merge::lemma_merge_overlay_leaf(with_env, cli, p);
}

/// Precedence, middle layer: when the environment and the CLI leave `p`
/// alone, a leaf the file binds at `p` is what the resolved tree holds.
pub proof fn lemma_precedence_file(
    defaults: ValueModel,
    file: Option<ValueModel>,
    env: Seq<(Seq<char>, Seq<char>)>,
    fspecs: Seq<FieldSpec>,
    cspecs: Seq<CliSpec>,
    args: Seq<Seq<char>>,
    required: Seq<Seq<char>>,
    p: Seq<Seq<char>>,
)
    requires
        resolve_model(defaults, file, env, fspecs, cspecs, args, required) is Resolved,
        file matches Some(fv) && leaf_at(fv, p) is Some,
        forall|j: int|
            0 <= j < fspecs.len() ==> ((#[trigger] fspecs[j]).env matches Some(nm) && env_lookup(
                env,
                nm@,
            ) is Some ==> crate::merge::paths_diverge(p, split_on_dot(fspecs[j].path@))),
        cli_model(args, cspecs, empty_object_model()) matches CliModelOutcome::Values(cli)
            && crate::merge::absent_at(cli, p),
    ensures
        leaf_at(
            resolve_model(defaults, file, env, fspecs, cspecs, args, required)->Resolved_0,
            p,
        ) == leaf_at(file->0, p),
{
    let fv = file->0;
    let with_file = merge_model(defaults, fv);
    crate::merge::lemma_merge_overlay_leaf(defaults, fv, p);
    lemma_env_preserves_diverging(with_file, fspecs, env, p);
    let with_env = apply_env_model(with_file, fspecs, env)->Ok_0;
    let cli = cli_model(args, cspecs, empty_object_model())->Values_0;
    crate::merge::lemma_merge_absent_leaf(with_env, cli, p);
}

/// Precedence, lowest layer: when no other source touches `p`, the default
/// leaf at `p` is what the resolved tree holds.
pub proof fn lemma_precedence_default(
    defaults: ValueModel,
    file: Option<ValueModel>,
    env: Seq<(Seq<char>, Seq<char>)>,
    fspecs: Seq<FieldSpec>,
    cspecs: Seq<CliSpec>,
    args: Seq<Seq<char>>,
    required: Seq<Seq<char>>,
    p: Seq<Seq<char>>,
)
    requires
        resolve_model(defaults, file, env, fspecs, cspecs, args, required) is Resolved,
        leaf_at(defaults, p) is Some,
        file matches Some(fv) ==> crate::merge::absent_at(fv, p),
        forall|j: int|
            0 <= j < fspecs.len() ==> ((#[trigger] fspecs[j]).env matches Some(nm) && env_lookup(
                env,
                nm@,
            ) is Some ==> crate::merge::paths_diverge(p, split_on_dot(fspecs[j].path@))),
        cli_model(args, cspecs, empty_object_model()) matches CliModelOutcome::Values(cli)
            && crate::merge::absent_at(cli, p),
    ensures
        leaf_at(
            resolve_model(defaults, file, env, fspecs, cspecs, args, required)->Resolved_0,
            p,
        ) == leaf_at(defaults, p),
{
    let with_file = match file {
        Option::Some(f) => merge_model(defaults, f),
        Option::None => defaults,
    };
    match file {
        Option::Some(fv) => {
            crate::merge::lemma_merge_absent_leaf(defaults, fv, p);
        },
        Option::None => {},
    }
    lemma_env_preserves_diverging(with_file, fspecs, env, p);
    let with_env = apply_env_model(with_file, fspecs, env)->Ok_0;
    let cli = cli_model(args, cspecs, empty_object_model())->Values_0;
    crate::merge::lemma_merge_absent_leaf(with_env, cli, p);
}

/// A run of blanks.
pub open spec fn spaces(n: int) -> Seq<char> {
    Seq::new(
        if n > 0 {
            n as nat
        } else {
            0
        },
        |i: int| ' ',
    )
}

/// A flag rendering padded with blanks to the help column width.
pub open spec fn pad24(s: Seq<char>) -> Seq<char> {
    s + spaces(24 - s.len())
}

/// The annotation column of one option line: the field's doc text, its
/// default literal and its required mark, blank-separated.
pub open spec fn detail_model(sp: CliSpec) -> Seq<char> {
    let d0 = match sp.doc {
        Option::Some(d) => format_doc_model(d@),
        Option::None => Seq::<char>::empty(),
    };
    let d1 = match sp.default {
        Option::Some(def) => (if d0.len() > 0 {
            d0 + seq![' ']
        } else {
            d0
        }) + "[default: "@ + def@ + "]"@,
        Option::None => d0,
    };
    if sp.required {
        (if d1.len() > 0 {
            d1 + seq![' ']
        } else {
            d1
        }) + "(required)"@
    } else {
        d1
    }
}

/// One line of the options list.
pub open spec fn option_line_model(sp: CliSpec) -> Seq<char> {
    let flag = format_flag_model(sp.flag@, sp.takes_value);
    let dt = trim_spec(detail_model(sp));
    if dt.len() == 0 {
        "  "@ + flag
    } else {
        "  "@ + pad24(flag) + seq![' '] + dt
    }
}

/// The lines of the options list, in declaration order.
pub open spec fn option_lines_model(specs: Seq<CliSpec>) -> Seq<Seq<char>>
    decreases specs.len(),
{
    if specs.len() == 0 {
        Seq::empty()
    } else {
        seq![option_line_model(specs[0])] + option_lines_model(specs.skip(1))
    }
}

/// All the lines of the help text.
pub open spec fn help_lines_model(doc: Option<Seq<char>>, specs: Seq<CliSpec>) -> Seq<
    Seq<char>,
> {
    (match doc {
        Option::Some(d) => seq![format_doc_model(d), Seq::<char>::empty()],
        Option::None => Seq::<Seq<char>>::empty(),
    }) + seq!["Usage:"@, "  <binary> [OPTIONS]"@] + (if specs.len() > 0 {
        seq![Seq::<char>::empty(), "Options:"@] + option_lines_model(specs)
    } else {
        Seq::<Seq<char>>::empty()
    })
}

/// The help text: the lines joined with newlines, trailing blanks dropped.
pub open spec fn help_model(doc: Option<Seq<char>>, specs: Seq<CliSpec>) -> Seq<char> {
    trim_back(join_with(help_lines_model(doc, specs), '\n'))
}

/// Appending a spec extends the option lines at the back.
proof fn lemma_option_lines_push(specs: Seq<CliSpec>, x: CliSpec)
    ensures
        option_lines_model(specs.push(x)) == option_lines_model(specs).push(
            option_line_model(x),
        ),
    decreases specs.len(),
{
    if specs.len() == 0 {
        let e = Seq::<CliSpec>::empty();
        assert(specs.push(x)[0] == x);
        assert(specs.push(x).skip(1) =~= e);
        assert(specs =~= e);
        assert(option_lines_model(e) == Seq::<Seq<char>>::empty());
        assert(option_lines_model(specs.push(x)) == seq![option_line_model(x)]
            + option_lines_model(specs.push(x).skip(1)));
        assert(option_lines_model(specs.push(x)) =~= option_lines_model(specs).push(
            option_line_model(x),
        ));
    } else {
        assert(specs.push(x).skip(1) =~= specs.skip(1).push(x));
        lemma_option_lines_push(specs.skip(1), x);
        assert(specs.push(x)[0] == specs[0]);
        assert(option_lines_model(specs.push(x)) =~= option_lines_model(specs).push(
            option_line_model(x),
        ));
    }
}

/// Pad a flag rendering with blanks to the help column width.
#[verifier::loop_isolation(false)]
fn pad_to_24(s: String) -> (r: String)
    ensures
        r@ == pad24(s@),
{
    proof {
        reveal_strlit(" ");
    }
    let mut out = s;
    let ghost s0 = out@;
    while out.as_str().unicode_len() < 24
        invariant
            out@.len() >= s0.len(),
            out@.len() <= 24 || out@.len() == s0.len(),
            out@ =~= s0 + spaces(out@.len() - s0.len()),
        decreases 24 - out@.len(),
    {
        out.append(" ");
        proof {
            assert(out@ =~= s0 + spaces(out@.len() - s0.len()));
        }
    }
    proof {
        assert(out@ =~= pad24(s0));
    }
    out
}

/// Join lines with newlines.
#[verifier::loop_isolation(false)]
fn join_newlines(ls: &Vec<String>) -> (r: String)
    ensures
        r@ == join_with(ls.deep_view(), '\n'),
{
    proof {
        reveal_strlit("\n");
    }
    let mut out = String::new();
    let ghost lv = ls.deep_view();
    let mut i: usize = 0;
    let n = ls.len();
    proof {
        assert(lv.take(0) =~= Seq::<Seq<char>>::empty());
    }
    while i < n
        invariant
            i <= n,
            n == lv.len(),
            ls.deep_view() == lv,
            out@ == join_with(lv.take(i as int), '\n'),
        decreases n - i,
    {
        proof {
            assert(lv.take(i as int + 1) =~= lv.take(i as int).push(lv[i as int]));
            lemma_join_push(lv.take(i as int), lv[i as int], '\n');
            assert(lv[i as int] == ls[i as int]@);
        }
        if i > 0 {
            out.append("\n");
        }
        out.append(ls[i].as_str());
        proof {
            if i == 0 {
                assert(lv.take(0).len() == 0);
                assert(out@ =~= join_with(lv.take(1), '\n'));
            } else {
                assert(out@ =~= join_with(lv.take(i as int + 1), '\n'));
            }
        }
        i = i + 1;
    }
    proof {
        assert(lv.take(n as int) =~= lv);
    }
    out
}

/// Render CLI help: the schema's doc text, a usage header, and one line per
/// flag with its doc, default and required annotations, in declaration
/// order.
#[verifier::loop_isolation(false)]
#[verifier::rlimit(80)]
pub fn render_help(doc: Option<&str>, specs: &Vec<CliSpec>) -> (r: String)
    ensures
        r@ == help_model(
            match doc {
                Some(d) => Option::Some(d@),
                None => Option::None,
            },
            specs@,
        ),
{
    proof {
        reveal_strlit(" ");
    }
    let ghost docv: Option<Seq<char>> = match doc {
        Some(d) => Option::Some(d@),
        None => Option::None,
    };
    let mut lines: Vec<String> = Vec::new();
    match doc {
        Some(d) => {
            match format_doc(Some(d)) {
                Some(text) => {
                    lines.push(text);
                    lines.push(String::new());
                },
                None => {
                    proof {
                        assert(false);
                    }
                },
            }
        },
        None => {},
    }
    let ghost doc_lines = lines.deep_view();
    lines.push("Usage:".to_owned());
    lines.push("  <binary> [OPTIONS]".to_owned());
    let ghost head_lines = lines.deep_view();
    proof {
        assert(head_lines =~= doc_lines + seq!["Usage:"@, "  <binary> [OPTIONS]"@]);
    }
    if specs.len() > 0 {
        lines.push(String::new());
        lines.push("Options:".to_owned());
        let ghost opts_head = lines.deep_view();
        proof {
            assert(opts_head =~= head_lines + seq![Seq::<char>::empty(), "Options:"@]);
            assert(option_lines_model(specs@.take(0)) =~= Seq::<Seq<char>>::empty());
            assert(lines.deep_view() =~= opts_head + option_lines_model(specs@.take(0)));
        }
        let mut i: usize = 0;
        let n = specs.len();
        while i < n
            invariant
                i <= n,
                n == specs@.len(),
                lines.deep_view() == opts_head + option_lines_model(specs@.take(i as int)),
            decreases n - i,
        {
            let sp = &specs[i];
            let flag_r = format_flag(sp.flag.as_str(), sp.takes_value);
            let mut detail: String = match &sp.doc {
                Some(d) => {
                    match format_doc(Some(d.as_str())) {
                        Some(x) => x,
                        None => {
                            proof {
                                assert(false);
                            }
                            String::new()
                        },
                    }
                },
                None => String::new(),
            };
            match &sp.default {
                Some(def) => {
                    if detail.as_str().unicode_len() > 0 {
                        detail.append(" ");
                    }
                    detail.append("[default: ");
                    detail.append(def.as_str());
                    detail.append("]");
                },
                None => {},
            }
            proof {
                assert(detail@ =~= (match sp.default {
                    Option::Some(def) => (if (match sp.doc {
                        Option::Some(d) => format_doc_model(d@),
                        Option::None => Seq::<char>::empty(),
                    }).len() > 0 {
                        (match sp.doc {
                            Option::Some(d) => format_doc_model(d@),
                            Option::None => Seq::<char>::empty(),
                        }) + seq![' ']
                    } else {
                        match sp.doc {
                            Option::Some(d) => format_doc_model(d@),
                            Option::None => Seq::<char>::empty(),
                        }
                    }) + "[default: "@ + def@ + "]"@,
                    Option::None => match sp.doc {
                        Option::Some(d) => format_doc_model(d@),
                        Option::None => Seq::<char>::empty(),
                    },
                }));
            }
            if sp.required {
                if detail.as_str().unicode_len() > 0 {
                    detail.append(" ");
                }
                detail.append("(required)");
            }
            proof {
                assert(detail@ =~= detail_model(*sp));
            }
            let dt = trim(detail.as_str());
            let ghost before = lines.deep_view();
            if dt.as_str().unicode_len() == 0 {
                let line = str_concat("  ", flag_r.as_str());
                proof {
                    assert(line@ =~= option_line_model(*sp));
                }
                lines.push(line);
            } else {
                let padded = pad_to_24(flag_r);
                let mut line = str_concat("  ", padded.as_str());
                line.append(" ");
                line.append(dt.as_str());
                proof {
                    assert(line@ =~= option_line_model(*sp));
                }
                lines.push(line);
            }
            proof {
                assert(specs@.take(i as int + 1) =~= specs@.take(i as int).push(
                    specs@[i as int],
                ));
                lemma_option_lines_push(specs@.take(i as int), specs@[i as int]);
                assert(lines.deep_view() =~= before.push(option_line_model(*sp)));
                assert(lines.deep_view() =~= opts_head + option_lines_model(
                    specs@.take(i as int + 1),
                ));
            }
            i = i + 1;
        }
        proof {
            assert(specs@.take(n as int) =~= specs@);
            assert(lines.deep_view() =~= help_lines_model(docv, specs@));
        }
    } else {
        proof {
            assert(lines.deep_view() =~= help_lines_model(docv, specs@));
        }
    }
    let joined = join_newlines(&lines);
    let trimmed = trim_end(joined.as_str());
    trimmed
}

/// One step of walking the required list.
proof fn lemma_missing_take_step(m: ValueModel, req: Seq<Seq<char>>, i: int)
    requires
        0 <= i < req.len(),
    ensures
        missing_of(m, req.take(i + 1)) == missing_of(m, req.take(i)) + (if !has_path_model(
            m,
            split_on_dot(req[i]),
        ) {
            seq![req[i]]
        } else {
            Seq::<Seq<char>>::empty()
        }),
    decreases i,
{
    if i == 0 {
        assert(req.take(1)[0] == req[0]);
        assert(req.take(1).skip(1) =~= Seq::<Seq<char>>::empty());
        assert(missing_of(m, Seq::<Seq<char>>::empty()) =~= Seq::<Seq<char>>::empty());
        assert(req.take(0) =~= Seq::<Seq<char>>::empty());
        assert(missing_of(m, req.take(1)) =~= missing_of(m, req.take(0)) + (if !has_path_model(
            m,
            split_on_dot(req[0]),
        ) {
            seq![req[0]]
        } else {
            Seq::<Seq<char>>::empty()
        }));
    } else {
        lemma_missing_take_step(m, req.skip(1), i - 1);
        assert(req.take(i + 1)[0] == req[0]);
        assert(req.take(i + 1).skip(1) =~= req.skip(1).take(i));
        assert(req.take(i).skip(1) =~= req.skip(1).take(i - 1));
        assert(req.take(i)[0] == req[0]);
        assert(req.skip(1)[i - 1] == req[i]);
        assert(missing_of(m, req.take(i + 1)) =~= missing_of(m, req.take(i)) + (
        if !has_path_model(m, split_on_dot(req[i])) {
            seq![req[i]]
        } else {
            Seq::<Seq<char>>::empty()
        }));
    }
}

} // verus!
