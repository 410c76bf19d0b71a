use cnfg::literal::parse_literal;
use cnfg::loader::{parse_cli, resolve, CliOutcome, ResolveOutcome};
use cnfg::merge::{insert_path, merge};
use cnfg::{CliSpec, CnfgError, FieldSpec, Kind, ValueTree};

fn get<'a>(tree: &'a ValueTree, key: &str) -> &'a ValueTree {
    match tree {
        ValueTree::Object(entries) => {
            &entries.iter().find(|(k, _)| k == key).expect("key present").1
        }
        other => panic!("not an object: {other:?}"),
    }
}

fn obj(entries: Vec<(&str, ValueTree)>) -> ValueTree {
    ValueTree::Object(
        entries
            .into_iter()
            .map(|(k, v)| (k.to_string(), v))
            .collect(),
    )
}

fn port_cli_spec() -> CliSpec {
    CliSpec {
        flag: "port".to_string(),
        field: "port".to_string(),
        kind: Kind::Int,
        path: "port".to_string(),
        doc: None,
        takes_value: true,
        default: Some("8080".to_string()),
        required: false,
    }
}

fn verbose_cli_spec() -> CliSpec {
    CliSpec {
        flag: "verbose".to_string(),
        field: "verbose".to_string(),
        kind: Kind::Bool,
        path: "verbose".to_string(),
        doc: None,
        takes_value: false,
        default: None,
        required: false,
    }
}

fn host_field_spec() -> FieldSpec {
    FieldSpec {
        name: "host".to_string(),
        env: Some("DB_HOST".to_string()),
        path: "host".to_string(),
        doc: None,
        kind: Kind::String,
        default: None,
        required: true,
    }
}

#[test]
fn merge_is_idempotent_and_overlay_wins() {
    let overlay = obj(vec![
        ("port", ValueTree::Int(9090)),
        ("nested", obj(vec![("inner", ValueTree::Bool(true))])),
    ]);
    let overlay_again = obj(vec![
        ("port", ValueTree::Int(9090)),
        ("nested", obj(vec![("inner", ValueTree::Bool(true))])),
    ]);
    let mut once = obj(vec![
        ("port", ValueTree::Int(8080)),
        ("name", ValueTree::Str("base".to_string())),
        ("nested", obj(vec![("other", ValueTree::Int(1))])),
    ]);
    merge(&mut once, overlay);
    assert_eq!(get(&once, "port"), &ValueTree::Int(9090));
    assert_eq!(get(&once, "name"), &ValueTree::Str("base".to_string()));
    assert_eq!(get(get(&once, "nested"), "inner"), &ValueTree::Bool(true));
    assert_eq!(get(get(&once, "nested"), "other"), &ValueTree::Int(1));

    let snapshot = format!("{once:?}");
    merge(&mut once, overlay_again);
    assert_eq!(format!("{once:?}"), snapshot);
}

#[test]
fn scalar_overlay_replaces_object() {
    let mut base = obj(vec![("node", obj(vec![("a", ValueTree::Int(1))]))]);
    let overlay = obj(vec![("node", ValueTree::Int(7))]);
    merge(&mut base, overlay);
    assert_eq!(get(&base, "node"), &ValueTree::Int(7));
}

#[test]
fn insert_then_lookup_succeeds() {
    let mut tree = obj(vec![]);
    let path = vec!["database".to_string(), "url".to_string()];
    insert_path(
        &mut tree,
        &path,
        ValueTree::Str("postgres://example".to_string()),
    );
    assert!(cnfg::loader::has_path(&tree, "database.url"));
    assert_eq!(
        get(get(&tree, "database"), "url"),
        &ValueTree::Str("postgres://example".to_string())
    );
}

#[test]
fn insert_replaces_scalar_intermediate() {
    let mut tree = obj(vec![("a", ValueTree::Int(5))]);
    let path = vec!["a".to_string(), "b".to_string(), "c".to_string()];
    insert_path(&mut tree, &path, ValueTree::Bool(true));
    assert!(cnfg::loader::has_path(&tree, "a.b.c"));
}

#[test]
fn null_leaf_does_not_resolve() {
    let tree = obj(vec![("a", ValueTree::Null)]);
    assert!(!cnfg::loader::has_path(&tree, "a"));
    assert!(!cnfg::loader::has_path(&tree, "a.b"));
    assert!(!cnfg::loader::has_path(&tree, "missing"));
}

#[test]
fn precedence_cli_over_env_over_file_over_default() {
    let defaults = obj(vec![("port", ValueTree::Int(1))]);
    let file = obj(vec![("port", ValueTree::Int(2))]);
    let env = vec![("PORT".to_string(), "3".to_string())];
    let field_specs = vec![FieldSpec {
        name: "port".to_string(),
        env: Some("PORT".to_string()),
        path: "port".to_string(),
        doc: None,
        kind: Kind::Int,
        default: Some("1".to_string()),
        required: false,
    }];
    let cli_specs = vec![port_cli_spec()];
    let required: Vec<String> = vec![];

    // all four layers present: the CLI value wins
    let args = vec!["--port".to_string(), "4".to_string()];
    match resolve(
        obj(vec![("port", ValueTree::Int(1))]),
        Some(obj(vec![("port", ValueTree::Int(2))])),
        &env,
        &field_specs,
        &cli_specs,
        &args,
        &required,
    ) {
        Ok(ResolveOutcome::Resolved(tree)) => {
            assert_eq!(get(&tree, "port"), &ValueTree::Int(4));
        }
        other => panic!("unexpected outcome: {other:?}"),
    }

    // only default and file: the file value wins
    let no_env: Vec<(String, String)> = vec![];
    let no_args: Vec<String> = vec![];
    match resolve(
        defaults,
        Some(file),
        &no_env,
        &field_specs,
        &cli_specs,
        &no_args,
        &required,
    ) {
        Ok(ResolveOutcome::Resolved(tree)) => {
            assert_eq!(get(&tree, "port"), &ValueTree::Int(2));
        }
        other => panic!("unexpected outcome: {other:?}"),
    }

    // only the default: the default stays
    match resolve(
        obj(vec![("port", ValueTree::Int(1))]),
        None,
        &no_env,
        &field_specs,
        &cli_specs,
        &no_args,
        &required,
    ) {
        Ok(ResolveOutcome::Resolved(tree)) => {
            assert_eq!(get(&tree, "port"), &ValueTree::Int(1));
        }
        other => panic!("unexpected outcome: {other:?}"),
    }
}

#[test]
fn bool_flags_never_consume_a_token() {
    let specs = vec![verbose_cli_spec()];
    let args = vec!["--verbose".to_string(), "config.toml".to_string()];
    match parse_cli(&args, &specs) {
        Err(CnfgError::Cli(msg)) => {
            assert_eq!(msg, "unexpected positional argument `config.toml`");
        }
        other => panic!("unexpected outcome: {other:?}"),
    }
}

#[test]
fn cli_errors_are_reported() {
    let specs = vec![port_cli_spec()];
    match parse_cli(&vec!["--nope".to_string()], &specs) {
        Err(CnfgError::Cli(msg)) => assert_eq!(msg, "unknown flag --nope"),
        other => panic!("unexpected outcome: {other:?}"),
    }
    match parse_cli(&vec!["--port".to_string()], &specs) {
        Err(CnfgError::Cli(msg)) => assert_eq!(msg, "missing value for --port"),
        other => panic!("unexpected outcome: {other:?}"),
    }
    match parse_cli(&vec!["--port".to_string(), "xyz".to_string()], &specs) {
        Err(CnfgError::Cli(msg)) => assert_eq!(msg, "--port: expected an integer"),
        other => panic!("unexpected outcome: {other:?}"),
    }
}

#[test]
fn end_to_end_env_and_cli() {
    let defaults = obj(vec![("port", ValueTree::Int(8080))]);
    let field_specs = vec![host_field_spec()];
    let cli_specs = vec![port_cli_spec()];
    let required = vec!["host".to_string()];
    let env = vec![("DB_HOST".to_string(), "db.local".to_string())];
    let args = vec!["--port".to_string(), "9090".to_string()];
    match resolve(
        defaults,
        None,
        &env,
        &field_specs,
        &cli_specs,
        &args,
        &required,
    ) {
        Ok(ResolveOutcome::Resolved(tree)) => {
            assert_eq!(get(&tree, "host"), &ValueTree::Str("db.local".to_string()));
            assert_eq!(get(&tree, "port"), &ValueTree::Int(9090));
        }
        other => panic!("unexpected outcome: {other:?}"),
    }

    // omitting the environment variable yields a Missing issue for `host`
    let no_env: Vec<(String, String)> = vec![];
    match resolve(
        obj(vec![("port", ValueTree::Int(8080))]),
        None,
        &no_env,
        &field_specs,
        &cli_specs,
        &args,
        &required,
    ) {
        Err(CnfgError::Validation(errors)) => {
            assert_eq!(errors.len(), 1);
            let issue = &errors.iter()[0];
            assert_eq!(issue.field, "host");
            assert!(matches!(issue.kind, cnfg::IssueKind::Missing));
            assert_eq!(issue.message, "required field missing");
        }
        other => panic!("unexpected outcome: {other:?}"),
    }
}

#[test]
fn help_short_circuits_missing_required_fields() {
    let defaults = obj(vec![]);
    let field_specs = vec![host_field_spec()];
    let cli_specs = vec![port_cli_spec()];
    let required = vec!["host".to_string()];
    let env: Vec<(String, String)> = vec![];
    for flag in ["--help", "-h"] {
        let args = vec![flag.to_string()];
        match resolve(
            obj(vec![]),
            None,
            &env,
            &field_specs,
            &cli_specs,
            &args,
            &required,
        ) {
            Ok(ResolveOutcome::Help) => {}
            other => panic!("unexpected outcome: {other:?}"),
        }
    }
    // even with other tokens after it
    let args = vec!["--help".to_string(), "whatever".to_string()];
    assert!(matches!(
        resolve(defaults, None, &env, &field_specs, &cli_specs, &args, &required),
        Ok(ResolveOutcome::Help)
    ));
}

#[test]
fn env_parse_errors_name_the_variable() {
    let defaults = obj(vec![]);
    let field_specs = vec![FieldSpec {
        name: "port".to_string(),
        env: Some("PORT".to_string()),
        path: "port".to_string(),
        doc: None,
        kind: Kind::Int,
        default: None,
        required: false,
    }];
    let cli_specs: Vec<CliSpec> = vec![];
    let args: Vec<String> = vec![];
    let required: Vec<String> = vec![];
    let env = vec![("PORT".to_string(), "later".to_string())];
    match resolve(
        defaults,
        None,
        &env,
        &field_specs,
        &cli_specs,
        &args,
        &required,
    ) {
        Err(CnfgError::Env(msg)) => assert_eq!(msg, "PORT: expected an integer"),
        other => panic!("unexpected outcome: {other:?}"),
    }
}

#[test]
fn env_errors_keep_earlier_insertions() {
    let mut tree = obj(vec![]);
    let field_specs = vec![
        FieldSpec {
            name: "host".to_string(),
            env: Some("HOST".to_string()),
            path: "host".to_string(),
            doc: None,
            kind: Kind::String,
            default: None,
            required: false,
        },
        FieldSpec {
            name: "port".to_string(),
            env: Some("PORT".to_string()),
            path: "port".to_string(),
            doc: None,
            kind: Kind::Int,
            default: None,
            required: false,
        },
    ];
    let env = vec![
        ("HOST".to_string(), "db.local".to_string()),
        ("PORT".to_string(), "not-a-number".to_string()),
    ];
    match cnfg::loader::apply_environment(&mut tree, &field_specs, &env) {
        Err(CnfgError::Env(msg)) => assert_eq!(msg, "PORT: expected an integer"),
        other => panic!("unexpected outcome: {other:?}"),
    }
    // the overlay is fail-fast, not all-or-nothing: the first field stays
    assert_eq!(get(&tree, "host"), &ValueTree::Str("db.local".to_string()));
    assert!(!cnfg::loader::has_path(&tree, "port"));
}

#[test]
fn env_overlays_apply_in_declaration_order() {
    let defaults = obj(vec![]);
    let mk = |env_name: &str| FieldSpec {
        name: "port".to_string(),
        env: Some(env_name.to_string()),
        path: "port".to_string(),
        doc: None,
        kind: Kind::Int,
        default: None,
        required: false,
    };
    let field_specs = vec![mk("PORT_A"), mk("PORT_B")];
    let env = vec![
        ("PORT_A".to_string(), "1".to_string()),
        ("PORT_B".to_string(), "2".to_string()),
    ];
    let cli_specs: Vec<CliSpec> = vec![];
    let args: Vec<String> = vec![];
    let required: Vec<String> = vec![];
    match resolve(
        defaults,
        None,
        &env,
        &field_specs,
        &cli_specs,
        &args,
        &required,
    ) {
        Ok(ResolveOutcome::Resolved(tree)) => {
            // the later field's variable overlays the earlier one
            assert_eq!(get(&tree, "port"), &ValueTree::Int(2));
        }
        other => panic!("unexpected outcome: {other:?}"),
    }
}

#[test]
fn repeated_dashes_are_stripped_from_flags() {
    let specs = vec![port_cli_spec()];
    let args = vec!["----port".to_string(), "123".to_string()];
    match parse_cli(&args, &specs) {
        Ok(CliOutcome::Values(tree)) => {
            assert_eq!(get(&tree, "port"), &ValueTree::Int(123));
        }
        other => panic!("unexpected outcome: {other:?}"),
    }
}

#[test]
fn empty_path_segments_are_ordinary_keys() {
    let mut tree = obj(vec![]);
    let path = vec!["a".to_string(), String::new(), "b".to_string()];
    insert_path(&mut tree, &path, ValueTree::Int(1));
    assert!(cnfg::loader::has_path(&tree, "a..b"));
    assert!(!cnfg::loader::has_path(&tree, "a.b"));
}

#[test]
fn float_literals_must_denote_finite_numbers() {
    assert_eq!(
        parse_literal("inf", Kind::Float),
        Err("expected a float".to_string())
    );
    assert_eq!(
        parse_literal("NaN", Kind::Float),
        Err("expected a float".to_string())
    );
    assert_eq!(
        parse_literal("-Infinity", Kind::Float),
        Err("expected a float".to_string())
    );
    assert_eq!(
        parse_literal("2.5E-3", Kind::Float),
        Ok(ValueTree::Float("2.5E-3".to_string()))
    );
    assert_eq!(
        parse_literal(".", Kind::Float),
        Err("expected a float".to_string())
    );
    assert_eq!(
        parse_literal("1e", Kind::Float),
        Err("expected a float".to_string())
    );
    assert_eq!(
        parse_literal("+-3", Kind::Float),
        Err("expected a float".to_string())
    );
}

#[test]
fn parses_literals_by_kind() {
    assert_eq!(parse_literal("1", Kind::Bool), Ok(ValueTree::Bool(true)));
    assert_eq!(parse_literal("True", Kind::Bool), Ok(ValueTree::Bool(true)));
    assert_eq!(parse_literal("FALSE", Kind::Bool), Ok(ValueTree::Bool(false)));
    assert_eq!(
        parse_literal("yes", Kind::Bool),
        Err("expected a boolean".to_string())
    );
    assert_eq!(parse_literal("-42", Kind::Int), Ok(ValueTree::Int(-42)));
    assert_eq!(parse_literal("+7", Kind::Int), Ok(ValueTree::Int(7)));
    assert_eq!(
        parse_literal("9223372036854775807", Kind::Int),
        Ok(ValueTree::Int(i64::MAX))
    );
    assert_eq!(
        parse_literal("-9223372036854775808", Kind::Int),
        Ok(ValueTree::Int(i64::MIN))
    );
    assert_eq!(
        parse_literal("9223372036854775808", Kind::Int),
        Err("expected an integer".to_string())
    );
    assert_eq!(
        parse_literal("12a", Kind::Int),
        Err("expected an integer".to_string())
    );
    assert_eq!(
        parse_literal("", Kind::Int),
        Err("expected an integer".to_string())
    );
    assert_eq!(
        parse_literal("+", Kind::Int),
        Err("expected an integer".to_string())
    );
    assert_eq!(parse_literal("007", Kind::Int), Ok(ValueTree::Int(7)));
    assert_eq!(
        parse_literal("3.25", Kind::Float),
        Ok(ValueTree::Float("3.25".to_string()))
    );
    assert_eq!(
        parse_literal("-1e10", Kind::Float),
        Ok(ValueTree::Float("-1e10".to_string()))
    );
    assert_eq!(
        parse_literal(".5", Kind::Float),
        Ok(ValueTree::Float(".5".to_string()))
    );
    assert_eq!(
        parse_literal("1.2.3", Kind::Float),
        Err("expected a float".to_string())
    );
    assert_eq!(
        parse_literal("", Kind::Float),
        Err("expected a float".to_string())
    );
    assert_eq!(
        parse_literal("anything at all", Kind::String),
        Ok(ValueTree::Str("anything at all".to_string()))
    );
    assert_eq!(
        parse_literal("x", Kind::Object),
        Err("cannot assign composite value from string".to_string())
    );
}
