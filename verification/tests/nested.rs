use cnfg::loader::{resolve, ResolveOutcome};
use cnfg::{CnfgError, CliSpec, FieldSpec, Kind, ValueTree};

fn child_field_specs() -> Vec<FieldSpec> {
    vec![FieldSpec {
        name: "url".to_string(),
        env: Some("NESTED_URL".to_string()),
        path: "url".to_string(),
        doc: None,
        kind: Kind::String,
        default: None,
        required: true,
    }]
}

fn parent_field_specs() -> Vec<FieldSpec> {
    let mut specs = vec![FieldSpec {
        name: "child".to_string(),
        env: None,
        path: "child".to_string(),
        doc: None,
        kind: Kind::Object,
        default: None,
        required: false,
    }];
    for nested in child_field_specs() {
        specs.push(nested.with_prefix("child"));
    }
    specs
}

fn parent_defaults() -> ValueTree {
    ValueTree::Object(vec![("child".to_string(), ValueTree::Object(vec![]))])
}

fn parent_required() -> Vec<String> {
    vec!["child.url".to_string()]
}

fn get<'a>(tree: &'a ValueTree, key: &str) -> &'a ValueTree {
    match tree {
        ValueTree::Object(entries) => {
            &entries.iter().find(|(k, _)| k == key).expect("key present").1
        }
        other => panic!("not an object: {other:?}"),
    }
}

#[test]
fn propagates_nested_environment_values() {
    assert!(
        parent_field_specs()
            .iter()
            .any(|spec| spec.path == "child.url")
    );
    let env = vec![(
        "NESTED_URL".to_string(),
        "postgres://localhost/one".to_string(),
    )];
    let cli_specs: Vec<CliSpec> = vec![];
    let args: Vec<String> = vec![];
    let outcome = resolve(
        parent_defaults(),
        None,
        &env,
        &parent_field_specs(),
        &cli_specs,
        &args,
        &parent_required(),
    )
    .expect("nested load succeeds");
    match outcome {
        ResolveOutcome::Resolved(tree) => {
            let url = get(get(&tree, "child"), "url");
            assert_eq!(url, &ValueTree::Str("postgres://localhost/one".to_string()));
        }
        ResolveOutcome::Help => panic!("help was not requested"),
    }
}

#[test]
fn surfaces_nested_required_errors() {
    assert!(
        parent_required()
            .iter()
            .any(|path| path == "child.url")
    );
    let env: Vec<(String, String)> = vec![];
    let cli_specs: Vec<CliSpec> = vec![];
    let args: Vec<String> = vec![];
    match resolve(
        parent_defaults(),
        None,
        &env,
        &parent_field_specs(),
        &cli_specs,
        &args,
        &parent_required(),
    ) {
        Err(CnfgError::Validation(errors)) => {
            assert!(errors.iter().iter().any(|issue| issue.field == "child.url"));
        }
        Ok(_) => panic!("expected validation failure"),
        Err(other) => panic!("unexpected error: {other:?}"),
    }
}
