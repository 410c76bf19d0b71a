use cnfg::codec::parse_file_text;
use cnfg::loader::{resolve, ResolveOutcome};
use cnfg::{CliSpec, FieldSpec, ValueTree};

fn file_defaults() -> ValueTree {
    ValueTree::Object(vec![
        ("name".to_string(), ValueTree::Str("from-default".to_string())),
        ("port".to_string(), ValueTree::Int(3000)),
    ])
}

fn get<'a>(tree: &'a ValueTree, key: &str) -> &'a ValueTree {
    match tree {
        ValueTree::Object(entries) => {
            &entries.iter().find(|(k, _)| k == key).expect("key present").1
        }
        other => panic!("not an object: {other:?}"),
    }
}

fn load_with_file(path: &str, text: &str) -> ValueTree {
    let file = parse_file_text(path, text).expect("file parses");
    let field_specs: Vec<FieldSpec> = vec![];
    let cli_specs: Vec<CliSpec> = vec![];
    let env: Vec<(String, String)> = vec![];
    let args: Vec<String> = vec![];
    let required: Vec<String> = vec![];
    match resolve(
        file_defaults(),
        Some(file),
        &env,
        &field_specs,
        &cli_specs,
        &args,
        &required,
    ) {
        Ok(ResolveOutcome::Resolved(tree)) => tree,
        other => panic!("unexpected outcome: {other:?}"),
    }
}

#[test]
fn loads_from_yaml_and_json() {
    let yaml_cfg = load_with_file("config.yaml", "name: yaml-source\nport: 7777\n");
    assert_eq!(
        get(&yaml_cfg, "name"),
        &ValueTree::Str("yaml-source".to_string())
    );
    assert_eq!(get(&yaml_cfg, "port"), &ValueTree::Int(7777));

    let json_cfg = load_with_file(
        "config.json",
        r#"{ "name": "json-source", "port": 4242 }"#,
    );
    assert_eq!(
        get(&json_cfg, "name"),
        &ValueTree::Str("json-source".to_string())
    );
    assert_eq!(get(&json_cfg, "port"), &ValueTree::Int(4242));
}

#[test]
fn loads_from_toml() {
    let toml_cfg = load_with_file("config.toml", "name = \"toml-source\"\nport = 5555\n");
    assert_eq!(
        get(&toml_cfg, "name"),
        &ValueTree::Str("toml-source".to_string())
    );
    assert_eq!(get(&toml_cfg, "port"), &ValueTree::Int(5555));
}

#[test]
fn rejects_unknown_extension() {
    match parse_file_text("config.ini", "name = x") {
        Err(cnfg::CnfgError::Cli(msg)) => {
            assert_eq!(
                msg,
                "unknown config extension for config.ini; use .toml, .yaml, .yml, or .json"
            );
        }
        other => panic!("unexpected outcome: {other:?}"),
    }
}

#[test]
fn reports_parse_errors_by_format() {
    assert!(matches!(
        parse_file_text("config.json", "{ not json"),
        Err(cnfg::CnfgError::ParseJson(_))
    ));
    assert!(matches!(
        parse_file_text("config.toml", "= broken"),
        Err(cnfg::CnfgError::ParseToml(_))
    ));
    assert!(matches!(
        parse_file_text("config.yaml", "a: [unclosed"),
        Err(cnfg::CnfgError::ParseYaml(_))
    ));
}
