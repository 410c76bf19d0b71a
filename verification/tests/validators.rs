use cnfg::util::{format_doc, format_flag};
use cnfg::validate::{check_range_i64, check_regex, check_url};
use cnfg::{CliSpec, FieldSpec, IssueKind, Kind, ValidationErrors};

#[test]
fn range_validator_flags_out_of_range_values() {
    let mut errs = ValidationErrors::new();
    check_range_i64("port", 80, Some(1024), Some(65535), &mut errs);
    assert_eq!(errs.len(), 1);
    let issue = &errs.iter()[0];
    assert_eq!(issue.field, "port");
    assert!(matches!(issue.kind, IssueKind::Range));
    assert_eq!(issue.message, "must be >= 1024");

    let mut ok = ValidationErrors::new();
    check_range_i64("port", 8080, Some(1024), Some(65535), &mut ok);
    assert!(ok.is_empty());

    let mut high = ValidationErrors::new();
    check_range_i64("port", 70000, Some(1024), Some(65535), &mut high);
    assert_eq!(high.len(), 1);
    assert_eq!(high.iter()[0].message, "must be <= 65535");
}

#[test]
fn regex_validator_reports_mismatches() {
    let mut errs = ValidationErrors::new();
    assert!(check_regex("name", "^[a-z]+$", "hello", &mut errs));
    assert!(errs.is_empty());

    assert!(check_regex("name", "^[a-z]+$", "Hello7", &mut errs));
    assert_eq!(errs.len(), 1);
    let issue = &errs.iter()[0];
    assert_eq!(issue.field, "name");
    assert!(matches!(issue.kind, IssueKind::Regex));
    assert_eq!(issue.message, "regex not matched: ^[a-z]+$");

    let mut invalid = ValidationErrors::new();
    assert!(!check_regex("name", "(unclosed", "text", &mut invalid));
    assert!(invalid.is_empty());
}

#[test]
fn url_validator_reports_malformed_urls() {
    let mut errs = ValidationErrors::new();
    check_url("endpoint", "https://example.com/path", &mut errs);
    assert!(errs.is_empty());

    check_url("endpoint", "not a url", &mut errs);
    assert_eq!(errs.len(), 1);
    let issue = &errs.iter()[0];
    assert_eq!(issue.field, "endpoint");
    assert!(matches!(issue.kind, IssueKind::Url));
    assert_eq!(issue.message, "invalid URL");
}

#[test]
fn validation_errors_collect_and_prefix() {
    let mut inner = ValidationErrors::new();
    check_url("url", "::broken::", &mut inner);
    assert_eq!(inner.len(), 1);
    let prefixed = inner.with_prefix("child");
    assert_eq!(prefixed.iter()[0].field, "child.url");

    let mut outer = ValidationErrors::new();
    check_range_i64("port", 5, Some(10), None, &mut outer);
    outer.extend(prefixed);
    assert_eq!(outer.len(), 2);
    assert_eq!(outer.iter()[0].field, "port");
    assert_eq!(outer.iter()[1].field, "child.url");
    let as_vec = outer.into_vec();
    assert_eq!(as_vec.len(), 2);
}

#[test]
fn field_spec_prefixing_extends_paths() {
    let spec = FieldSpec {
        name: "url".to_string(),
        env: Some("NESTED_URL".to_string()),
        path: "url".to_string(),
        doc: Some("target".to_string()),
        kind: Kind::String,
        default: None,
        required: true,
    };
    let prefixed = spec.with_prefix("child");
    assert_eq!(prefixed.path, "child.url");
    assert_eq!(prefixed.name, "url");
    assert_eq!(prefixed.env.as_deref(), Some("NESTED_URL"));
    assert!(prefixed.required);
    assert_eq!(prefixed.segments(), vec!["child".to_string(), "url".to_string()]);
}

#[test]
fn cli_spec_prefixing_composes_flags() {
    let spec = CliSpec {
        flag: "port".to_string(),
        field: "port".to_string(),
        kind: Kind::Int,
        path: "port".to_string(),
        doc: None,
        takes_value: true,
        default: None,
        required: false,
    };
    let prefixed = spec.with_prefix("db_primary");
    assert_eq!(prefixed.flag, "db-primary-port");
    assert_eq!(prefixed.path, "db_primary.port");
    assert_eq!(
        prefixed.segments(),
        vec!["db_primary".to_string(), "port".to_string()]
    );

    let bare = CliSpec {
        flag: String::new(),
        field: "on".to_string(),
        kind: Kind::Bool,
        path: "on".to_string(),
        doc: None,
        takes_value: false,
        default: None,
        required: false,
    };
    assert_eq!(bare.with_prefix("child_node").flag, "child-node");
}

#[test]
fn errors_render_human_readably() {
    let empty = ValidationErrors::new();
    assert_eq!(empty.render(), "no validation errors");

    let mut errs = ValidationErrors::new();
    check_range_i64("port", 80, Some(1024), None, &mut errs);
    assert_eq!(errs.render(), "validation failed:\n  - port \u{2014} must be >= 1024\n");
    let top = cnfg::CnfgError::Validation(errs);
    assert_eq!(top.render(), "validation failed:\n  - port \u{2014} must be >= 1024\n");
    assert_eq!(
        cnfg::CnfgError::Cli("unknown flag --x".to_string()).render(),
        "CLI error: unknown flag --x"
    );
}

#[test]
fn doc_and_flag_formatting() {
    assert_eq!(
        format_doc(Some("  first line \n\n  second line  ")),
        Some("first line second line".to_string())
    );
    assert_eq!(format_doc(None), None);
    assert_eq!(format_flag("port", true), "--port <value>");
    assert_eq!(format_flag("verbose", false), "--verbose");
}
