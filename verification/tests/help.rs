use cnfg::loader::render_help;
use cnfg::{CliSpec, Kind};

fn help_cli_specs() -> Vec<CliSpec> {
    vec![
        CliSpec {
            flag: "port".to_string(),
            field: "port".to_string(),
            kind: Kind::Int,
            path: "port".to_string(),
            doc: Some("Listening port for the HTTP API.".to_string()),
            takes_value: true,
            default: Some("8080".to_string()),
            required: false,
        },
        CliSpec {
            flag: "verbose".to_string(),
            field: "verbose".to_string(),
            kind: Kind::Bool,
            path: "verbose".to_string(),
            doc: Some("Enable verbose logging output.".to_string()),
            takes_value: false,
            default: Some("false".to_string()),
            required: false,
        },
    ]
}

#[test]
fn renders_cli_help() {
    let help = render_help(None, &help_cli_specs());
    assert!(help.contains("Usage:"));
    assert!(help.contains("--port <value>"));
    assert!(help.contains("Listening port"));
    assert!(help.contains("--verbose"));
}
