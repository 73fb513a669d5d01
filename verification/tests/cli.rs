use prep::cli::{probe_report, run_from, CliAction, CliError, HELP};
use prep::plugin::{
    probe_outcome, PluginDiagnostics, PluginProbeError, ProbeEvent, ProbeRun, ProbeStep, PROBE_ID,
};
use prep::protocol::{
    frame_text, CodecError, HelloResultFrame, JsonValue, PluginDescriptor, ResultFrame,
    DEFAULT_MAX_FRAME_BYTES, PROTOCOL_V1,
};

fn args(values: &[&str]) -> Vec<String> {
    values.iter().map(|value| value.to_string()).collect()
}

fn synthetic_hello() -> HelloResultFrame {
    HelloResultFrame {
        protocol: PROTOCOL_V1.to_owned(),
        id: "hello".to_owned(),
        frame_type: "hello_result".to_owned(),
        plugin: PluginDescriptor {
            name: "synthetic".to_owned(),
            version: "0.1.0".to_owned(),
            operations: vec!["probe_build_system".to_owned()],
            capabilities: Vec::new(),
        },
    }
}

fn supported_result() -> ResultFrame {
    ResultFrame {
        protocol: PROTOCOL_V1.to_owned(),
        id: PROBE_ID.to_owned(),
        frame_type: "result".to_owned(),
        status: "ok".to_owned(),
        value: Some(JsonValue::Object(vec![("supported".to_owned(), JsonValue::Bool(true))])),
        error: None,
    }
}

fn no_diagnostics() -> PluginDiagnostics {
    PluginDiagnostics { text: String::new(), truncated: false }
}

#[test]
fn version_is_available_without_runtime_dependencies() {
    let output = match run_from(args(&["prep", "--version"])).expect("version command should succeed") {
        CliAction::Print(text) => text,
        other => panic!("unexpected {other:?}"),
    };
    assert!(output.starts_with("prep "));
}

#[test]
fn unknown_command_is_a_usage_error() {
    let error = run_from(args(&["prep", "unknown"])).expect_err("unknown command should fail");
    assert!(matches!(error, CliError::Usage(_)));
}

#[test]
fn cli_core_external_plugin_smoke_path_succeeds() {
    let plugin = "/usr/libexec/prep-synthetic-plugin".to_owned();
    let action = run_from(vec![
        "prep".to_owned(),
        "internal".to_owned(),
        "probe-plugin".to_owned(),
        plugin.clone(),
    ])
    .expect("synthetic plugin probe should succeed");
    assert_eq!(action, CliAction::ProbePlugin(plugin));

    let run = match ProbeRun::start().step(ProbeEvent::HandshakeReceived(synthetic_hello())) {
        ProbeStep::SendProbeRequest(run) => run,
        other => panic!("unexpected {other:?}"),
    };
    let run = match run.step(ProbeEvent::ResultReceived(supported_result())) {
        ProbeStep::AwaitExit(run) => run,
        other => panic!("unexpected {other:?}"),
    };
    let exited = ProbeEvent::Exited { success: true, code: Some(0), diagnostics: no_diagnostics() };
    let probe = match run.step(exited) {
        ProbeStep::Finish(outcome) => outcome.expect("probe"),
        other => panic!("unexpected {other:?}"),
    };
    let output = probe_report(&probe);
    assert!(output.contains("plugin=synthetic"));
    assert!(output.contains("supported=true"));
    assert_eq!(output, "plugin=synthetic version=0.1.0 supported=true");
}

#[test]
fn malformed_external_plugin_output_is_typed_failure() {
    let action = run_from(args(&["prep", "internal", "probe-plugin", "/usr/libexec/prep-invalid-plugin"]))
        .expect("probe requested");
    assert!(matches!(action, CliAction::ProbePlugin(_)));
    let line = "not-json\n";
    let frame = frame_text(line, DEFAULT_MAX_FRAME_BYTES).expect("a non-empty frame within the limit");
    let parse_error = serde_json::from_str::<serde_json::Value>(frame).expect_err("not JSON");
    let message = CodecError::InvalidJson(parse_error).describe();
    assert!(message.starts_with("invalid protocol JSON: "));
    let error = CliError::from(PluginProbeError::Protocol(message));
    assert!(matches!(
        error,
        CliError::Probe(PluginProbeError::Protocol(_))
    ));
}

#[test]
fn unsuccessful_plugin_process_is_typed_failure() {
    let failure = probe_outcome(synthetic_hello(), supported_result(), false, Some(17), no_diagnostics())
        .expect_err("non-zero plugin exit should fail");
    let error = CliError::from(failure);
    assert!(matches!(
        error,
        CliError::Probe(PluginProbeError::ProcessFailed { code: Some(17), .. })
    ));
}

#[test]
fn help_is_the_default() {
    for line in [args(&["prep"]), args(&[]), args(&["prep", "help"]), args(&["prep", "-h"])] {
        assert_eq!(run_from(line).expect("help"), CliAction::Print(HELP.to_owned()));
    }
}

#[test]
fn usage_errors_are_precise() {
    match run_from(args(&["prep", "bogus"])) {
        Err(CliError::Usage(message)) => {
            assert_eq!(message, format!("unknown command \"bogus\"\n\n{HELP}"))
        }
        other => panic!("unexpected {other:?}"),
    }
    match run_from(args(&["prep", "internal"])) {
        Err(CliError::Usage(message)) => assert_eq!(message, "missing internal command"),
        other => panic!("unexpected {other:?}"),
    }
    match run_from(args(&["prep", "internal", "probe-plugin"])) {
        Err(CliError::Usage(message)) => {
            assert_eq!(message, "internal probe-plugin requires an executable path")
        }
        other => panic!("unexpected {other:?}"),
    }
    match run_from(args(&["prep", "internal", "probe-plugin", "a", "b"])) {
        Err(CliError::Usage(message)) => {
            assert_eq!(message, "internal probe-plugin accepts exactly one executable path")
        }
        other => panic!("unexpected {other:?}"),
    }
    match run_from(args(&["prep", "internal", "other"])) {
        Err(CliError::Usage(message)) => assert_eq!(message, "unknown internal command \"other\""),
        other => panic!("unexpected {other:?}"),
    }
}
