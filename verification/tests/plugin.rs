use prep::plugin::{
    bounded_line, cleanup_failure_error, probe_outcome, supported_flag, validate_handshake,
    validate_result, DiagnosticBuffer, ProbeEvent, ProbeRun, ProbeStep, LifecycleFailure, PluginDiagnostics, PluginPhase,
    PluginProbeError, PluginProcessPolicy, DEFAULT_MAX_DIAGNOSTIC_BYTES, PROBE_ID,
};
use prep::protocol::{
    HelloResultFrame, JsonValue, PluginDescriptor, ProtocolErrorBody, ResultFrame,
    DEFAULT_MAX_FRAME_BYTES, PROTOCOL_V1,
};
use std::time::Duration;

fn descriptor(name: &str, operations: &[&str]) -> PluginDescriptor {
    PluginDescriptor {
        name: name.to_owned(),
        version: "0.1.0".to_owned(),
        operations: operations.iter().map(|op| op.to_string()).collect(),
        capabilities: Vec::new(),
    }
}

fn hello(protocol: &str, plugin: PluginDescriptor) -> HelloResultFrame {
    HelloResultFrame {
        protocol: protocol.to_owned(),
        id: "hello".to_owned(),
        frame_type: "hello_result".to_owned(),
        plugin,
    }
}

fn result(status: &str, value: Option<JsonValue>, error: Option<ProtocolErrorBody>) -> ResultFrame {
    ResultFrame {
        protocol: PROTOCOL_V1.to_owned(),
        id: PROBE_ID.to_owned(),
        frame_type: "result".to_owned(),
        status: status.to_owned(),
        value,
        error,
    }
}

fn diagnostics() -> PluginDiagnostics {
    PluginDiagnostics { text: String::new(), truncated: false }
}

#[test]
fn diagnostic_buffer_is_bounded() {
    let mut buffer = DiagnosticBuffer::default();
    buffer.append(b"abcdef", 4);
    let snapshot = buffer.snapshot();
    assert_eq!(snapshot.text, "abcd");
    assert!(snapshot.truncated);
}

#[test]
fn diagnostic_buffer_keeps_everything_within_the_limit() {
    let mut buffer = DiagnosticBuffer::default();
    buffer.append(b"ab", 4);
    buffer.append(b"cd", 4);
    let snapshot = buffer.snapshot();
    assert_eq!(snapshot.text, "abcd");
    assert!(!snapshot.truncated);
    buffer.append(b"e", 4);
    let snapshot = buffer.snapshot();
    assert_eq!(snapshot.text, "abcd");
    assert!(snapshot.truncated);
    assert!(!snapshot.is_empty());
}

#[test]
fn diagnostic_snapshot_replaces_invalid_utf8() {
    let mut buffer = DiagnosticBuffer::default();
    buffer.append(&[b'o', b'k', 0xff], 16);
    assert_eq!(buffer.snapshot().text, "ok\u{fffd}");
}

#[test]
fn mixed_success_and_error_payload_is_rejected() {
    let frame = result(
        "ok",
        None,
        Some(ProtocolErrorBody {
            code: "internal".to_owned(),
            message: "should not coexist with ok".to_owned(),
            retryable: false,
        }),
    );
    assert!(matches!(
        validate_result(&frame),
        Err(PluginProbeError::InvalidResult(_))
    ));
}

#[test]
fn handshake_checks_protocol_identity_and_operations() {
    assert!(validate_handshake(&hello(PROTOCOL_V1, descriptor("p", &["probe_build_system"]))).is_ok());
    match validate_handshake(&hello("prep.plugin/2", descriptor("p", &["probe_build_system"]))) {
        Err(PluginProbeError::InvalidHandshake(message)) => {
            assert_eq!(message, "expected protocol prep.plugin/1, got prep.plugin/2")
        }
        other => panic!("unexpected {other:?}"),
    }
    match validate_handshake(&hello(PROTOCOL_V1, descriptor("", &["probe_build_system"]))) {
        Err(PluginProbeError::InvalidHandshake(message)) => {
            assert_eq!(message, "plugin name/version must be non-empty")
        }
        other => panic!("unexpected {other:?}"),
    }
    match validate_handshake(&hello(PROTOCOL_V1, descriptor("p", &["build"]))) {
        Err(PluginProbeError::InvalidHandshake(message)) => {
            assert_eq!(message, "plugin did not declare probe_build_system")
        }
        other => panic!("unexpected {other:?}"),
    }
    let mut wrong_id = hello(PROTOCOL_V1, descriptor("p", &["probe_build_system"]));
    wrong_id.id = "other".to_owned();
    match validate_handshake(&wrong_id) {
        Err(PluginProbeError::InvalidHandshake(message)) => {
            assert_eq!(message, "unexpected handshake id/type")
        }
        other => panic!("unexpected {other:?}"),
    }
}

#[test]
fn result_status_rules() {
    assert!(validate_result(&result("ok", None, None)).is_ok());
    let error = ProtocolErrorBody {
        code: "unsupported".to_owned(),
        message: "no".to_owned(),
        retryable: false,
    };
    assert!(validate_result(&result("error", None, Some(error))).is_ok());
    match validate_result(&result("error", None, None)) {
        Err(PluginProbeError::InvalidResult(message)) => {
            assert_eq!(message, "error status must contain error details")
        }
        other => panic!("unexpected {other:?}"),
    }
    match validate_result(&result("maybe", None, None)) {
        Err(PluginProbeError::InvalidResult(message)) => {
            assert_eq!(message, "unknown result status maybe")
        }
        other => panic!("unexpected {other:?}"),
    }
}

#[test]
fn bounded_line_outcomes() {
    assert!(matches!(
        bounded_line(String::new(), 0, 16),
        Err(PluginProbeError::UnexpectedEof)
    ));
    match bounded_line("x".repeat(20), 17, 16) {
        Err(PluginProbeError::Protocol(message)) => {
            assert_eq!(message, "protocol frame exceeds 16 bytes")
        }
        other => panic!("unexpected {other:?}"),
    }
    assert!(matches!(
        bounded_line("abc".to_owned(), 3, 16),
        Err(PluginProbeError::MissingNewline)
    ));
    assert_eq!(
        bounded_line("{}\n".to_owned(), 3, DEFAULT_MAX_FRAME_BYTES).expect("line"),
        "{}\n"
    );
}

#[test]
fn supported_flag_reads_value_supported() {
    let object = |members: Vec<(&str, JsonValue)>| {
        JsonValue::Object(members.into_iter().map(|(k, v)| (k.to_owned(), v)).collect())
    };
    let value = object(vec![("other", JsonValue::Null), ("supported", JsonValue::Bool(true))]);
    assert_eq!(supported_flag(&Some(value)), Some(true));
    let value = object(vec![("supported", JsonValue::Text("yes".to_owned()))]);
    assert_eq!(supported_flag(&Some(value)), None);
    let value = JsonValue::Array(vec![JsonValue::Bool(true)]);
    assert_eq!(supported_flag(&Some(value)), None);
    assert_eq!(supported_flag(&None), None);
}

fn supported(value: bool) -> Option<JsonValue> {
    Some(JsonValue::Object(vec![("supported".to_owned(), JsonValue::Bool(value))]))
}

fn valid_hello() -> HelloResultFrame {
    hello(PROTOCOL_V1, descriptor("synthetic", &["probe_build_system"]))
}

#[test]
fn probe_outcome_orders_its_checks() {
    match probe_outcome(valid_hello(), result("ok", supported(true), None), false, Some(17), diagnostics()) {
        Err(PluginProbeError::ProcessFailed { code, .. }) => assert_eq!(code, Some(17)),
        other => panic!("unexpected {other:?}"),
    }
    let error = ProtocolErrorBody {
        code: "unsupported".to_owned(),
        message: "no cmake".to_owned(),
        retryable: false,
    };
    match probe_outcome(valid_hello(), result("error", None, Some(error)), true, Some(0), diagnostics()) {
        Err(PluginProbeError::PluginReturnedError { code, message }) => {
            assert_eq!(code, "unsupported");
            assert_eq!(message, "no cmake");
        }
        other => panic!("unexpected {other:?}"),
    }
    match probe_outcome(valid_hello(), result("ok", None, None), true, Some(0), diagnostics()) {
        Err(PluginProbeError::InvalidResult(message)) => assert_eq!(
            message,
            "successful probe result must contain boolean value.supported"
        ),
        other => panic!("unexpected {other:?}"),
    }
    let probe = probe_outcome(valid_hello(), result("ok", supported(false), None), true, Some(0), diagnostics())
        .expect("probe");
    assert_eq!(probe.name, "synthetic");
    assert_eq!(probe.version, "0.1.0");
    assert!(!probe.supported);
}

#[test]
fn probe_outcome_refuses_invalid_frames_even_after_a_clean_exit() {
    let nameless = hello(PROTOCOL_V1, descriptor("", &["probe_build_system"]));
    match probe_outcome(nameless, result("ok", supported(true), None), true, Some(0), diagnostics()) {
        Err(PluginProbeError::InvalidHandshake(message)) => {
            assert_eq!(message, "plugin name/version must be non-empty")
        }
        other => panic!("unexpected {other:?}"),
    }
    let mut unknown = result("ok", supported(true), None);
    unknown.protocol = "prep.plugin/9".to_owned();
    match probe_outcome(valid_hello(), unknown, true, Some(0), diagnostics()) {
        Err(PluginProbeError::InvalidResult(message)) => {
            assert_eq!(message, "expected protocol prep.plugin/1, got prep.plugin/9")
        }
        other => panic!("unexpected {other:?}"),
    }
}

#[test]
fn probe_run_stops_on_an_invalid_handshake() {
    let wrong = hello("prep.plugin/2", descriptor("synthetic", &["probe_build_system"]));
    match ProbeRun::start().step(ProbeEvent::HandshakeReceived(wrong)) {
        ProbeStep::Stop(PluginProbeError::InvalidHandshake(message)) => {
            assert_eq!(message, "expected protocol prep.plugin/1, got prep.plugin/2")
        }
        other => panic!("unexpected {other:?}"),
    }
}

#[test]
fn probe_run_stops_on_an_invalid_result_and_on_events_out_of_order() {
    let run = match ProbeRun::start().step(ProbeEvent::HandshakeReceived(valid_hello())) {
        ProbeStep::SendProbeRequest(run) => run,
        other => panic!("unexpected {other:?}"),
    };
    match run.step(ProbeEvent::ResultReceived(result("maybe", None, None))) {
        ProbeStep::Stop(PluginProbeError::InvalidResult(message)) => {
            assert_eq!(message, "unknown result status maybe")
        }
        other => panic!("unexpected {other:?}"),
    }
    let early = ProbeEvent::Exited { success: true, code: Some(0), diagnostics: diagnostics() };
    match ProbeRun::start().step(early) {
        ProbeStep::Stop(PluginProbeError::Protocol(message)) => {
            assert_eq!(message, "plugin event arrived out of order")
        }
        other => panic!("unexpected {other:?}"),
    }
}

#[test]
fn probe_run_finishes_with_the_handshake_plugin() {
    let run = match ProbeRun::start().step(ProbeEvent::HandshakeReceived(valid_hello())) {
        ProbeStep::SendProbeRequest(run) => run,
        other => panic!("unexpected {other:?}"),
    };
    let run = match run.step(ProbeEvent::ResultReceived(result("ok", supported(true), None))) {
        ProbeStep::AwaitExit(run) => run,
        other => panic!("unexpected {other:?}"),
    };
    match run.step(ProbeEvent::Exited { success: true, code: Some(0), diagnostics: diagnostics() }) {
        ProbeStep::Finish(Ok(probe)) => {
            assert_eq!(probe.name, "synthetic");
            assert!(probe.supported);
        }
        other => panic!("unexpected {other:?}"),
    }
}

#[test]
fn timeout_failure_carries_policy_and_diagnostics() {
    let captured = PluginDiagnostics { text: "late".to_owned(), truncated: true };
    let error = cleanup_failure_error(
        LifecycleFailure::Timeout(PluginPhase::Result),
        Duration::from_millis(500),
        captured.clone(),
        None,
    );
    match error {
        PluginProbeError::Timeout { phase, timeout, diagnostics } => {
            assert_eq!(phase, PluginPhase::Result);
            assert_eq!(timeout, Duration::from_millis(500));
            assert_eq!(diagnostics, captured);
        }
        other => panic!("unexpected {other:?}"),
    }
    let wrapped = cleanup_failure_error(
        LifecycleFailure::Probe(PluginProbeError::UnexpectedEof),
        Duration::from_secs(1),
        captured,
        Some("kill failed".to_owned()),
    );
    match wrapped {
        PluginProbeError::Cleanup { primary, message } => {
            assert!(matches!(*primary, PluginProbeError::UnexpectedEof));
            assert_eq!(message, "kill failed");
        }
        other => panic!("unexpected {other:?}"),
    }
}

#[test]
fn cleanup_failure_describes_the_primary_failure_first() {
    let error = PluginProbeError::Cleanup {
        primary: Box::new(PluginProbeError::InvalidHandshake("bad".to_owned())),
        message: "kill failed".to_owned(),
    };
    assert_eq!(
        error.describe(),
        "invalid plugin handshake: bad; plugin cleanup also failed: kill failed"
    );
}

#[test]
fn phase_labels_and_default_policy() {
    assert_eq!(PluginPhase::Handshake.label(), "handshake");
    assert_eq!(PluginPhase::Exit.label(), "process exit");
    let policy = PluginProcessPolicy::default();
    let span = |t: prep::plugin::TimeSpan| Duration::new(t.secs, t.subsec_nanos);
    assert_eq!(span(policy.operation_timeout), Duration::from_secs(30));
    assert_eq!(span(policy.termination_grace), Duration::from_millis(500));
    assert_eq!(policy.max_frame_bytes, DEFAULT_MAX_FRAME_BYTES);
    assert_eq!(policy.max_diagnostic_bytes, DEFAULT_MAX_DIAGNOSTIC_BYTES);
}

#[test]
fn probe_errors_describe_themselves() {
    assert_eq!(
        PluginProbeError::ProcessFailed { code: Some(17), diagnostics: diagnostics() }.describe(),
        "plugin process failed with status Some(17)"
    );
    assert_eq!(
        PluginProbeError::ProcessFailed { code: None, diagnostics: diagnostics() }.describe(),
        "plugin process failed with status None"
    );
    assert_eq!(
        PluginProbeError::ProcessFailed { code: Some(-2), diagnostics: diagnostics() }.describe(),
        "plugin process failed with status Some(-2)"
    );
    assert_eq!(
        PluginProbeError::Timeout {
            phase: PluginPhase::Handshake,
            timeout: Duration::from_millis(500),
            diagnostics: diagnostics(),
        }
        .describe(),
        "plugin handshake exceeded timeout 500ms"
    );
    assert_eq!(
        PluginProbeError::PluginReturnedError { code: "e".to_owned(), message: "m".to_owned() }
            .describe(),
        "plugin returned e: m"
    );
    let cleanup = PluginProbeError::Cleanup {
        primary: Box::new(PluginProbeError::UnexpectedEof),
        message: "kill failed".to_owned(),
    };
    assert_eq!(
        cleanup.describe(),
        "plugin closed stdout before a complete response; plugin cleanup also failed: kill failed"
    );
    let spawn = PluginProbeError::Spawn(std::io::Error::new(std::io::ErrorKind::NotFound, "no such file"));
    assert_eq!(spawn.describe(), "failed to spawn plugin: no such file");
}
