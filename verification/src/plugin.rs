//! The decisions of a plugin probe: which handshakes and results are accepted,
//! how diagnostics are bounded, and what a finished probe reports.
use crate::protocol::{
    is_protocol_v1, HelloResultFrame, JsonValue, PluginDescriptor, ResultFrame,
    DEFAULT_MAX_FRAME_BYTES, PROTOCOL_V1,
};
use crate::identity::has_prefix;
use crate::outside::io_error_text;
use crate::text::{
    concat2, concat3, concat4, decimal, decimal_text, has_suffix, signed_decimal,
    signed_decimal_text, text_eq,
};
use vstd::prelude::*;
use vstd::string::*;
use vstd::utf8::*;

verus! {

pub const HELLO_ID: &'static str = "hello";

pub const PROBE_ID: &'static str = "probe-build-system";

/// The diagnostics kept from a plugin by default: 64 KiB.
pub const DEFAULT_MAX_DIAGNOSTIC_BYTES: usize = 65536;

/// A span of time as `Duration` holds it: whole seconds and the nanoseconds
/// of the last, unfinished second.
#[derive(Debug, Clone, Copy, PartialEq, Eq)]
pub struct TimeSpan {
    pub secs: u64,
    pub subsec_nanos: u32,
}

/// The limits a plugin process runs under.
#[derive(Debug, Clone, Copy, PartialEq, Eq)]
pub struct PluginProcessPolicy {
    pub operation_timeout: TimeSpan,
    pub termination_grace: TimeSpan,
    pub max_frame_bytes: usize,
    pub max_diagnostic_bytes: usize,
}

impl Default for PluginProcessPolicy {
    /// Thirty seconds per operation, half a second of grace on termination,
    /// the protocol's default frame limit and 64 KiB of diagnostics.
    fn default() -> (r: Self)
        ensures
            r.operation_timeout == (TimeSpan { secs: 30, subsec_nanos: 0 }),
            r.termination_grace == (TimeSpan { secs: 0, subsec_nanos: 500_000_000 }),
            r.max_frame_bytes == DEFAULT_MAX_FRAME_BYTES,
            r.max_diagnostic_bytes == DEFAULT_MAX_DIAGNOSTIC_BYTES,
    {
        PluginProcessPolicy {
            operation_timeout: TimeSpan { secs: 30, subsec_nanos: 0 },
            termination_grace: TimeSpan { secs: 0, subsec_nanos: 500_000_000 },
            max_frame_bytes: DEFAULT_MAX_FRAME_BYTES,
            max_diagnostic_bytes: DEFAULT_MAX_DIAGNOSTIC_BYTES,
        }
    }
}

/// What a plugin wrote to its standard error, possibly cut short.
#[derive(Debug, Clone, PartialEq, Eq)]
pub struct PluginDiagnostics {
    pub text: String,
    pub truncated: bool,
}

impl PluginDiagnostics {
    pub fn is_empty(&self) -> (r: bool)
        ensures
            r == (self.text@.len() == 0),
    {
        self.text.as_str().is_empty()
    }
}

/// The stage of a plugin run.
#[derive(Debug, Clone, Copy, PartialEq, Eq)]
pub enum PluginPhase {
    Handshake,
    Result,
    Exit,
}

/// A phase's name in messages.
pub open spec fn phase_label(p: PluginPhase) -> Seq<char> {
    match p {
        PluginPhase::Handshake => "handshake"@,
        PluginPhase::Result => "result"@,
        PluginPhase::Exit => "process exit"@,
    }
}

impl PluginPhase {
    /// The phase's name in messages.
    pub fn label(&self) -> (r: &'static str)
        ensures
            r@ == phase_label(*self),
    {
        match self {
            PluginPhase::Handshake => "handshake",
            PluginPhase::Result => "result",
            PluginPhase::Exit => "process exit",
        }
    }
}

/// What a successful probe reports.
#[derive(Debug, Clone, PartialEq, Eq)]
pub struct PluginProbe {
    pub name: String,
    pub version: String,
    pub supported: bool,
    pub diagnostics: PluginDiagnostics,
}

/// Why a plugin probe failed.
#[derive(Debug)]
pub enum PluginProbeError {
    Spawn(std::io::Error),
    Io { operation: &'static str, source: std::io::Error },
    Protocol(String),
    UnexpectedEof,
    MissingNewline,
    InvalidHandshake(String),
    InvalidResult(String),
    PluginReturnedError { code: String, message: String },
    ProcessFailed { code: Option<i32>, diagnostics: PluginDiagnostics },
    Timeout { phase: PluginPhase, timeout: core::time::Duration, diagnostics: PluginDiagnostics },
    Cleanup { primary: Box<PluginProbeError>, message: String },
}

/// Renders a duration with `{:?}`. A `Duration` is opaque here, so nothing is
/// stated of the text.
#[verifier::external_body]
fn duration_text(duration: &core::time::Duration) -> (r: String) {
    format!("{duration:?}")
}

/// The text `{:?}` gives an exit code: `Some(<code>)` or `None`.
pub open spec fn exit_code_text(code: Option<i32>) -> Seq<char> {
    match code {
        Some(c) => "Some("@ + signed_decimal(c) + ")"@,
        None => "None"@,
    }
}

/// Whether `r` is the message of `e` as far as it is made of plain text: the
/// text of an I/O error and of a duration come from `std` and are not stated.
/// A cleanup failure's message is its primary failure's message followed by
/// the cleanup message.
pub open spec fn probe_error_message(e: PluginProbeError, r: Seq<char>) -> bool
    decreases e,
{
    match e {
        PluginProbeError::Spawn(_) => has_prefix(r, "failed to spawn plugin: "@),
        PluginProbeError::Io { operation, .. } => has_prefix(
            r,
            "plugin "@ + operation@ + " failed: "@,
        ),
        PluginProbeError::Protocol(m) => r == "plugin protocol error: "@ + m@,
        PluginProbeError::UnexpectedEof => r == "plugin closed stdout before a complete response"@,
        PluginProbeError::MissingNewline => r == "plugin response was not newline-delimited"@,
        PluginProbeError::InvalidHandshake(m) => r == "invalid plugin handshake: "@ + m@,
        PluginProbeError::InvalidResult(m) => r == "invalid plugin result: "@ + m@,
        PluginProbeError::PluginReturnedError { code, message } => r == "plugin returned "@
            + code@ + ": "@ + message@,
        PluginProbeError::ProcessFailed { code, .. } => r == "plugin process failed with status "@
            + exit_code_text(code),
        PluginProbeError::Timeout { phase, .. } => has_prefix(
            r,
            "plugin "@ + phase_label(phase) + " exceeded timeout "@,
        ),
        PluginProbeError::Cleanup { primary, message } => {
            let tail = "; plugin cleanup also failed: "@ + message@;
            &&& tail.len() <= r.len()
            &&& r.skip(r.len() - tail.len()) == tail
            &&& probe_error_message(*primary, r.take(r.len() - tail.len()))
        },
    }
}

fn exit_code_string(code: Option<i32>) -> (r: String)
    ensures
        r@ == exit_code_text(code),
{
    match code {
        Some(c) => {
            let digits = signed_decimal_text(c);
            concat3("Some(", digits.as_str(), ")")
        },
        None => String::from_str("None"),
    }
}

/// `a` followed by `b`, which begins with `a`.
fn prefixed(a: &str, b: &str) -> (r: String)
    ensures
        r@ == a@ + b@,
        has_prefix(r@, a@),
{
    let r = concat2(a, b);
    assert(r@.take(a@.len() as int) =~= a@);
    r
}

impl PluginProbeError {
    /// The error's message.
    pub fn describe(&self) -> (r: String)
        ensures
            probe_error_message(*self, r@),
        decreases self,
    {
        match self {
            PluginProbeError::Spawn(error) => {
                let detail = io_error_text(error);
                prefixed("failed to spawn plugin: ", detail.as_str())
            },
            PluginProbeError::Io { operation, source } => {
                let detail = io_error_text(source);
                let head = concat3("plugin ", operation, " failed: ");
                prefixed(head.as_str(), detail.as_str())
            },
            PluginProbeError::Protocol(message) => concat2("plugin protocol error: ", message.as_str()),
            PluginProbeError::UnexpectedEof => String::from_str(
                "plugin closed stdout before a complete response",
            ),
            PluginProbeError::MissingNewline => String::from_str(
                "plugin response was not newline-delimited",
            ),
            PluginProbeError::InvalidHandshake(message) => concat2(
                "invalid plugin handshake: ",
                message.as_str(),
            ),
            PluginProbeError::InvalidResult(message) => concat2(
                "invalid plugin result: ",
                message.as_str(),
            ),
            PluginProbeError::PluginReturnedError { code, message } => concat4(
                "plugin returned ",
                code.as_str(),
                ": ",
                message.as_str(),
            ),
            PluginProbeError::ProcessFailed { code, .. } => {
                let status = exit_code_string(*code);
                concat2("plugin process failed with status ", status.as_str())
            },
            PluginProbeError::Timeout { phase, timeout, .. } => {
                let limit = duration_text(timeout);
                let head = concat3("plugin ", phase.label(), " exceeded timeout ");
                prefixed(head.as_str(), limit.as_str())
            },
            PluginProbeError::Cleanup { primary, message } => {
                let first = primary.describe();
                let tail = concat2("; plugin cleanup also failed: ", message.as_str());
                let r = concat2(first.as_str(), tail.as_str());
                assert(r@.take(r@.len() - tail@.len()) =~= first@);
                assert(r@.skip(r@.len() - tail@.len()) =~= tail@);
                r
            },
        }
    }
}

/// Whether some text of `ops` is `x`.
pub open spec fn declares(ops: Seq<String>, x: Seq<char>) -> bool {
    exists|i: int| 0 <= i < ops.len() && ops[i]@ == x
}

/// The problem with a handshake, if any.
pub open spec fn handshake_problem(h: HelloResultFrame) -> Option<Seq<char>> {
    if h.protocol@ != PROTOCOL_V1@ {
        Some("expected protocol "@ + PROTOCOL_V1@ + ", got "@ + h.protocol@)
    } else if h.id@ != HELLO_ID@ || h.frame_type@ != "hello_result"@ {
        Some("unexpected handshake id/type"@)
    } else if h.plugin.name@.len() == 0 || h.plugin.version@.len() == 0 {
        Some("plugin name/version must be non-empty"@)
    } else if !declares(h.plugin.operations@, "probe_build_system"@) {
        Some("plugin did not declare probe_build_system"@)
    } else {
        None
    }
}

/// Accepts a handshake of protocol v1 that answers `hello`, names the plugin
/// and declares `probe_build_system`.
pub fn validate_handshake(hello: &HelloResultFrame) -> (r: Result<(), PluginProbeError>)
    ensures
        match handshake_problem(*hello) {
            Some(m) => r matches Err(PluginProbeError::InvalidHandshake(x)) && x@ == m,
            None => r is Ok,
        },
{
    if !is_protocol_v1(hello.protocol.as_str()) {
        let head = concat3("expected protocol ", PROTOCOL_V1, ", got ");
        return Err(
            PluginProbeError::InvalidHandshake(concat2(head.as_str(), hello.protocol.as_str())),
        );
    }
    if !text_eq(hello.id.as_str(), HELLO_ID) || !text_eq(hello.frame_type.as_str(), "hello_result") {
        return Err(
            PluginProbeError::InvalidHandshake(String::from_str("unexpected handshake id/type")),
        );
    }
    if hello.plugin.name.as_str().is_empty() || hello.plugin.version.as_str().is_empty() {
        return Err(
            PluginProbeError::InvalidHandshake(
                String::from_str("plugin name/version must be non-empty"),
            ),
        );
    }
    let ops = &hello.plugin.operations;
    let mut i: usize = 0;
    while i < ops.len()
        invariant
            i <= ops@.len(),
            ops@ == hello.plugin.operations@,
            handshake_problem(*hello) is None || !declares(ops@, "probe_build_system"@),
            forall|k: int| 0 <= k < i ==> ops@[k]@ != "probe_build_system"@,
        decreases ops@.len() - i,
    {
        if text_eq(ops[i].as_str(), "probe_build_system") {
            assert(ops@[i as int]@ == "probe_build_system"@);
            return Ok(());
        }
        i = i + 1;
    }
    Err(
        PluginProbeError::InvalidHandshake(
            String::from_str("plugin did not declare probe_build_system"),
        ),
    )
}

/// The problem with a result frame, if any.
pub open spec fn result_problem(r: ResultFrame) -> Option<Seq<char>> {
    if r.protocol@ != PROTOCOL_V1@ {
        Some("expected protocol "@ + PROTOCOL_V1@ + ", got "@ + r.protocol@)
    } else if r.id@ != PROBE_ID@ || r.frame_type@ != "result"@ {
        Some("unexpected result id/type"@)
    } else if r.status@ == "ok"@ {
        if r.error is None {
            None
        } else {
            Some("ok status must not contain error details"@)
        }
    } else if r.status@ == "error"@ {
        if r.error is Some {
            None
        } else {
            Some("error status must contain error details"@)
        }
    } else {
        Some("unknown result status "@ + r.status@)
    }
}

/// Accepts a result of protocol v1 that answers the probe, with status `ok`
/// and no error, or status `error` and an error.
pub fn validate_result(result: &ResultFrame) -> (r: Result<(), PluginProbeError>)
    ensures
        match result_problem(*result) {
            Some(m) => r matches Err(PluginProbeError::InvalidResult(x)) && x@ == m,
            None => r is Ok,
        },
{
    if !is_protocol_v1(result.protocol.as_str()) {
        let head = concat3("expected protocol ", PROTOCOL_V1, ", got ");
        return Err(
            PluginProbeError::InvalidResult(concat2(head.as_str(), result.protocol.as_str())),
        );
    }
    if !text_eq(result.id.as_str(), PROBE_ID) || !text_eq(result.frame_type.as_str(), "result") {
        return Err(PluginProbeError::InvalidResult(String::from_str("unexpected result id/type")));
    }
    if text_eq(result.status.as_str(), "ok") {
        if result.error.is_none() {
            return Ok(());
        }
        return Err(
            PluginProbeError::InvalidResult(
                String::from_str("ok status must not contain error details"),
            ),
        );
    }
    if text_eq(result.status.as_str(), "error") {
        if result.error.is_some() {
            return Ok(());
        }
        return Err(
            PluginProbeError::InvalidResult(
                String::from_str("error status must contain error details"),
            ),
        );
    }
    Err(PluginProbeError::InvalidResult(concat2("unknown result status ", result.status.as_str())))
}

/// The text `String::from_utf8_lossy` makes of `bytes`.
pub uninterp spec fn utf8_lossy(bytes: Seq<u8>) -> Seq<char>;

/// Calls `String::from_utf8_lossy`: invalid UTF-8 sequences become U+FFFD, and
/// valid UTF-8 decodes to its characters.
#[verifier::external_body]
fn lossy_text(bytes: &[u8]) -> (r: String)
    ensures
        r@ == utf8_lossy(bytes@),
        valid_utf8(bytes@) ==> r@ == decode_utf8(bytes@),
{
    String::from_utf8_lossy(bytes).into_owned()
}

/// The bytes accepted when `incoming` arrives with `kept` already held under
/// `limit`: as many as still fit.
pub open spec fn accepted_count(kept: Seq<u8>, incoming: Seq<u8>, limit: nat) -> nat {
    let room: nat = if kept.len() < limit {
        (limit - kept.len()) as nat
    } else {
        0
    };
    if room < incoming.len() {
        room
    } else {
        incoming.len()
    }
}

/// The captured bytes and truncation flag after `incoming` arrives.
pub open spec fn diagnostics_after(state: (Seq<u8>, bool), incoming: Seq<u8>, limit: nat) -> (
    Seq<u8>,
    bool,
) {
    let n = accepted_count(state.0, incoming, limit);
    (state.0 + incoming.take(n as int), state.1 || n < incoming.len())
}

/// Captured diagnostics never exceed their limit, and once anything is
/// dropped the capture says so: from a state within the limit, any arrival
/// leaves the state within it, keeps what was held as its beginning, and
/// marks the capture truncated exactly when bytes were turned away or it
/// already was.
pub proof fn law_diagnostics_stay_bounded(state: (Seq<u8>, bool), incoming: Seq<u8>, limit: nat)
    requires
        state.0.len() <= limit,
    ensures
        diagnostics_after(state, incoming, limit).0.len() <= limit,
        diagnostics_after(state, incoming, limit).0.take(state.0.len() as int) == state.0,
        diagnostics_after(state, incoming, limit).1 == (state.1 || state.0.len() + incoming.len()
            > limit),
{
    let after = diagnostics_after(state, incoming, limit);
    assert(after.0.take(state.0.len() as int) =~= state.0);
}

/// Captured standard-error bytes, kept within a limit.
#[derive(Debug)]
pub struct DiagnosticBuffer {
    bytes: Vec<u8>,
    truncated: bool,
}

impl View for DiagnosticBuffer {
    type V = (Seq<u8>, bool);

    closed spec fn view(&self) -> (Seq<u8>, bool) {
        (self.bytes@, self.truncated)
    }
}

impl Default for DiagnosticBuffer {
    fn default() -> (r: Self)
        ensures
            r@ == (Seq::<u8>::empty(), false),
    {
        DiagnosticBuffer { bytes: Vec::new(), truncated: false }
    }
}

impl DiagnosticBuffer {
    /// Keeps as much of `bytes` as fits under `limit`, and records whether any
    /// of it was dropped.
    pub fn append(&mut self, bytes: &[u8], limit: usize)
        ensures
            final(self)@ == diagnostics_after(old(self)@, bytes@, limit as nat),
    {
        let remaining = limit.saturating_sub(self.bytes.len());
        let accepted = if remaining < bytes.len() {
            remaining
        } else {
            bytes.len()
        };
        let ghost start = self.bytes@;
        let mut i: usize = 0;
        while i < accepted
            invariant
                i <= accepted,
                accepted <= bytes@.len(),
                self.bytes@ == start + bytes@.take(i as int),
                self.truncated == old(self).truncated,
            decreases accepted - i,
        {
            self.bytes.push(bytes[i]);
            assert(bytes@.take(i + 1) =~= bytes@.take(i as int).push(bytes@[i as int]));
            assert(self.bytes@ =~= start + bytes@.take(i + 1));
            i = i + 1;
        }
        if accepted < bytes.len() {
            self.truncated = true;
        }
    }

    /// The captured text (invalid UTF-8 replaced) and whether it was cut short.
    pub fn snapshot(&self) -> (r: PluginDiagnostics)
        ensures
            r.text@ == utf8_lossy(self@.0),
            valid_utf8(self@.0) ==> r.text@ == decode_utf8(self@.0),
            r.truncated == self@.1,
    {
        PluginDiagnostics { text: lossy_text(self.bytes.as_slice()), truncated: self.truncated }
    }
}

/// How reading one protocol line came out, before its content is inspected:
/// `bytes_read` bytes were read, taking at most one byte past the limit.
pub open spec fn line_outcome(
    line: Seq<char>,
    bytes_read: usize,
    max_frame_bytes: usize,
    r: Result<String, PluginProbeError>,
) -> bool {
    if bytes_read == 0 {
        r matches Err(PluginProbeError::UnexpectedEof)
    } else if bytes_read > max_frame_bytes {
        r matches Err(PluginProbeError::Protocol(m)) && m@ == "protocol frame exceeds "@ + decimal(
            max_frame_bytes as nat,
        ) + " bytes"@
    } else if !(line.len() > 0 && line.last() == '\n') {
        r matches Err(PluginProbeError::MissingNewline)
    } else {
        r matches Ok(l) && l@ == line
    }
}

/// Accepts a line read from a plugin only if something was read, within the
/// frame limit, and newline-terminated.
pub fn bounded_line(line: String, bytes_read: usize, max_frame_bytes: usize) -> (r: Result<
    String,
    PluginProbeError,
>)
    ensures
        line_outcome(line@, bytes_read, max_frame_bytes, r),
{
    if bytes_read == 0 {
        return Err(PluginProbeError::UnexpectedEof);
    }
    if bytes_read > max_frame_bytes {
        let limit = decimal_text(max_frame_bytes);
        return Err(
            PluginProbeError::Protocol(concat3("protocol frame exceeds ", limit.as_str(), " bytes")),
        );
    }
    let n = line.as_str().unicode_len();
    if n == 0 || line.as_str().get_char(n - 1) != '\n' {
        return Err(PluginProbeError::MissingNewline);
    }
    Ok(line)
}

/// How a plugin interaction failed before the plugin exited.
#[derive(Debug)]
pub enum LifecycleFailure {
    Probe(PluginProbeError),
    Timeout(PluginPhase),
}

/// The error reported for a failed interaction once the plugin has been
/// stopped: the failure itself (a timeout carrying the operation timeout and
/// the diagnostics captured), wrapped with the cleanup message if stopping
/// the plugin failed too.
pub fn cleanup_failure_error(
    failure: LifecycleFailure,
    timeout: core::time::Duration,
    diagnostics: PluginDiagnostics,
    cleanup: Option<String>,
) -> (r: PluginProbeError)
    ensures
        ({
            let primary = match failure {
                LifecycleFailure::Probe(e) => e,
                LifecycleFailure::Timeout(phase) => PluginProbeError::Timeout {
                    phase,
                    timeout,
                    diagnostics,
                },
            };
            match cleanup {
                None => r == primary,
                Some(m) => r == PluginProbeError::Cleanup { primary: Box::new(primary), message: m },
            }
        }),
{
    let primary = match failure {
        LifecycleFailure::Probe(error) => error,
        LifecycleFailure::Timeout(phase) => PluginProbeError::Timeout {
            phase,
            timeout,
            diagnostics,
        },
    };
    match cleanup {
        None => primary,
        Some(message) => PluginProbeError::Cleanup { primary: Box::new(primary), message },
    }
}

/// The value of the first member of `members` named `key`.
pub open spec fn member(members: Seq<(String, JsonValue)>, key: Seq<char>) -> Option<JsonValue>
    decreases members.len(),
{
    if members.len() == 0 {
        None
    } else if members[0].0@ == key {
        Some(members[0].1)
    } else {
        member(members.drop_first(), key)
    }
}

/// The boolean `value.supported` of a result: the member `supported` of an
/// object value, when it is a boolean.
pub open spec fn supported_of(value: Option<JsonValue>) -> Option<bool> {
    match value {
        Some(JsonValue::Object(members)) => match member(members@, "supported"@) {
            Some(JsonValue::Bool(b)) => Some(b),
            _ => None,
        },
        _ => None,
    }
}

/// The boolean `value.supported` of a result, if there is one.
pub fn supported_flag(value: &Option<JsonValue>) -> (r: Option<bool>)
    ensures
        r == supported_of(*value),
{
    match value {
        Some(JsonValue::Object(members)) => {
            let ghost target = supported_of(*value);
            assert(target == match member(members@, "supported"@) {
                Some(JsonValue::Bool(b)) => Some(b),
                _ => None,
            });
            let mut i: usize = 0;
            assert(members@.skip(0) =~= members@);
            while i < members.len()
                invariant
                    i <= members@.len(),
                    target == supported_of(*value),
                    target == match member(members@, "supported"@) {
                        Some(JsonValue::Bool(b)) => Some(b),
                        _ => None,
                    },
                    member(members@, "supported"@) == member(members@.skip(i as int), "supported"@),
                decreases members@.len() - i,
            {
                assert(members@.skip(i as int).drop_first() =~= members@.skip(i + 1));
                assert(members@.skip(i as int)[0] == members@[i as int]);
                if text_eq(members[i].0.as_str(), "supported") {
                    return match &members[i].1 {
                        JsonValue::Bool(b) => Some(*b),
                        _ => None,
                    };
                }
                i = i + 1;
            }
            assert(members@.skip(i as int).len() == 0);
            None
        },
        _ => None,
    }
}

/// The outcome of a finished probe once both frames were accepted: a failed
/// process first, then a plugin error, then the boolean `supported` the result
/// carries.
pub open spec fn finished_outcome(
    plugin: PluginDescriptor,
    result: ResultFrame,
    exit_success: bool,
    exit_code: Option<i32>,
    diagnostics: PluginDiagnostics,
    r: Result<PluginProbe, PluginProbeError>,
) -> bool {
    if !exit_success {
        r == Err::<PluginProbe, PluginProbeError>(
            PluginProbeError::ProcessFailed { code: exit_code, diagnostics },
        )
    } else if result.status@ == "error"@ {
        match result.error {
            Some(e) => r matches Err(PluginProbeError::PluginReturnedError { code, message })
                && code == e.code && message == e.message,
            None => r matches Err(PluginProbeError::InvalidResult(m)) && m@
                == "error status omitted error details"@,
        }
    } else {
        match supported_of(result.value) {
            Some(s) => r == Ok::<PluginProbe, PluginProbeError>(
                PluginProbe { name: plugin.name, version: plugin.version, supported: s, diagnostics },
            ),
            None => r matches Err(PluginProbeError::InvalidResult(m)) && m@
                == "successful probe result must contain boolean value.supported"@,
        }
    }
}

/// The outcome of a probe: the handshake is checked first, then the result,
/// then the process exit and what the result says.
pub open spec fn probe_outcome_spec(
    hello: HelloResultFrame,
    result: ResultFrame,
    exit_success: bool,
    exit_code: Option<i32>,
    diagnostics: PluginDiagnostics,
    r: Result<PluginProbe, PluginProbeError>,
) -> bool {
    match handshake_problem(hello) {
        Some(m) => r matches Err(PluginProbeError::InvalidHandshake(x)) && x@ == m,
        None => match result_problem(result) {
            Some(m) => r matches Err(PluginProbeError::InvalidResult(x)) && x@ == m,
            None => finished_outcome(hello.plugin, result, exit_success, exit_code, diagnostics, r),
        },
    }
}

/// What a probe reports given the plugin's handshake, its result and how its
/// process exited. A probe succeeds only after a valid handshake, a valid
/// result with status `ok` and a successful exit.
pub fn probe_outcome(
    hello: HelloResultFrame,
    result: ResultFrame,
    exit_success: bool,
    exit_code: Option<i32>,
    diagnostics: PluginDiagnostics,
) -> (r: Result<PluginProbe, PluginProbeError>)
    ensures
        probe_outcome_spec(hello, result, exit_success, exit_code, diagnostics, r),
        r is Ok ==> {
            &&& handshake_problem(hello) is None
            &&& result_problem(result) is None
            &&& result.status@ == "ok"@
            &&& exit_success
        },
{
    validate_handshake(&hello)?;
    validate_result(&result)?;
    if !exit_success {
        return Err(PluginProbeError::ProcessFailed { code: exit_code, diagnostics });
    }
    if text_eq(result.status.as_str(), "error") {
        return match result.error {
            Some(e) => Err(PluginProbeError::PluginReturnedError { code: e.code, message: e.message }),
            None => Err(
                PluginProbeError::InvalidResult(String::from_str("error status omitted error details")),
            ),
        };
    }
    let supported = supported_flag(&result.value);
    let plugin = hello.plugin;
    match supported {
        Some(s) => Ok(PluginProbe { name: plugin.name, version: plugin.version, supported: s, diagnostics }),
        None => Err(
            PluginProbeError::InvalidResult(
                String::from_str("successful probe result must contain boolean value.supported"),
            ),
        ),
    }
}

/// Where a probe exchange stands: the frames accepted so far.
#[derive(Debug)]
pub enum ProbeStage {
    AwaitingHandshake,
    AwaitingResult(HelloResultFrame),
    AwaitingExit(HelloResultFrame, ResultFrame),
}

/// Every frame a stage holds was accepted by its check.
pub open spec fn stage_checked(stage: ProbeStage) -> bool {
    match stage {
        ProbeStage::AwaitingHandshake => true,
        ProbeStage::AwaitingResult(h) => handshake_problem(h) is None,
        ProbeStage::AwaitingExit(h, r) => handshake_problem(h) is None && result_problem(r)
            is None,
    }
}

/// What the plugin did since the last step.
#[derive(Debug)]
pub enum ProbeEvent {
    HandshakeReceived(HelloResultFrame),
    ResultReceived(ResultFrame),
    Exited { success: bool, code: Option<i32>, diagnostics: PluginDiagnostics },
}

/// What to do next: send the probe request, wait for the plugin to exit, stop
/// the plugin and report a failure, or report the finished probe.
#[derive(Debug)]
pub enum ProbeStep {
    SendProbeRequest(ProbeRun),
    AwaitExit(ProbeRun),
    Stop(PluginProbeError),
    Finish(Result<PluginProbe, PluginProbeError>),
}

/// A probe exchange in progress. Its stage only ever holds frames that passed
/// their checks, so a finished probe has been through both.
#[derive(Debug)]
pub struct ProbeRun {
    stage: ProbeStage,
}

/// The failure for an event that does not belong to the stage.
pub open spec fn out_of_order(r: ProbeStep) -> bool {
    r matches ProbeStep::Stop(PluginProbeError::Protocol(m)) && m@
        == "plugin event arrived out of order"@
}

/// The step a probe takes from `stage` on `event`.
pub open spec fn probe_step_spec(stage: ProbeStage, event: ProbeEvent, r: ProbeStep) -> bool {
    match stage {
        ProbeStage::AwaitingHandshake => match event {
            ProbeEvent::HandshakeReceived(h) => match handshake_problem(h) {
                Some(m) => r matches ProbeStep::Stop(PluginProbeError::InvalidHandshake(x)) && x@
                    == m,
                None => r matches ProbeStep::SendProbeRequest(run) && run.stage()
                    == ProbeStage::AwaitingResult(h),
            },
            _ => out_of_order(r),
        },
        ProbeStage::AwaitingResult(h) => match event {
            ProbeEvent::ResultReceived(res) => match result_problem(res) {
                Some(m) => r matches ProbeStep::Stop(PluginProbeError::InvalidResult(x)) && x@ == m,
                None => r matches ProbeStep::AwaitExit(run) && run.stage()
                    == ProbeStage::AwaitingExit(h, res),
            },
            _ => out_of_order(r),
        },
        ProbeStage::AwaitingExit(h, res) => match event {
            ProbeEvent::Exited { success, code, diagnostics } => r matches ProbeStep::Finish(o)
                && probe_outcome_spec(h, res, success, code, diagnostics, o),
            _ => out_of_order(r),
        },
    }
}

impl ProbeRun {
    #[verifier::type_invariant]
    spec fn checked(self) -> bool {
        stage_checked(self.stage)
    }

    /// The frames accepted so far.
    pub closed spec fn stage(self) -> ProbeStage {
        self.stage
    }

    /// A probe that has received nothing yet.
    pub fn start() -> (r: Self)
        ensures
            r.stage() == ProbeStage::AwaitingHandshake,
    {
        ProbeRun { stage: ProbeStage::AwaitingHandshake }
    }

    /// Takes `event` into account. A probe finishes successfully only from a
    /// stage holding an accepted handshake and an accepted result of status
    /// `ok`, on a successful exit, and reports the handshake's plugin.
    pub fn step(self, event: ProbeEvent) -> (r: ProbeStep)
        ensures
            probe_step_spec(self.stage(), event, r),
            stage_checked(self.stage()),
            r matches ProbeStep::SendProbeRequest(run) ==> stage_checked(run.stage()),
            r matches ProbeStep::AwaitExit(run) ==> stage_checked(run.stage()),
            r matches ProbeStep::Finish(Ok(p)) ==> {
                &&& self.stage() matches ProbeStage::AwaitingExit(h, res)
                &&& handshake_problem(h) is None
                &&& result_problem(res) is None
                &&& res.status@ == "ok"@
                &&& event matches ProbeEvent::Exited { success, .. } && success
                &&& p.name == h.plugin.name
                &&& p.version == h.plugin.version
                &&& supported_of(res.value) == Some(p.supported)
            },
    {
        proof {
            use_type_invariant(&self);
        }
        let ProbeRun { stage } = self;
        match stage {
            ProbeStage::AwaitingHandshake => match event {
                ProbeEvent::HandshakeReceived(h) => match validate_handshake(&h) {
                    Err(e) => ProbeStep::Stop(e),
                    Ok(()) => ProbeStep::SendProbeRequest(
                        ProbeRun { stage: ProbeStage::AwaitingResult(h) },
                    ),
                },
                _ => ProbeStep::Stop(
                    PluginProbeError::Protocol(String::from_str("plugin event arrived out of order")),
                ),
            },
            ProbeStage::AwaitingResult(h) => match event {
                ProbeEvent::ResultReceived(res) => match validate_result(&res) {
                    Err(e) => ProbeStep::Stop(e),
                    Ok(()) => ProbeStep::AwaitExit(
                        ProbeRun { stage: ProbeStage::AwaitingExit(h, res) },
                    ),
                },
                _ => ProbeStep::Stop(
                    PluginProbeError::Protocol(String::from_str("plugin event arrived out of order")),
                ),
            },
            ProbeStage::AwaitingExit(h, res) => match event {
                ProbeEvent::Exited { success, code, diagnostics } => ProbeStep::Finish(
                    probe_outcome(h, res, success, code, diagnostics),
                ),
                _ => ProbeStep::Stop(
                    PluginProbeError::Protocol(String::from_str("plugin event arrived out of order")),
                ),
            },
        }
    }
}

/// A handshake is accepted exactly when it is a protocol-v1 `hello_result`
/// answering `hello`, names the plugin with a non-empty name and version, and
/// lists `probe_build_system` somewhere among its operations.
pub proof fn law_handshake_acceptance(h: HelloResultFrame)
    ensures
        handshake_problem(h) is None <==> {
            &&& h.protocol@ == "prep.plugin/1"@
            &&& h.id@ == "hello"@
            &&& h.frame_type@ == "hello_result"@
            &&& h.plugin.name@.len() > 0
            &&& h.plugin.version@.len() > 0
            &&& exists|i: int|
                0 <= i < h.plugin.operations@.len() && (#[trigger] h.plugin.operations@[i])@
                    == "probe_build_system"@
        },
{
}

/// Where `probe_build_system` stands among the declared operations does not
/// matter: handshakes that differ only in the order of their operations are
/// judged alike.
pub proof fn law_handshake_ignores_operation_order(h1: HelloResultFrame, h2: HelloResultFrame)
    requires
        h1.protocol == h2.protocol,
        h1.id == h2.id,
        h1.frame_type == h2.frame_type,
        h1.plugin.name == h2.plugin.name,
        h1.plugin.version == h2.plugin.version,
        h1.plugin.operations@.to_multiset() == h2.plugin.operations@.to_multiset(),
    ensures
        handshake_problem(h1) == handshake_problem(h2),
{
    broadcast use vstd::seq_lib::group_to_multiset_ensures;

    let o1 = h1.plugin.operations@;
    let o2 = h2.plugin.operations@;
    if declares(o1, "probe_build_system"@) {
        let i = choose|i: int| 0 <= i < o1.len() && o1[i]@ == "probe_build_system"@;
        assert(o1.contains(o1[i]));
        assert(o1.to_multiset().count(o1[i]) > 0);
        assert(o2.to_multiset().count(o1[i]) > 0);
        assert(o2.contains(o1[i]));
        let j = choose|j: int| 0 <= j < o2.len() && o2[j] == o1[i];
        assert(o2[j]@ == "probe_build_system"@);
    }
    if declares(o2, "probe_build_system"@) {
        let j = choose|j: int| 0 <= j < o2.len() && o2[j]@ == "probe_build_system"@;
        assert(o2.contains(o2[j]));
        assert(o2.to_multiset().count(o2[j]) > 0);
        assert(o1.to_multiset().count(o2[j]) > 0);
        assert(o1.contains(o2[j]));
        let i = choose|i: int| 0 <= i < o1.len() && o1[i] == o2[j];
        assert(o1[i]@ == "probe_build_system"@);
    }
}

} // verus!
