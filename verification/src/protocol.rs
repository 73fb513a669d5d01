//! The plugin protocol's frames and the checks a frame passes before its JSON
//! is decoded.
use crate::text::{concat2, concat4, decimal, decimal_text, text_eq};
use vstd::prelude::*;
use vstd::string::*;
use vstd::utf8::*;

verus! {

pub const PROTOCOL_V1: &'static str = "prep.plugin/1";

pub const DEFAULT_MAX_FRAME_BYTES: usize = 1048576;

/// Why a protocol frame could not be decoded.
#[derive(Debug)]
pub enum CodecError {
    EmptyFrame,
    FrameTooLarge { actual: usize, maximum: usize },
    InvalidJson(serde_json::Error),
}

/// Calls `Display::to_string` on a JSON error. Its wording is serde_json's
/// own, so nothing is stated of it.
#[verifier::external_body]
fn json_error_text(error: &serde_json::Error) -> (r: String) {
    error.to_string()
}

impl CodecError {
    /// The error's message.
    pub fn describe(&self) -> (r: String)
        ensures
            match self {
                CodecError::EmptyFrame => r@ == "protocol frame is empty"@,
                CodecError::FrameTooLarge { actual, maximum } => r@ == "protocol frame is "@
                    + decimal(*actual as nat) + " bytes; maximum is "@ + decimal(*maximum as nat)
                    + " bytes"@,
                CodecError::InvalidJson(_) => r@.len() >= 23 && r@.take(23)
                    == "invalid protocol JSON: "@,
            },
    {
        match self {
            CodecError::EmptyFrame => String::from_str("protocol frame is empty"),
            CodecError::FrameTooLarge { actual, maximum } => {
                let a = decimal_text(*actual);
                let m = decimal_text(*maximum);
                let head = concat4("protocol frame is ", a.as_str(), " bytes; maximum is ", m.as_str());
                concat2(head.as_str(), " bytes")
            },
            CodecError::InvalidJson(error) => {
                let detail = json_error_text(error);
                let r = concat2("invalid protocol JSON: ", detail.as_str());
                proof {
                    reveal_strlit("invalid protocol JSON: ");
                    assert(r@.take(23) =~= "invalid protocol JSON: "@);
                }
                r
            },
        }
    }
}

/// `s` without its trailing carriage returns and line feeds.
pub open spec fn trim_line_end(s: Seq<char>) -> Seq<char>
    decreases s.len(),
{
    if s.len() > 0 && (s.last() == '\r' || s.last() == '\n') {
        trim_line_end(s.drop_last())
    } else {
        s
    }
}

/// What checking a frame line against `maximum` bytes gives: the frame text,
/// or why it is refused.
pub open spec fn frame_outcome(line: Seq<char>, maximum: usize, r: Result<&str, CodecError>) -> bool {
    let frame = trim_line_end(line);
    if frame.len() == 0 {
        r matches Err(CodecError::EmptyFrame)
    } else if encode_utf8(frame).len() > maximum {
        r matches Err(CodecError::FrameTooLarge { actual, maximum: m }) && actual
            == encode_utf8(frame).len() && m == maximum
    } else {
        r matches Ok(t) && t@ == frame
    }
}

/// The frame of a protocol line, checked before any JSON parsing: the line
/// without its line ending, non-empty and at most `maximum` bytes.
pub fn frame_text(line: &str, maximum: usize) -> (r: Result<&str, CodecError>)
    ensures
        frame_outcome(line@, maximum, r),
{
    let n = line.unicode_len();
    let mut end = n;
    assert(line@.take(n as int) =~= line@);
    while end > 0
        invariant
            end <= n,
            n == line@.len(),
            trim_line_end(line@) == trim_line_end(line@.take(end as int)),
        ensures
            end <= n,
            trim_line_end(line@) == trim_line_end(line@.take(end as int)),
            end > 0 ==> line@[end - 1] != '\r' && line@[end - 1] != '\n',
        decreases end,
    {
        let c = line.get_char(end - 1);
        if c != '\r' && c != '\n' {
            break;
        }
        assert(line@.take(end as int).drop_last() =~= line@.take(end - 1));
        end = end - 1;
    }
    let frame = line.substring_char(0, end);
    assert(frame@ =~= line@.take(end as int));
    assert(trim_line_end(line@.take(end as int)) == line@.take(end as int)) by {
        if end > 0 {
            assert(line@.take(end as int).last() == line@[end - 1]);
        }
    }
    if end == 0 {
        return Err(CodecError::EmptyFrame);
    }
    let size = frame.as_bytes().len();
    if size > maximum {
        return Err(CodecError::FrameTooLarge { actual: size, maximum });
    }
    Ok(frame)
}

/// The first frame Prep sends a plugin.
#[derive(Debug, Clone, PartialEq, Eq)]
pub struct HelloFrame {
    pub protocol: String,
    pub id: String,
    pub frame_type: String,
    pub prep_version: String,
}

impl HelloFrame {
    /// A `hello` frame of protocol v1.
    pub fn new(id: &str, prep_version: &str) -> (r: Self)
        ensures
            r.protocol@ == PROTOCOL_V1@,
            r.id@ == id@,
            r.frame_type@ == "hello"@,
            r.prep_version@ == prep_version@,
    {
        HelloFrame {
            protocol: String::from_str(PROTOCOL_V1),
            id: String::from_str(id),
            frame_type: String::from_str("hello"),
            prep_version: String::from_str(prep_version),
        }
    }
}

/// A plugin's description of itself.
#[derive(Debug, Clone, PartialEq, Eq)]
pub struct PluginDescriptor {
    pub name: String,
    pub version: String,
    pub operations: Vec<String>,
    pub capabilities: Vec<String>,
}

/// A plugin's answer to `hello`.
#[derive(Debug, Clone, PartialEq, Eq)]
pub struct HelloResultFrame {
    pub protocol: String,
    pub id: String,
    pub frame_type: String,
    pub plugin: PluginDescriptor,
}

/// The error a plugin reports.
#[derive(Debug, Clone, PartialEq, Eq)]
pub struct ProtocolErrorBody {
    pub code: String,
    pub message: String,
    pub retryable: bool,
}

/// A JSON value, as a plugin's result carries it: numbers are kept as their
/// text, and an object's members in order, each key once.
#[derive(Debug, PartialEq, Eq)]
pub enum JsonValue {
    Null,
    Bool(bool),
    Number(String),
    Text(String),
    Array(Vec<JsonValue>),
    Object(Vec<(String, JsonValue)>),
}

/// A plugin's answer to an operation.
#[derive(Debug, PartialEq, Eq)]
pub struct ResultFrame {
    pub protocol: String,
    pub id: String,
    pub frame_type: String,
    pub status: String,
    pub value: Option<JsonValue>,
    pub error: Option<ProtocolErrorBody>,
}

/// Whether a text is the protocol version this model speaks.
pub fn is_protocol_v1(s: &str) -> (r: bool)
    ensures
        r == (s@ == PROTOCOL_V1@),
{
    text_eq(s, PROTOCOL_V1)
}

} // verus!
