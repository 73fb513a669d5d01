use prep::protocol::{frame_text, is_protocol_v1, CodecError, HelloFrame, PROTOCOL_V1};

#[test]
fn oversized_frame_is_rejected_before_json_parsing() {
    let error = frame_text("12345", 4).expect_err("frame should be rejected");
    assert!(matches!(
        error,
        CodecError::FrameTooLarge {
            actual: 5,
            maximum: 4
        }
    ));
}

#[test]
fn frame_text_strips_line_endings() {
    assert_eq!(frame_text("{\"a\":1}\r\n", 64).expect("frame"), "{\"a\":1}");
    assert!(matches!(frame_text("\r\n\n", 64), Err(CodecError::EmptyFrame)));
    assert!(matches!(frame_text("", 64), Err(CodecError::EmptyFrame)));
    assert_eq!(frame_text("é\n", 2).expect("two bytes fit"), "é");
    assert!(matches!(
        frame_text("é\n", 1),
        Err(CodecError::FrameTooLarge { actual: 2, maximum: 1 })
    ));
}

#[test]
fn hello_frame_speaks_protocol_v1() {
    let frame = HelloFrame::new("1", "2.0.0-dev");
    assert_eq!(frame.protocol, PROTOCOL_V1);
    assert_eq!(frame.id, "1");
    assert_eq!(frame.frame_type, "hello");
    assert_eq!(frame.prep_version, "2.0.0-dev");
    assert!(is_protocol_v1("prep.plugin/1"));
    assert!(!is_protocol_v1("prep.plugin/2"));
}

#[test]
fn codec_errors_describe_themselves() {
    assert_eq!(CodecError::EmptyFrame.describe(), "protocol frame is empty");
    assert_eq!(
        CodecError::FrameTooLarge { actual: 5, maximum: 4 }.describe(),
        "protocol frame is 5 bytes; maximum is 4 bytes"
    );
    let error = serde_json::from_str::<serde_json::Value>("not-json").expect_err("invalid json");
    assert!(CodecError::InvalidJson(error).describe().starts_with("invalid protocol JSON: "));
}
