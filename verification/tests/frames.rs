//! Frames on a byte stream.

use dd_rust_network_mutex::frames::{
    ends_frame, feed, frame_yield_every, limit_from, max_frame_bytes, max_response_frame_bytes,
    oversized_message, oversized_response_message, trim_response_frame, FrameStep,
    DEFAULT_FRAME_YIELD_EVERY, DEFAULT_MAX_FRAME_BYTES, DEFAULT_MAX_RESPONSE_FRAME_BYTES,
};

/// Reads one frame from chunks, up to the end of the stream.
fn read_frame(chunks: &[&[u8]], max_bytes: usize) -> (Vec<u8>, FrameStep) {
    let mut buf = Vec::new();
    for chunk in chunks {
        let (_, step) = feed(&mut buf, chunk, max_bytes);
        if step != FrameStep::Incomplete {
            return (buf, step);
        }
    }
    (buf, FrameStep::Incomplete)
}

fn text_of(value: &serde_json::Value, field: &str) -> String {
    value.get(field).and_then(|v| v.as_str()).expect("a text").to_string()
}

#[test]
fn response_frame_reader_preserves_split_utf8_and_trims_crlf() {
    let mut frame = "{\"type\":\"error\",\"uuid\":\"u1\",\"error\":\"hello 😊\"}".as_bytes().to_vec();
    frame.extend_from_slice(b"\r\n");

    let emoji = "😊".as_bytes();
    let split = frame
        .windows(emoji.len())
        .position(|w| w == emoji)
        .expect("emoji bytes should be present")
        + 1;
    let (buf, step) = read_frame(&[&frame[..split], &frame[split..]], 1024);
    assert_eq!(step, FrameStep::Complete);
    assert_eq!(buf, frame);

    let resp: serde_json::Value = serde_json::from_slice(trim_response_frame(&buf)).unwrap();
    assert_eq!(text_of(&resp, "type"), "error");
    assert_eq!(text_of(&resp, "uuid"), "u1");
    assert_eq!(text_of(&resp, "error"), "hello 😊");
}

#[test]
fn response_frame_reader_rejects_oversized_unterminated_frame() {
    let bytes = [b'x'; 128];
    let chunks: Vec<&[u8]> = bytes.chunks(16).collect();
    let (buf, step) = read_frame(&chunks, 32);
    assert_eq!(step, FrameStep::Oversized);
    assert_eq!(buf.len(), 32);
}

#[test]
fn response_frame_reader_rejects_mid_frame_eof() {
    let (buf, step) = read_frame(&[b"{\"type\":\"ok\""], 1024);
    assert_eq!(step, FrameStep::Incomplete);
    assert!(ends_frame(&buf));

    assert!(serde_json::from_slice::<serde_json::Value>(trim_response_frame(&buf)).is_err());
}

#[test]
fn response_frame_reader_accepts_final_response_without_newline() {
    let frame = b"{\"type\":\"ok\",\"uuid\":\"u-final\"}";
    let (buf, step) = read_frame(&[frame], 1024);
    assert_eq!(step, FrameStep::Incomplete);
    assert!(ends_frame(&buf));
    assert_eq!(trim_response_frame(&buf), frame.as_slice());

    let resp: serde_json::Value = serde_json::from_slice(trim_response_frame(&buf)).unwrap();
    assert_eq!(text_of(&resp, "type"), "ok");
    assert_eq!(text_of(&resp, "uuid"), "u-final");
}

#[test]
fn a_chunk_may_hold_more_than_a_frame() {
    let mut buf = Vec::new();
    assert_eq!(feed(&mut buf, b"one\ntwo\n", 16), (4, FrameStep::Complete));
    assert_eq!(buf, b"one\n");
    buf.clear();
    assert_eq!(feed(&mut buf, b"two\n", 16), (4, FrameStep::Complete));
    assert_eq!(buf, b"two\n");
}

#[test]
fn a_frame_may_be_as_long_as_the_limit() {
    let mut buf = Vec::new();
    assert_eq!(feed(&mut buf, b"abc\n", 4), (4, FrameStep::Complete));
    buf.clear();
    assert_eq!(feed(&mut buf, b"abcd\n", 4), (5, FrameStep::Oversized));
    assert!(buf.is_empty());
    assert_eq!(feed(&mut buf, b"abcd", 4), (4, FrameStep::Incomplete));
    assert_eq!(feed(&mut buf, b"e", 4), (1, FrameStep::Oversized));
    assert_eq!(buf, b"abcd");
}

#[test]
fn cutting_a_stream_elsewhere_gives_the_same_frame() {
    let whole = b"{\"a\":1}\r\n";
    let (expected, _) = read_frame(&[whole], 64);
    for cut in 0..whole.len() {
        let (buf, step) = read_frame(&[&whole[..cut], &whole[cut..]], 64);
        assert_eq!(buf, expected);
        assert_eq!(step, FrameStep::Complete);
    }
}

#[test]
fn line_ends_are_trimmed() {
    assert_eq!(trim_response_frame(b"a\r\n"), b"a");
    assert_eq!(trim_response_frame(b"a\n\r\n\n"), b"a");
    assert_eq!(trim_response_frame(b"\r\n"), b"");
    assert_eq!(trim_response_frame(b"a b"), b"a b");
    assert!(!ends_frame(&Vec::new()));
}

#[test]
fn limits_come_from_settings() {
    assert_eq!(limit_from(Some(" 12 "), 7), 12);
    assert_eq!(limit_from(Some("0"), 7), 7);
    assert_eq!(limit_from(Some("-1"), 7), 7);
    assert_eq!(limit_from(Some("99999999999999999999999"), 7), 7);
    assert_eq!(limit_from(None, 7), 7);
    assert_eq!(max_frame_bytes(None), DEFAULT_MAX_FRAME_BYTES);
    assert_eq!(max_frame_bytes(Some("5")), 5);
    assert_eq!(frame_yield_every(None), DEFAULT_FRAME_YIELD_EVERY);
    assert_eq!(frame_yield_every(Some("3")), 3);
    assert_eq!(max_response_frame_bytes(None, None), DEFAULT_MAX_RESPONSE_FRAME_BYTES);
    assert_eq!(max_response_frame_bytes(Some("9"), Some("8")), 9);
    assert_eq!(max_response_frame_bytes(None, Some("8")), 8);
}

#[test]
fn an_oversized_frame_is_named() {
    assert_eq!(oversized_message(32), "frame exceeds 32 bytes");
    assert_eq!(oversized_response_message(32), "response frame exceeds 32 bytes");
}
