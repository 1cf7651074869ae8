use tinynats::codec::{CodecEvent, FrameCodec, StepOutcome};
use tinynats::nats::errors::ErrMessages;

/// Drives the codec until it suspends, collecting every event.
fn drain(codec: &mut FrameCodec) -> Vec<CodecEvent> {
    let mut events = Vec::new();
    loop {
        match codec.step() {
            StepOutcome::NeedMoreData => break,
            StepOutcome::Advanced => continue,
            StepOutcome::Event(e) => events.push(e),
        }
    }
    events
}

fn expect_pub(event: &CodecEvent, want_subject: &str, want_payload: &str) {
    match event {
        CodecEvent::PubMessage { subject, payload } => {
            assert_eq!(want_subject, subject);
            assert_eq!(want_payload, payload);
        }
        _ => panic!("expected a finished publication"),
    }
}

#[test]
fn should_decode_one_line() {
    let mut codec = FrameCodec::new();
    codec.feed(b"PING\r\n");
    let events = drain(&mut codec);
    assert_eq!(1, events.len());
    match &events[0] {
        CodecEvent::Line(line) => assert_eq!("PING\r\n", line),
        _ => panic!("expected a line"),
    }
}

#[test]
fn should_suspend_on_partial_line() {
    let mut codec = FrameCodec::new();
    codec.feed(b"PIN");
    assert_eq!(0, drain(&mut codec).len());
    codec.feed(b"G\r\n");
    assert_eq!(1, drain(&mut codec).len());
}

#[test]
fn should_frame_pub_in_one_read() {
    let mut codec = FrameCodec::new();
    codec.feed(b"PUB FOO 5\r\nhello\r\n");
    let events = drain(&mut codec);
    assert_eq!(1, events.len());
    expect_pub(&events[0], "FOO", "hello");
}

#[test]
fn should_frame_pub_split_across_two_reads() {
    let mut codec = FrameCodec::new();
    codec.feed(b"PUB FOO 5\r\nhel");
    assert_eq!(0, drain(&mut codec).len());
    codec.feed(b"lo\r\n");
    let events = drain(&mut codec);
    assert_eq!(1, events.len());
    expect_pub(&events[0], "FOO", "hello");
}

#[test]
fn should_frame_pub_split_across_three_reads() {
    let mut codec = FrameCodec::new();
    let mut events = Vec::new();
    for chunk in [b"PUB FO".as_slice(), b"O 5\r\nhe".as_slice(), b"llo\r\n".as_slice()] {
        codec.feed(chunk);
        events.extend(drain(&mut codec));
    }
    assert_eq!(1, events.len());
    expect_pub(&events[0], "FOO", "hello");
}

#[test]
fn should_frame_pub_split_across_five_reads() {
    let mut codec = FrameCodec::new();
    let mut events = Vec::new();
    let chunks: [&[u8]; 5] = [b"P", b"UB FOO ", b"5\r", b"\nhell", b"o\r\n"];
    for chunk in chunks {
        codec.feed(chunk);
        events.extend(drain(&mut codec));
    }
    assert_eq!(1, events.len());
    expect_pub(&events[0], "FOO", "hello");
}

#[test]
fn should_frame_pub_byte_by_byte() {
    let mut codec = FrameCodec::new();
    let mut events = Vec::new();
    for b in b"PUB FOO 11\r\nHello John!\r\nPING\r\n" {
        codec.feed(&[*b]);
        events.extend(drain(&mut codec));
    }
    assert_eq!(2, events.len());
    expect_pub(&events[0], "FOO", "Hello John!");
    match &events[1] {
        CodecEvent::Line(line) => assert_eq!("PING\r\n", line),
        _ => panic!("expected a line"),
    }
}

#[test]
fn should_keep_payload_bytes_verbatim() {
    // the payload may contain spaces and even a line terminator
    let mut codec = FrameCodec::new();
    codec.feed(b"PUB FOO 9\r\nab \r\ncd e\r\n");
    let events = drain(&mut codec);
    assert_eq!(1, events.len());
    expect_pub(&events[0], "FOO", "ab \r\ncd e");
}

#[test]
fn should_reject_pub_header_without_count() {
    let mut codec = FrameCodec::new();
    codec.feed(b"PUB FOO\r\nPING\r\n");
    let events = drain(&mut codec);
    assert_eq!(2, events.len());
    assert!(matches!(
        events[0],
        CodecEvent::Error(ErrMessages::UnknownProtocalOperation)
    ));
    assert!(matches!(&events[1], CodecEvent::Line(_)));
}

#[test]
fn should_reject_pub_header_with_unreadable_count() {
    let mut codec = FrameCodec::new();
    codec.feed(b"PUB FOO YOLO\r\n");
    let events = drain(&mut codec);
    assert_eq!(1, events.len());
    assert!(matches!(
        events[0],
        CodecEvent::Error(ErrMessages::UnknownProtocalOperation)
    ));
}

#[test]
fn should_reject_pub_with_wrong_declared_length() {
    // five bytes are declared but the payload has eleven: the terminator
    // check fails and no publication is synthesized
    let mut codec = FrameCodec::new();
    codec.feed(b"PUB FOO 5\r\nHello John!\r\n");
    let events = drain(&mut codec);
    assert!(matches!(
        events[0],
        CodecEvent::Error(ErrMessages::UnknownProtocalOperation)
    ));
    assert!(!events
        .iter()
        .any(|e| matches!(e, CodecEvent::PubMessage { .. })));
}

#[test]
fn should_match_pub_keyword_case_insensitively() {
    let mut codec = FrameCodec::new();
    codec.feed(b"pub Foo 2\r\nok\r\n");
    let events = drain(&mut codec);
    assert_eq!(1, events.len());
    expect_pub(&events[0], "Foo", "ok");
}

#[test]
fn should_replace_invalid_bytes_in_command_lines() {
    let mut codec = FrameCodec::new();
    codec.feed(b"SUB F\xffOO 1\r\n");
    let events = drain(&mut codec);
    assert_eq!(1, events.len());
    match &events[0] {
        CodecEvent::Line(line) => assert_eq!("SUB F\u{fffd}OO 1\r\n", line),
        _ => panic!("expected a line"),
    }
}
