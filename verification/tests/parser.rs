use tinynats::nats::commands::Command;
use tinynats::nats::errors::ErrMessages;
use tinynats::nats::parser::parse_nats;

#[test]
fn should_parse_sub_gracefully() {
    assert_eq!(
        Command::Sub {
            subject: "FOO".to_string(),
            sid: 1
        },
        parse_nats("SUB FOO 1\r\n").unwrap()
    )
}

#[test]
fn shouldnt_parse_sub_due_to_unparseable_sid() {
    assert_eq!(
        ErrMessages::UnknownProtocalOperation,
        parse_nats("SUB FOO YOLO\r\n").unwrap_err()
    )
}

#[test]
fn should_parse_pub_gracefully() {
    assert_eq!(
        Command::Pub {
            subject: "CodingChallenge".to_string(),
            payload: "Hello John!".to_string(),
        },
        parse_nats("PUB CodingChallenge 11\r\nHello John!\r\n").unwrap()
    )
}

#[test]
fn should_not_parse_pub_due_to_malformed_payload() {
    assert_eq!(
        ErrMessages::UnknownProtocalOperation,
        parse_nats("PUB CodingChallenge 10\r\nHello John!\r\n").unwrap_err()
    )
}

#[test]
fn should_not_parse_pub_due_to_unparseable_byte() {
    assert_eq!(
        ErrMessages::UnknownProtocalOperation,
        parse_nats("PUB CodingChallenge YOLO\r\nHello John!\r\n").unwrap_err()
    )
}

#[test]
fn should_parse_ping() {
    assert_eq!(
        Command::Ping("PONG\r\n".to_string()),
        parse_nats("PING\r\n").unwrap()
    )
}

#[test]
fn should_parse_connect() {
    assert_eq!(
        Command::Connect("+OK\r\n".to_string()),
        parse_nats("CONNECT {}\r\n").unwrap()
    )
}

#[test]
fn should_parse_unsub() {
    assert_eq!(Command::Unsub(12), parse_nats("UNSUB 12\r\n").unwrap());
}

#[test]
fn should_reject_unknown_command() {
    assert_eq!(
        ErrMessages::UnknownCommand,
        parse_nats("NOPE FOO 1\r\n").unwrap_err()
    );
}

#[test]
fn should_match_verbs_case_insensitively() {
    assert_eq!(
        Command::Sub {
            subject: "Foo".to_string(),
            sid: 2
        },
        parse_nats("sub Foo 2\r\n").unwrap()
    );
    assert_eq!(
        Command::Ping("PONG\r\n".to_string()),
        parse_nats("ping\r\n").unwrap()
    );
}

#[test]
fn should_reject_sub_sid_above_range() {
    assert_eq!(
        ErrMessages::UnknownProtocalOperation,
        parse_nats("SUB FOO 65536\r\n").unwrap_err()
    );
}

#[test]
fn should_report_error_texts() {
    assert_eq!(
        "-ERR 'Unknown Protocol Operation'",
        ErrMessages::UnknownProtocalOperation.message()
    );
    assert_eq!(
        "-ERR 'Unknown Protocol Operation'",
        ErrMessages::UnknownCommand.message()
    );
    assert_eq!("-ERR 'Internal Error'", ErrMessages::InternalError.message());
    assert_eq!(
        "-ERR No Head Element Found",
        ErrMessages::NoHeadElement.message()
    );
}

#[test]
fn should_pass_payload_through_verbatim() {
    // the payload may itself contain a line terminator; only the closing
    // one is framing
    assert_eq!(
        Command::Pub {
            subject: "S".to_string(),
            payload: "a\r\nb".to_string(),
        },
        parse_nats("PUB S 4\r\na\r\nb\r\n").unwrap()
    );
}

#[test]
fn should_keep_trailing_payload_whitespace() {
    assert_eq!(
        Command::Pub {
            subject: "S".to_string(),
            payload: "hi ".to_string(),
        },
        parse_nats("PUB S 3\r\nhi \r\n").unwrap()
    );
}
