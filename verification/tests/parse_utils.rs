use tinynats::nats::parse_utils::{
    parse_u16, parse_u64, parse_usize, split_data_by_crlf, split_data_by_space, strip_crlf_end,
    trim, trim_end, u64_to_string,
};

#[test]
fn should_split_ping_correctly() {
    assert_eq!(
        ("PING\r\n".to_string(), "".to_string()),
        split_data_by_space("PING\r\n").unwrap()
    );
}

#[test]
fn should_split_correct_correctly() {
    assert_eq!(
        ("CONNECT".to_string(), "{} \r\n".to_string()),
        split_data_by_space("CONNECT {} \r\n").unwrap()
    );
}

#[test]
fn should_split_sub_correctly() {
    assert_eq!(
        ("SUB".to_string(), "FOO 1\r\n".to_string()),
        split_data_by_space("SUB FOO 1\r\n").unwrap()
    );
}

#[test]
fn should_split_pub_correctly() {
    assert_eq!(
        (
            "PUB".to_string(),
            "CodingChallenge 11\r\nHello John!\r\n".to_string()
        ),
        split_data_by_space("PUB CodingChallenge 11\r\nHello John!\r\n").unwrap()
    );
}

#[test]
fn should_split_data_by_crlf() {
    assert_eq!(
        (11.to_string(), "Hello John!".to_string()),
        split_data_by_crlf("11\r\nHello John!\r\n").unwrap()
    );
}

#[test]
fn should_split_empty_input_by_space() {
    assert_eq!(
        ("".to_string(), "".to_string()),
        split_data_by_space("").unwrap()
    );
}

#[test]
fn should_keep_later_crlf_pieces_space_joined() {
    // the part after the first terminator is re-joined with spaces
    assert_eq!(
        ("5".to_string(), "a b".to_string()),
        split_data_by_crlf("5\r\na\r\nb\r\n").unwrap()
    );
}

#[test]
fn should_strip_all_trailing_terminators() {
    assert_eq!("PING", strip_crlf_end("PING\r\n\r\n"));
    assert_eq!("PING", strip_crlf_end("PING"));
    assert_eq!("", strip_crlf_end("\r\n"));
}

#[test]
fn should_trim_ascii_whitespace() {
    assert_eq!("x y", trim("  x y \t\r\n"));
    assert_eq!(" x", trim_end(" x "));
}

#[test]
fn should_parse_decimal_numbers() {
    assert_eq!(Some(0), parse_u16("0"));
    assert_eq!(Some(1), parse_u16("+1"));
    assert_eq!(Some(65535), parse_u16("65535"));
    assert_eq!(None, parse_u16("65536"));
    assert_eq!(None, parse_u16(""));
    assert_eq!(None, parse_u16("+"));
    assert_eq!(None, parse_u16("1 2"));
    assert_eq!(None, parse_u16("-1"));
    assert_eq!(Some(7), parse_usize("007"));
    assert_eq!(Some(u64::MAX), parse_u64("18446744073709551615"));
    assert_eq!(None, parse_u64("18446744073709551616"));
}

#[test]
fn should_format_decimal_numbers() {
    assert_eq!("0", u64_to_string(0));
    assert_eq!("12345", u64_to_string(12345));
    assert_eq!("65535", u64_to_string(65535));
}
