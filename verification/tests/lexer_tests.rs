use respkv::lexer::{Lexer, MyError, Token};

#[test]
fn test_lexer_string() {
    let mut lexer = Lexer::new("+OK\r\n:123\r\n");
    let ret = lexer.next();
    assert!(ret.is_some());
    let ret = ret.unwrap();
    assert!(ret.is_ok());
    let ret = ret.unwrap();
    assert_eq!(ret, Token::SimpleString("OK".to_string()));

    let ret = lexer.next();
    assert!(ret.is_some());
    let ret = ret.unwrap();
    assert!(ret.is_ok());
    let ret = ret.unwrap();

    assert_eq!(ret, Token::Integer("123".to_string()));
}

#[test]
fn test_lexer_string_failed() {
    let mut lexer = Lexer::new("+OK\r:123\r\n");
    let ret = lexer.next();
    assert!(ret.is_some());
    let ret = ret.unwrap();
    assert!(ret.is_err());
}

#[test]
fn test_lexer_number() {
    let mut lexer = Lexer::new(":123\r\n");
    let ret = lexer.next();
    assert!(ret.is_some());
    let ret = ret.unwrap();
    assert!(ret.is_ok());
    let ret = ret.unwrap();

    assert_eq!(ret, Token::Integer("123".to_string()));
}

#[test]
fn test_lexer_array() {
    let mut lexer = Lexer::new("*2\r\n:123\r\n+hello\r\n");
    let ret = lexer.next();
    assert!(ret.is_some());
    let ret = ret.unwrap();
    assert!(ret.is_ok());
    let ret = ret.unwrap();

    assert_eq!(
        ret,
        Token::Array(vec![
            Token::Integer("123".into()),
            Token::SimpleString("hello".into())
        ])
    )
}

#[test]
fn test_bulk_string() {
    let mut lexer = Lexer::new("$5\r\nhello\r\n");
    let ret = lexer.next();
    assert!(ret.is_some());
    let ret = ret.unwrap();
    assert!(ret.is_ok());
    let ret = ret.unwrap();

    assert_eq!(ret, Token::BulkString("hello".into()))
}

#[test]
fn malformed_terminator_is_a_terminator_error() {
    // A carriage return not followed by a line feed fails with the
    // terminator error, not some other kind.
    let mut lexer = Lexer::new("+OK\r:123\r\n");
    let ret = lexer.next().unwrap();
    assert_eq!(ret.unwrap_err(), MyError::Terminator);
}

#[test]
fn empty_input_ends_the_stream() {
    let mut lexer = Lexer::new("");
    assert!(lexer.next().is_none());
}

#[test]
fn garbage_marker_is_a_marker_error() {
    let mut lexer = Lexer::new("?what\r\n");
    let ret = lexer.next().unwrap();
    assert_eq!(ret.unwrap_err(), MyError::Marker);
}

#[test]
fn missing_payload_is_a_payload_error() {
    let mut lexer = Lexer::new("+\r\n");
    let ret = lexer.next().unwrap();
    assert_eq!(ret.unwrap_err(), MyError::Payload);
}

#[test]
fn bulk_string_count_must_be_satisfied() {
    // Five bytes declared, three present: the declared count cannot be
    // satisfied.
    let mut lexer = Lexer::new("$5\r\nabc\r\n");
    let ret = lexer.next().unwrap();
    assert_eq!(ret.unwrap_err(), MyError::Payload);
}

#[test]
fn array_count_must_be_numeric() {
    let mut lexer = Lexer::new("*x\r\n:1\r\n");
    let ret = lexer.next().unwrap();
    assert_eq!(ret.unwrap_err(), MyError::Count);
}

#[test]
fn huge_count_is_refused() {
    let mut lexer = Lexer::new("$99999999999999999999999999\r\nhello\r\n");
    let ret = lexer.next().unwrap();
    assert_eq!(ret.unwrap_err(), MyError::Count);
}

#[test]
fn unicode_alphanumerics_are_payload() {
    // The payload run is decided by char::is_alphanumeric, which
    // accepts letters beyond ASCII.
    let mut lexer = Lexer::new("+h\u{e9}llo\r\n");
    let ret = lexer.next().unwrap().unwrap();
    assert_eq!(ret, Token::SimpleString("h\u{e9}llo".to_string()));
}

#[test]
fn payload_run_stops_at_non_alphanumeric() {
    // '!' ends the run; since it is not a terminator, the frame fails.
    let mut lexer = Lexer::new("+ab!\r\n");
    let ret = lexer.next().unwrap();
    assert_eq!(ret.unwrap_err(), MyError::Terminator);
}

#[test]
fn bulk_string_extra_alphanumerics_are_dropped() {
    // The declared length takes three characters; the trailing run is
    // discarded before the terminator.
    let mut lexer = Lexer::new("$3\r\nabcde\r\n");
    let ret = lexer.next().unwrap().unwrap();
    assert_eq!(ret, Token::BulkString("abc".to_string()));
}

#[test]
fn terminator_accepts_extra_line_feeds() {
    // One carriage return, then a maximal run of line feeds.
    let mut lexer = Lexer::new("+OK\r\n\n:1\r\n");
    assert_eq!(lexer.next().unwrap().unwrap(), Token::SimpleString("OK".to_string()));
    assert_eq!(lexer.next().unwrap().unwrap(), Token::Integer("1".to_string()));
    assert!(lexer.next().is_none());
}

#[test]
fn serialize_simple_frames() {
    assert_eq!(Token::SimpleString("OK".into()).serialize(), "+OK\r\n");
    assert_eq!(Token::SimpleError("bad".into()).serialize(), "-bad\r\n");
    assert_eq!(Token::Integer("123".into()).serialize(), ":123\r\n");
    assert_eq!(Token::BulkString("hello".into()).serialize(), "$5\r\nhello\r\n");
    assert_eq!(Token::NullBulkString.serialize(), "$-1\r\n");
    assert_eq!(Token::NullArray.serialize(), "*-1\r\n");
    assert_eq!(Token::Null.serialize(), "_\r\n");
    assert_eq!(Token::Boolean(true).serialize(), "#t\r\n");
    assert_eq!(Token::Boolean(false).serialize(), "#f\r\n");
    assert_eq!(Token::Double("3.5x".into()).serialize(), ",3.5x\r\n");
    assert_eq!(Token::BigNumber("42".into()).serialize(), "(42\r\n");
    assert_eq!(Token::BulkError("oops".into()).serialize(), "!4\r\noops\r\n");
}

#[test]
fn serialize_compound_frames() {
    let arr = Token::Array(vec![
        Token::Integer("123".into()),
        Token::SimpleString("hello".into()),
    ]);
    assert_eq!(arr.serialize(), "*2\r\n:123\r\n+hello\r\n");
    let map = Token::MapFrame(vec![("k".to_string(), "v".to_string())]);
    assert_eq!(map.serialize(), "%1\r\nk\r\nv\r\n");
    let set = Token::SetFrame(vec!["a".to_string(), "b".to_string()]);
    assert_eq!(set.serialize(), "~2\r\na\r\nb\r\n");
}

#[test]
fn round_trip_scalars() {
    // Serializing then re-parsing a value built from ASCII
    // alphanumeric payloads yields an equal value.
    let cases = vec![
        Token::SimpleString("PONG".to_string()),
        Token::Integer("123".to_string()),
        Token::BulkString("hello2".to_string()),
    ];
    for t in cases {
        let bytes = t.serialize();
        let mut lexer = Lexer::new(&bytes);
        let back = lexer.next().unwrap().unwrap();
        assert_eq!(back, t);
        assert!(lexer.next().is_none());
    }
}

#[test]
fn round_trip_array() {
    let t = Token::Array(vec![
        Token::Integer("7".to_string()),
        Token::SimpleString("abc".to_string()),
        Token::Array(vec![Token::BulkString("xy9".to_string())]),
    ]);
    let bytes = t.serialize();
    let mut lexer = Lexer::new(&bytes);
    let back = lexer.next().unwrap().unwrap();
    assert_eq!(back, t);
    assert!(lexer.next().is_none());
}
