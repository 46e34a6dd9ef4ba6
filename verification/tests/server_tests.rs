use respkv::app::{CmdError, ServerState};
use respkv::db::DbStore;
use respkv::lexer::Token;
use respkv::parser::{ParseError, Parser};

fn bulk(s: &str) -> Token {
    Token::BulkString(s.to_string())
}

#[test]
fn ping_without_argument_pongs() {
    let mut state = ServerState::new("master");
    let r = state.handle_command(&[bulk("PING")], 0).unwrap();
    assert_eq!(r, Token::SimpleString("PONG".to_string()));
}

#[test]
fn ping_with_argument_echoes_it() {
    let mut state = ServerState::new("master");
    let r = state.handle_command(&[bulk("PING"), bulk("hello")], 0).unwrap();
    assert_eq!(r, Token::SimpleString("hello".to_string()));
}

#[test]
fn verbs_match_case_insensitively() {
    let mut state = ServerState::new("master");
    let r = state.handle_command(&[bulk("pInG")], 0).unwrap();
    assert_eq!(r, Token::SimpleString("PONG".to_string()));
}

#[test]
fn echo_returns_message_or_empty_bulk() {
    let mut state = ServerState::new("master");
    let r = state.handle_command(&[bulk("ECHO"), bulk("hey")], 0).unwrap();
    assert_eq!(r, Token::SimpleString("hey".to_string()));
    let r = state.handle_command(&[bulk("ECHO")], 0).unwrap();
    assert_eq!(r, Token::BulkString(String::new()));
}

#[test]
fn get_on_a_key_never_set_is_the_null_sentinel() {
    let mut state = ServerState::new("master");
    let r = state.handle_command(&[bulk("GET"), bulk("nope")], 0).unwrap();
    assert_eq!(r, Token::NullBulkString);
}

#[test]
fn set_overwrites_prior_value() {
    let mut state = ServerState::new("master");
    let r = state.handle_command(&[bulk("SET"), bulk("k"), bulk("v1")], 0).unwrap();
    assert_eq!(r, Token::SimpleString("OK".to_string()));
    let r = state.handle_command(&[bulk("SET"), bulk("k"), bulk("v2")], 1).unwrap();
    assert_eq!(r, Token::SimpleString("OK".to_string()));
    let r = state.handle_command(&[bulk("GET"), bulk("k")], 2).unwrap();
    assert_eq!(r, Token::SimpleString("v2".to_string()));
}

#[test]
fn set_with_px_expires_lazily_and_stays_gone() {
    let mut state = ServerState::new("master");
    let r = state
        .handle_command(&[bulk("SET"), bulk("k"), bulk("v"), bulk("PX"), bulk("50")], 1000)
        .unwrap();
    assert_eq!(r, Token::SimpleString("OK".to_string()));
    // Immediately readable, and still readable at the expiry instant
    // itself.
    let r = state.handle_command(&[bulk("GET"), bulk("k")], 1000).unwrap();
    assert_eq!(r, Token::SimpleString("v".to_string()));
    let r = state.handle_command(&[bulk("GET"), bulk("k")], 1050).unwrap();
    assert_eq!(r, Token::SimpleString("v".to_string()));
    // Past the instant the key is absent, and a second read right after
    // is still absent: the binding was purged, not merely hidden.
    let r = state.handle_command(&[bulk("GET"), bulk("k")], 1051).unwrap();
    assert_eq!(r, Token::NullBulkString);
    let r = state.handle_command(&[bulk("GET"), bulk("k")], 1051).unwrap();
    assert_eq!(r, Token::NullBulkString);
}

#[test]
fn disjoint_keys_see_no_cross_talk() {
    // Two connections' commands, serialized into one order, each key
    // keeping its own value.
    let mut state = ServerState::new("master");
    state.handle_command(&[bulk("SET"), bulk("a"), bulk("1")], 0).unwrap();
    state.handle_command(&[bulk("SET"), bulk("b"), bulk("2")], 1).unwrap();
    state.handle_command(&[bulk("SET"), bulk("a"), bulk("3")], 2).unwrap();
    let ra = state.handle_command(&[bulk("GET"), bulk("a")], 3).unwrap();
    let rb = state.handle_command(&[bulk("GET"), bulk("b")], 4).unwrap();
    assert_eq!(ra, Token::SimpleString("3".to_string()));
    assert_eq!(rb, Token::SimpleString("2".to_string()));
}

#[test]
fn info_replication_reports_the_descriptor() {
    let mut state = ServerState::new("master");
    let r = state.handle_command(&[bulk("INFO"), bulk("replication")], 0).unwrap();
    assert_eq!(
        r,
        Token::BulkString(
            "role:master\nmaster_replid:8371b4fb1155b71f4a04d3e1bc3e18c4a990aeeb\nmaster_repl_offset:0"
                .to_string()
        )
    );
}

#[test]
fn command_errors_name_their_cause() {
    let mut state = ServerState::new("master");
    let e = state.handle_command(&[], 0).unwrap_err();
    assert_eq!(e, CmdError::Empty);
    let e = state.handle_command(&[bulk("FLUSH")], 0).unwrap_err();
    assert_eq!(e, CmdError::UnknownVerb);
    let e = state.handle_command(&[bulk("SET"), bulk("k")], 0).unwrap_err();
    assert_eq!(e, CmdError::Operand);
    let e = state.handle_command(&[bulk("GET")], 0).unwrap_err();
    assert_eq!(e, CmdError::Operand);
    let e = state
        .handle_command(&[bulk("SET"), bulk("k"), bulk("v"), bulk("PX"), bulk("soon")], 0)
        .unwrap_err();
    assert_eq!(e, CmdError::BadTtl);
    let e = state
        .handle_command(&[bulk("SET"), bulk("k"), bulk("v"), bulk("PX")], 0)
        .unwrap_err();
    assert_eq!(e, CmdError::Operand);
    let e = state
        .handle_command(&[Token::Integer("1".to_string())], 0)
        .unwrap_err();
    assert_eq!(e, CmdError::Operand);
    let e = state.handle_command(&[bulk("INFO"), bulk("keyspace")], 0).unwrap_err();
    assert_eq!(e, CmdError::Operand);
}

#[test]
fn store_set_get_directly() {
    let mut db = DbStore::new();
    db.set("k", "v", None, 0);
    assert_eq!(db.get("k", 1_000_000), Some("v".to_string()));
    assert_eq!(db.get("other", 0), None);
}

#[test]
fn store_expiry_is_lazy_and_final() {
    let mut db = DbStore::new();
    db.set("k", "v", Some(50), 1000);
    assert_eq!(db.get("k", 1050), Some("v".to_string()));
    assert_eq!(db.get("k", 1051), None);
    assert_eq!(db.get("k", 0), None);
}

#[test]
fn store_set_without_ttl_clears_expiry() {
    let mut db = DbStore::new();
    db.set("k", "v1", Some(10), 0);
    db.set("k", "v2", None, 0);
    assert_eq!(db.get("k", 1_000_000), Some("v2".to_string()));
}

#[test]
fn parser_runs_a_command_end_to_end() {
    let mut state = ServerState::new("master");
    let mut parser = Parser::new("*2\r\n$4\r\nPING\r\n$5\r\nhello\r\n");
    let r = parser.parse(&mut state, 0).unwrap();
    assert_eq!(r, Token::SimpleString("hello".to_string()));
}

#[test]
fn parser_refuses_a_non_array_top_level_frame() {
    let mut state = ServerState::new("master");
    let mut parser = Parser::new("+PING\r\n");
    let e = parser.parse(&mut state, 0).unwrap_err();
    assert_eq!(e, ParseError::NotArray);
}

#[test]
fn parser_reports_empty_input() {
    let mut state = ServerState::new("master");
    let mut parser = Parser::new("");
    let e = parser.parse(&mut state, 0).unwrap_err();
    assert_eq!(e, ParseError::Input);
}

#[test]
fn parser_reports_frame_errors() {
    let mut state = ServerState::new("master");
    let mut parser = Parser::new("*1\r\n$4\rPING\r\n");
    let e = parser.parse(&mut state, 0).unwrap_err();
    assert_eq!(e, ParseError::Frame(respkv::lexer::MyError::Terminator));
}

#[test]
fn parser_passes_command_errors_through() {
    let mut state = ServerState::new("master");
    let mut parser = Parser::new("*1\r\n$5\r\nFLUSH\r\n");
    let e = parser.parse(&mut state, 0).unwrap_err();
    assert_eq!(e, ParseError::Command(CmdError::UnknownVerb));
}

#[test]
fn set_and_get_through_the_parser_and_codec() {
    let mut state = ServerState::new("master");
    let mut parser = Parser::new("*3\r\n$3\r\nSET\r\n$3\r\nkey\r\n$5\r\nvalue\r\n");
    let r = parser.parse(&mut state, 0).unwrap();
    assert_eq!(r.serialize(), "+OK\r\n");
    let mut parser = Parser::new("*2\r\n$3\r\nGET\r\n$3\r\nkey\r\n");
    let r = parser.parse(&mut state, 1).unwrap();
    assert_eq!(r.serialize(), "+value\r\n");
}
