//! A minimal key-value server core speaking a Redis-like wire protocol.
//!
//! The crate holds the verified pieces: the wire-format lexer and
//! serializer ([`lexer`]), the one-frame command parser ([`parser`]), the
//! key-value store with lazy expiration ([`db`]), and the command
//! executor ([`app`]). Network plumbing lives outside the library and
//! hands these modules plain values.

pub mod app;
pub mod db;
pub mod lexer;
pub mod parser;
