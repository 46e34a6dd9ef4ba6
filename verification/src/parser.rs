//! The command frame parser: reads exactly one top-level frame and
//! hands an array's element list to a command executor.
//!
//! The parser knows nothing of the verbs; the executor is an abstract
//! capability whose behaviour each implementation pins down through
//! [`CommandExecutor::cmd_post`]. Any other top-level frame kind, and
//! any lex failure, is a protocol violation reported as an error.

use vstd::prelude::*;

use crate::app::CmdError;
use crate::lexer::{spec_scan, Lexer, MyError, ScanOut, Token, TokenView};

verus! {

/// A protocol-level failure while reading one command.
#[derive(Debug, Clone, Copy, PartialEq, Eq, Structural)]
pub enum ParseError {
    /// The frame at the head of the input is malformed.
    Frame(MyError),
    /// The input holds no frame at all.
    Input,
    /// The top-level frame is not an array.
    NotArray,
    /// The frame was a well-formed command, and executing it failed.
    Command(CmdError),
}

/// The result of a command execution, as a model value.
pub open spec fn result_view(r: Result<Token, CmdError>) -> Result<TokenView, CmdError> {
    match r {
        Ok(t) => Ok(t.deep_view()),
        Err(e) => Err(e),
    }
}

/// A command executor: whatever interprets one command frame's element
/// list. `cmd_post` pins down what executing does; `exec_ok` is the
/// executor's own validity, preserved across calls.
pub trait CommandExecutor: Sized {
    /// The executor's validity.
    spec fn exec_ok(&self) -> bool;

    /// What executing `cmd` at instant `now_ms` does: how the state
    /// after relates to the state before, and which result comes back.
    spec fn cmd_post(
        pre: Self,
        post: Self,
        cmd: Seq<TokenView>,
        now_ms: u64,
        r: Result<TokenView, CmdError>,
    ) -> bool;

    /// Execute one command frame's element list.
    fn execute(&mut self, command: &[Token], now_ms: u64) -> (r: Result<Token, CmdError>)
        requires
            old(self).exec_ok(),
        ensures
            final(self).exec_ok(),
            Self::cmd_post(*old(self), *final(self), command.deep_view(), now_ms, result_view(r)),
    ;
}

/// The command frame parser over one input buffer.
#[derive(Debug)]
pub struct Parser {
    lexer: Lexer,
}

impl Parser {
    /// The whole character stream.
    pub closed spec fn text(&self) -> Seq<char> {
        self.lexer.text()
    }

    /// How many characters have been consumed.
    pub closed spec fn at(&self) -> int {
        self.lexer.at()
    }

    /// The cursor stands inside the stream.
    pub closed spec fn wf(&self) -> bool {
        self.lexer.wf()
    }

    /// The characters not yet consumed.
    pub open spec fn remaining(&self) -> Seq<char> {
        self.text().skip(self.at())
    }

    pub fn new(input: &str) -> (r: Parser)
        ensures
            r.wf(),
            r.text() == input@,
            r.at() == 0,
    {
        Parser { lexer: Lexer::new(input) }
    }

    /// The next frame, or the protocol error that stands for a missing
    /// or malformed one.
    fn next(&mut self) -> (r: Result<Token, ParseError>)
        requires
            old(self).wf(),
        ensures
            final(self).wf(),
            final(self).text() == old(self).text(),
            match spec_scan(old(self).remaining()) {
                ScanOut::Tok { t, n } => r matches Ok(tok) && tok.deep_view() == t && final(self).at() == old(self).at() + n,
                ScanOut::NoTok => if old(self).remaining().len() == 0 {
                    r == Err::<Token, ParseError>(ParseError::Input)
                } else {
                    r == Err::<Token, ParseError>(ParseError::Frame(MyError::Marker))
                },
                ScanOut::Fail { e } => r == Err::<Token, ParseError>(ParseError::Frame(e)),
            },
    {
        match self.lexer.next() {
            Some(Ok(t)) => Ok(t),
            Some(Err(e)) => Err(ParseError::Frame(e)),
            None => Err(ParseError::Input),
        }
    }

    /// Read exactly one top-level frame. An array's element list goes
    /// to the executor, whose result (success or command error) is the
    /// parser's result; any other frame kind, or a lex failure, is
    /// reported without touching the executor.
    pub fn parse<E: CommandExecutor>(&mut self, executor: &mut E, now_ms: u64) -> (r: Result<
        Token,
        ParseError,
    >)
        requires
            old(self).wf(),
            old(executor).exec_ok(),
        ensures
            final(self).wf(),
            final(self).text() == old(self).text(),
            final(executor).exec_ok(),
            match spec_scan(old(self).remaining()) {
                ScanOut::Tok { t, n } => match t {
                    TokenView::Array(elems) => match r {
                        Ok(tok) => E::cmd_post(
                            *old(executor),
                            *final(executor),
                            elems,
                            now_ms,
                            Ok(tok.deep_view()),
                        ),
                        Err(ParseError::Command(e)) => E::cmd_post(
                            *old(executor),
                            *final(executor),
                            elems,
                            now_ms,
                            Err(e),
                        ),
                        Err(_) => false,
                    },
                    _ => r == Err::<Token, ParseError>(ParseError::NotArray) && *final(executor)
                        == *old(executor),
                },
                ScanOut::NoTok => *final(executor) == *old(executor) && (if old(
                    self,
                ).remaining().len() == 0 {
                    r == Err::<Token, ParseError>(ParseError::Input)
                } else {
                    r == Err::<Token, ParseError>(ParseError::Frame(MyError::Marker))
                }),
                ScanOut::Fail { e } => r == Err::<Token, ParseError>(ParseError::Frame(e))
                    && *final(executor) == *old(executor),
            },
    {
        match self.next() {
            Ok(t) => {
                match t {
                    Token::Array(command) => {
                        proof {
                            let elems = spec_scan(old(self).remaining())->Tok_t->Array_0;
                            assert(command.deep_view().len() == elems.len());
                            assert forall|i: int|
                                0 <= i < elems.len() implies command.deep_view()[i] == elems[i] by {
                            }
                            assert(command.deep_view() =~= elems);
                        }
                        match executor.execute(command.as_slice(), now_ms) {
                            Ok(t2) => Ok(t2),
                            Err(e) => Err(ParseError::Command(e)),
                        }
                    },
                    _ => Err(ParseError::NotArray),
                }
            },
            Err(e) => Err(e),
        }
    }
}

} // verus!
