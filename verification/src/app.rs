//! The command executor: interprets a command frame's element list
//! against the store and produces a response frame.
//!
//! Every operation is a function of the state, the element list and the
//! current instant; what each command does is written down once, in
//! [`dispatch`], and the executor is proved to follow it.

use vstd::prelude::*;

use crate::db::{is_expired, spec_expiry, DbStore, EntryModel};
use crate::lexer::{
    all_ascii_digits, dec_str, dec_val, lemma_dec_val_prefix, push_dec_u64, Token, TokenView,
};

verus! {

/// A command-level failure.
#[derive(Debug, Clone, Copy, PartialEq, Eq, Structural)]
pub enum CmdError {
    /// The command array is empty.
    Empty,
    /// The verb is not one the server implements.
    UnknownVerb,
    /// An operand is missing, of the wrong frame kind, or not among the
    /// accepted forms.
    Operand,
    /// The millisecond count after `PX` is missing, not numeric, or too
    /// large.
    BadTtl,
}

/// The model of the server state.
#[verifier::ext_equal]
pub struct StateModel {
    /// The store's contents.
    pub db: Map<Seq<char>, EntryModel>,
    /// The reported replication role.
    pub role: Seq<char>,
    /// The reported replication id.
    pub master_replid: Seq<char>,
    /// The reported replication offset.
    pub master_repl_offset: u64,
}

/// The characters are equal up to lowering an ASCII capital.
pub open spec fn lower_eq_char(a: char, b: char) -> bool {
    a == b || (65 <= a as u32 && a as u32 <= 90 && a as u32 + 32 == b as u32)
}

/// `s` matches the ASCII-lowercase word `w`, ignoring ASCII case.
pub open spec fn matches_verb(s: Seq<char>, w: Seq<char>) -> bool {
    s.len() == w.len() && forall|i: int| 0 <= i < s.len() ==> lower_eq_char(s[i], w[i])
}

/// A usable time to live: a non-empty string of ASCII decimal digits
/// whose value fits in 64 bits — exactly the strings
/// `str::parse::<u64>` accepts.
pub open spec fn ttl_ok(s: Seq<char>) -> bool {
    s.len() > 0 && all_ascii_digits(s) && dec_val(s) <= u64::MAX
}

/// The replication descriptor text.
pub open spec fn info_text(pre: StateModel) -> Seq<char> {
    "role:"@ + pre.role + "\nmaster_replid:"@ + pre.master_replid + "\nmaster_repl_offset:"@
        + dec_str(pre.master_repl_offset as nat)
}

/// `PING [message]`: the message back as a simple string, or `PONG`.
pub open spec fn spec_ping(pre: StateModel, cmd: Seq<TokenView>) -> (StateModel, Result<
    TokenView,
    CmdError,
>) {
    if cmd.len() == 1 {
        (pre, Ok(TokenView::SimpleString("PONG"@)))
    } else {
        match cmd[1] {
            TokenView::BulkString(m) => (pre, Ok(TokenView::SimpleString(m))),
            _ => (pre, Err(CmdError::Operand)),
        }
    }
}

/// `ECHO [message]`: the message back as a simple string, or an empty
/// bulk string.
pub open spec fn spec_echo(pre: StateModel, cmd: Seq<TokenView>) -> (StateModel, Result<
    TokenView,
    CmdError,
>) {
    if cmd.len() == 1 {
        (pre, Ok(TokenView::BulkString(Seq::empty())))
    } else {
        match cmd[1] {
            TokenView::BulkString(m) => (pre, Ok(TokenView::SimpleString(m))),
            _ => (pre, Err(CmdError::Operand)),
        }
    }
}

/// `SET key value [PX milliseconds]`: bind the key, replacing any prior
/// binding; with `PX`, schedule expiry that many milliseconds after
/// `now_ms`. Anything else after the value is refused. Operands past
/// the millisecond count are ignored.
pub open spec fn spec_set(pre: StateModel, cmd: Seq<TokenView>, now_ms: u64) -> (StateModel, Result<
    TokenView,
    CmdError,
>) {
    if cmd.len() < 3 {
        (pre, Err(CmdError::Operand))
    } else {
        match (cmd[1], cmd[2]) {
            (TokenView::BulkString(k), TokenView::BulkString(v)) => {
                if cmd.len() == 3 {
                    (
                        StateModel {
                            db: pre.db.insert(k, EntryModel { value: v, expires_at: None }),
                            ..pre
                        },
                        Ok(TokenView::SimpleString("OK"@)),
                    )
                } else {
                    match cmd[3] {
                        TokenView::BulkString(px) => {
                            if matches_verb(px, "px"@) {
                                if cmd.len() < 5 {
                                    (pre, Err(CmdError::Operand))
                                } else {
                                    match cmd[4] {
                                        TokenView::BulkString(t) => {
                                            if ttl_ok(t) {
                                                (
                                                    StateModel {
                                                        db: pre.db.insert(
                                                            k,
                                                            EntryModel {
                                                                value: v,
                                                                expires_at: spec_expiry(
                                                                    Some(dec_val(t) as u64),
                                                                    now_ms,
                                                                ),
                                                            },
                                                        ),
                                                        ..pre
                                                    },
                                                    Ok(TokenView::SimpleString("OK"@)),
                                                )
                                            } else {
                                                (pre, Err(CmdError::BadTtl))
                                            }
                                        },
                                        _ => (pre, Err(CmdError::BadTtl)),
                                    }
                                }
                            } else {
                                (pre, Err(CmdError::Operand))
                            }
                        },
                        _ => (pre, Err(CmdError::Operand)),
                    }
                }
            },
            _ => (pre, Err(CmdError::Operand)),
        }
    }
}

/// `GET key`: the stored value as a simple string if present and
/// unexpired; absent otherwise, purging a binding whose expiry has
/// passed. Absence is the null bulk string, never an error.
pub open spec fn spec_get(pre: StateModel, cmd: Seq<TokenView>, now_ms: u64) -> (StateModel, Result<
    TokenView,
    CmdError,
>) {
    if cmd.len() < 2 {
        (pre, Err(CmdError::Operand))
    } else {
        match cmd[1] {
            TokenView::BulkString(k) => {
                if !pre.db.contains_key(k) {
                    (pre, Ok(TokenView::NullBulkString))
                } else if is_expired(pre.db[k], now_ms) {
                    (StateModel { db: pre.db.remove(k), ..pre }, Ok(TokenView::NullBulkString))
                } else {
                    (pre, Ok(TokenView::SimpleString(pre.db[k].value)))
                }
            },
            _ => (pre, Err(CmdError::Operand)),
        }
    }
}

/// `INFO replication`: the static replication descriptor.
pub open spec fn spec_info(pre: StateModel, cmd: Seq<TokenView>) -> (StateModel, Result<
    TokenView,
    CmdError,
>) {
    if cmd.len() < 2 {
        (pre, Err(CmdError::Operand))
    } else {
        match cmd[1] {
            TokenView::BulkString(which) => {
                if which == "replication"@ {
                    (pre, Ok(TokenView::BulkString(info_text(pre))))
                } else {
                    (pre, Err(CmdError::Operand))
                }
            },
            _ => (pre, Err(CmdError::Operand)),
        }
    }
}

/// One command, start to finish: dispatch on the first element, which
/// must be a bulk string whose verb matches ignoring ASCII case.
pub open spec fn dispatch(pre: StateModel, cmd: Seq<TokenView>, now_ms: u64) -> (StateModel, Result<
    TokenView,
    CmdError,
>) {
    if cmd.len() == 0 {
        (pre, Err(CmdError::Empty))
    } else {
        match cmd[0] {
            TokenView::BulkString(verb) => {
                if matches_verb(verb, "ping"@) {
                    spec_ping(pre, cmd)
                } else if matches_verb(verb, "echo"@) {
                    spec_echo(pre, cmd)
                } else if matches_verb(verb, "set"@) {
                    spec_set(pre, cmd, now_ms)
                } else if matches_verb(verb, "get"@) {
                    spec_get(pre, cmd, now_ms)
                } else if matches_verb(verb, "info"@) {
                    spec_info(pre, cmd)
                } else {
                    (pre, Err(CmdError::UnknownVerb))
                }
            },
            _ => (pre, Err(CmdError::Operand)),
        }
    }
}

/// An executable result agrees with a spec-level one.
pub open spec fn result_matches(r: Result<Token, CmdError>, res: Result<TokenView, CmdError>) -> bool {
    match (r, res) {
        (Ok(t), Ok(tv)) => t.deep_view() == tv,
        (Err(e1), Err(e2)) => e1 == e2,
        _ => false,
    }
}

/// Whether `s` matches the ASCII-lowercase word `w`, ignoring ASCII
/// case.
fn verb_matches(s: &String, w: &str) -> (r: bool)
    ensures
        r == matches_verb(s@, w@),
{
    let n = s.as_str().unicode_len();
    if n != w.unicode_len() {
        return false;
    }
    let mut i: usize = 0;
    while i < n
        invariant
            n == s@.len() == w@.len(),
            0 <= i <= n,
            forall|j: int| 0 <= j < i ==> lower_eq_char(s@[j], w@[j]),
        decreases n - i,
    {
        let a = s.as_str().get_char(i);
        let b = w.get_char(i);
        let au = a as u32;
        let bu = b as u32;
        if !(au == bu || (65 <= au && au <= 90 && au + 32 == bu)) {
            return false;
        }
        i = i + 1;
    }
    true
}

/// Read a time to live: the value of a non-empty string of ASCII
/// decimal digits, or nothing exactly where `str::parse::<u64>` fails.
fn parse_u64(s: &String) -> (r: Option<u64>)
    ensures
        ttl_ok(s@) ==> r == Some(dec_val(s@) as u64),
        !ttl_ok(s@) ==> r is None,
{
    let n = s.as_str().unicode_len();
    if n == 0 {
        return None;
    }
    let mut acc: u64 = 0;
    let mut i: usize = 0;
    while i < n
        invariant
            n == s@.len(),
            0 <= i <= n,
            forall|q: int| 0 <= q < i ==> crate::lexer::is_ascii_digit(s@[q]),
            acc == dec_val(s@.take(i as int)),
        decreases n - i,
    {
        let c = s.as_str().get_char(i);
        let u = c as u32;
        if u < 48 || u > 57 {
            return None;
        }
        let d = (u - 48) as u64;
        if acc > (u64::MAX - d) / 10 {
            proof {
                assert(s@.take(i + 1).drop_last() =~= s@.take(i as int));
                assert(s@.take(i + 1).last() == s@[i as int]);
                assert(dec_val(s@.take(i + 1)) == acc * 10 + d);
                assert(acc * 10 + d > u64::MAX) by (nonlinear_arith)
                    requires
                        acc > (u64::MAX - d) / 10,
                        d <= 9,
                ;
                lemma_dec_val_prefix(s@, i + 1);
            }
            return None;
        }
        proof {
            assert(acc * 10 + d <= u64::MAX) by (nonlinear_arith)
                requires
                    acc <= (u64::MAX - d) / 10,
                    0 <= d,
            ;
            assert(s@.take(i + 1).drop_last() =~= s@.take(i as int));
            assert(s@.take(i + 1).last() == s@[i as int]);
        }
        acc = acc * 10 + d;
        i = i + 1;
    }
    proof {
        assert(s@.take(n as int) =~= s@);
    }
    Some(acc)
}

/// The server: the store plus the static replication descriptor
/// fields.
#[derive(Debug)]
pub struct ServerState {
    db: DbStore,
    role: String,
    master_replid: String,
    master_repl_offset: u64,
}

impl View for ServerState {
    type V = StateModel;

    closed spec fn view(&self) -> StateModel {
        StateModel {
            db: self.db@,
            role: self.role@,
            master_replid: self.master_replid@,
            master_repl_offset: self.master_repl_offset,
        }
    }
}

impl ServerState {
    /// The store inside is well formed.
    pub closed spec fn wf(&self) -> bool {
        self.db.wf()
    }

    /// A fresh server with the given role, an empty store, and the
    /// fixed replication descriptor.
    pub fn new(role: &str) -> (r: Self)
        ensures
            r.wf(),
            r@.db == Map::<Seq<char>, EntryModel>::empty(),
            r@.role == role@,
            r@.master_replid == "8371b4fb1155b71f4a04d3e1bc3e18c4a990aeeb"@,
            r@.master_repl_offset == 0,
    {
        ServerState {
            db: DbStore::new(),
            role: role.to_owned(),
            master_replid: "8371b4fb1155b71f4a04d3e1bc3e18c4a990aeeb".to_owned(),
            master_repl_offset: 0,
        }
    }

    /// Execute one command frame's element list at instant `now_ms`:
    /// exactly what `dispatch` says, for every input.
    pub fn handle_command(&mut self, command: &[Token], now_ms: u64) -> (r: Result<Token, CmdError>)
        requires
            old(self).wf(),
        ensures
            final(self).wf(),
            ({
                let (s2, res) = dispatch(old(self)@, command.deep_view(), now_ms);
                final(self)@ == s2 && result_matches(r, res)
            }),
    {
        if command.len() == 0 {
            return Err(CmdError::Empty);
        }
        proof {
            assert(command.deep_view()[0] == command@[0].deep_view());
        }
        match &command[0] {
            Token::BulkString(verb) => {
                if verb_matches(verb, "ping") {
                    self.ping_impl(command)
                } else if verb_matches(verb, "echo") {
                    self.echo_impl(command)
                } else if verb_matches(verb, "set") {
                    self.set_impl(command, now_ms)
                } else if verb_matches(verb, "get") {
                    self.get_impl(command, now_ms)
                } else if verb_matches(verb, "info") {
                    self.info_impl(command)
                } else {
                    Err(CmdError::UnknownVerb)
                }
            },
            _ => Err(CmdError::Operand),
        }
    }

    /// The `PING` arm.
    fn ping_impl(&mut self, command: &[Token]) -> (r: Result<Token, CmdError>)
        requires
            old(self).wf(),
            command@.len() >= 1,
        ensures
            final(self).wf(),
            final(self)@ == old(self)@,
            ({
                let (s2, res) = spec_ping(old(self)@, command.deep_view());
                final(self)@ == s2 && result_matches(r, res)
            }),
    {
        if command.len() == 1 {
            return Ok(Token::SimpleString("PONG".to_owned()));
        }
        proof {
            assert(command.deep_view()[1] == command@[1].deep_view());
        }
        match &command[1] {
            Token::BulkString(m) => Ok(Token::SimpleString(m.clone())),
            _ => Err(CmdError::Operand),
        }
    }

    /// The `ECHO` arm.
    fn echo_impl(&mut self, command: &[Token]) -> (r: Result<Token, CmdError>)
        requires
            old(self).wf(),
            command@.len() >= 1,
        ensures
            final(self).wf(),
            final(self)@ == old(self)@,
            ({
                let (s2, res) = spec_echo(old(self)@, command.deep_view());
                final(self)@ == s2 && result_matches(r, res)
            }),
    {
        if command.len() == 1 {
            return Ok(Token::BulkString(String::new()));
        }
        proof {
            assert(command.deep_view()[1] == command@[1].deep_view());
        }
        match &command[1] {
            Token::BulkString(m) => Ok(Token::SimpleString(m.clone())),
            _ => Err(CmdError::Operand),
        }
    }

    /// The `SET` arm.
    fn set_impl(&mut self, command: &[Token], now_ms: u64) -> (r: Result<Token, CmdError>)
        requires
            old(self).wf(),
            command@.len() >= 1,
        ensures
            final(self).wf(),
            ({
                let (s2, res) = spec_set(old(self)@, command.deep_view(), now_ms);
                final(self)@ == s2 && result_matches(r, res)
            }),
    {
        if command.len() < 3 {
            return Err(CmdError::Operand);
        }
        proof {
            assert(command.deep_view()[1] == command@[1].deep_view());
            assert(command.deep_view()[2] == command@[2].deep_view());
        }
        let key = match &command[1] {
            Token::BulkString(k) => k,
            _ => {
                return Err(CmdError::Operand);
            },
        };
        let value = match &command[2] {
            Token::BulkString(v) => v,
            _ => {
                return Err(CmdError::Operand);
            },
        };
        if command.len() == 3 {
            self.db.set(key.as_str(), value.as_str(), None, now_ms);
            return Ok(Token::SimpleString("OK".to_owned()));
        }
        proof {
            assert(command.deep_view()[3] == command@[3].deep_view());
        }
        let px = match &command[3] {
            Token::BulkString(p) => p,
            _ => {
                return Err(CmdError::Operand);
            },
        };
        if !verb_matches(px, "px") {
            return Err(CmdError::Operand);
        }
        if command.len() < 5 {
            return Err(CmdError::Operand);
        }
        proof {
            assert(command.deep_view()[4] == command@[4].deep_view());
        }
        let ttl = match &command[4] {
            Token::BulkString(t) => t,
            _ => {
                return Err(CmdError::BadTtl);
            },
        };
        match parse_u64(ttl) {
            Some(ms) => {
                self.db.set(key.as_str(), value.as_str(), Some(ms), now_ms);
                Ok(Token::SimpleString("OK".to_owned()))
            },
            None => Err(CmdError::BadTtl),
        }
    }

    /// The `GET` arm.
    fn get_impl(&mut self, command: &[Token], now_ms: u64) -> (r: Result<Token, CmdError>)
        requires
            old(self).wf(),
            command@.len() >= 1,
        ensures
            final(self).wf(),
            ({
                let (s2, res) = spec_get(old(self)@, command.deep_view(), now_ms);
                final(self)@ == s2 && result_matches(r, res)
            }),
    {
        if command.len() < 2 {
            return Err(CmdError::Operand);
        }
        proof {
            assert(command.deep_view()[1] == command@[1].deep_view());
        }
        let key = match &command[1] {
            Token::BulkString(k) => k,
            _ => {
                return Err(CmdError::Operand);
            },
        };
        match self.db.get(key.as_str(), now_ms) {
            Some(v) => Ok(Token::SimpleString(v)),
            None => Ok(Token::NullBulkString),
        }
    }

    /// The `INFO` arm.
    fn info_impl(&mut self, command: &[Token]) -> (r: Result<Token, CmdError>)
        requires
            old(self).wf(),
            command@.len() >= 1,
        ensures
            final(self).wf(),
            final(self)@ == old(self)@,
            ({
                let (s2, res) = spec_info(old(self)@, command.deep_view());
                final(self)@ == s2 && result_matches(r, res)
            }),
    {
        if command.len() < 2 {
            return Err(CmdError::Operand);
        }
        proof {
            assert(command.deep_view()[1] == command@[1].deep_view());
        }
        let which = match &command[1] {
            Token::BulkString(w) => w,
            _ => {
                return Err(CmdError::Operand);
            },
        };
        let target: String = "replication".to_owned();
        if !(*which == target) {
            return Err(CmdError::Operand);
        }
        let mut out = String::new();
        out.append("role:");
        out.append(self.role.as_str());
        out.append("\nmaster_replid:");
        out.append(self.master_replid.as_str());
        out.append("\nmaster_repl_offset:");
        push_dec_u64(&mut out, self.master_repl_offset);
        proof {
            assert(out@ =~= info_text(old(self)@));
        }
        Ok(Token::BulkString(out))
    }
}

} // verus!

use crate::parser::{result_view, CommandExecutor};

verus! {

impl CommandExecutor for ServerState {
    /// The server is a valid executor while its store is well formed.
    open spec fn exec_ok(&self) -> bool {
        self.wf()
    }

    /// Executing a command is exactly `dispatch`.
    open spec fn cmd_post(
        pre: Self,
        post: Self,
        cmd: Seq<TokenView>,
        now_ms: u64,
        r: Result<TokenView, CmdError>,
    ) -> bool {
        ({
            let (s2, res) = dispatch(pre@, cmd, now_ms);
            post@ == s2 && r == res
        })
    }

    fn execute(&mut self, command: &[Token], now_ms: u64) -> (r: Result<Token, CmdError>) {
        self.handle_command(command, now_ms)
    }
}

} // verus!
