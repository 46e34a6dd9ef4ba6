//! Wire-format lexer and serializer.
//!
//! A [`Token`] is one complete protocol frame. The lexer turns a
//! character stream into tokens one frame at a time; serialization is the
//! exact inverse, one fixed byte template per frame kind.

use vstd::prelude::*;

verus! {

/// A frame-level parse failure, naming the malformed construct.
#[derive(Debug, Clone, Copy, PartialEq, Eq, Structural)]
pub enum MyError {
    /// The leading byte of the input is not a recognized frame marker.
    Marker,
    /// The frame payload is missing or not of the expected shape.
    Payload,
    /// The frame terminator is missing or malformed.
    Terminator,
    /// A declared element or byte count is missing, non-numeric, too
    /// large, or not satisfiable from the remaining input.
    Count,
}

/// One complete protocol frame.
#[derive(Debug, PartialEq, Eq)]
pub enum Token {
    SimpleString(String),
    SimpleError(String),
    Integer(String),
    BulkString(String),
    NullBulkString,
    Array(Vec<Token>),
    NullArray,
    Null,
    Boolean(bool),
    Double(String),
    BigNumber(String),
    BulkError(String),
    MapFrame(Vec<(String, String)>),
    SetFrame(Vec<String>),
}

/// The mathematical model of a [`Token`]: the same tree with every
/// string replaced by its character sequence.
#[verifier::ext_equal]
pub enum TokenView {
    SimpleString(Seq<char>),
    SimpleError(Seq<char>),
    Integer(Seq<char>),
    BulkString(Seq<char>),
    NullBulkString,
    Array(Seq<TokenView>),
    NullArray,
    Null,
    Boolean(bool),
    Double(Seq<char>),
    BigNumber(Seq<char>),
    BulkError(Seq<char>),
    MapFrame(Seq<(Seq<char>, Seq<char>)>),
    SetFrame(Seq<Seq<char>>),
}

impl DeepView for Token {
    type V = TokenView;

    /// The model of this token.
    open spec fn deep_view(&self) -> TokenView
        decreases self,
    {
        match self {
            Token::SimpleString(s) => TokenView::SimpleString(s@),
            Token::SimpleError(s) => TokenView::SimpleError(s@),
            Token::Integer(s) => TokenView::Integer(s@),
            Token::BulkString(s) => TokenView::BulkString(s@),
            Token::NullBulkString => TokenView::NullBulkString,
            Token::Array(v) => TokenView::Array(
                Seq::new(
                    v@.len(),
                    |i: int|
                        if 0 <= i < v@.len() {
                            v@[i].deep_view()
                        } else {
                            TokenView::Null
                        },
                ),
            ),
            Token::NullArray => TokenView::NullArray,
            Token::Null => TokenView::Null,
            Token::Boolean(b) => TokenView::Boolean(*b),
            Token::Double(s) => TokenView::Double(s@),
            Token::BigNumber(s) => TokenView::BigNumber(s@),
            Token::BulkError(s) => TokenView::BulkError(s@),
            Token::MapFrame(v) => TokenView::MapFrame(
                Seq::new(v@.len(), |i: int| (v@[i].0@, v@[i].1@)),
            ),
            Token::SetFrame(v) => TokenView::SetFrame(
                Seq::new(v@.len(), |i: int| v@[i]@),
            ),
        }
    }
}

/// What `char::is_alphanumeric` answers on a character beyond ASCII.
pub uninterp spec fn unicode_alnum(c: char) -> bool;

/// What `char::is_numeric` answers on a character beyond ASCII.
pub uninterp spec fn unicode_num(c: char) -> bool;

/// An ASCII decimal digit.
pub open spec fn is_ascii_digit(c: char) -> bool {
    48 <= c as u32 && c as u32 <= 57
}

/// An ASCII letter or decimal digit.
pub open spec fn is_ascii_alnum(c: char) -> bool {
    is_ascii_digit(c) || (65 <= c as u32 && c as u32 <= 90) || (97 <= c as u32 && c as u32 <= 122)
}

/// The characters `char::is_alphanumeric` accepts: among ASCII, exactly
/// the letters and decimal digits.
pub open spec fn is_alnum(c: char) -> bool {
    if (c as u32) < 128 {
        is_ascii_alnum(c)
    } else {
        unicode_alnum(c)
    }
}

/// The characters `char::is_numeric` accepts: among ASCII, exactly the
/// decimal digits.
pub open spec fn is_num(c: char) -> bool {
    if (c as u32) < 128 {
        is_ascii_digit(c)
    } else {
        unicode_num(c)
    }
}

/// Relies on `char::is_alphanumeric`: a pure function of the character,
/// which among ASCII accepts exactly the letters and decimal digits;
/// beyond ASCII its answer is only named, by `unicode_alnum`.
#[verifier::external_body]
fn alnum(c: char) -> (b: bool)
    ensures
        b == is_alnum(c),
        (c as u32) >= 128 ==> b == unicode_alnum(c),
{
    c.is_alphanumeric()
}

/// Relies on `char::is_numeric`: a pure function of the character, which
/// among ASCII accepts exactly the decimal digits; beyond ASCII its
/// answer is only named, by `unicode_num`.
#[verifier::external_body]
fn numeric(c: char) -> (b: bool)
    ensures
        b == is_num(c),
        (c as u32) >= 128 ==> b == unicode_num(c),
{
    c.is_numeric()
}

/// A class of characters the lexer scans runs of.
#[derive(Debug, Clone, Copy, PartialEq, Eq, Structural)]
pub enum CharClass {
    /// Characters `char::is_alphanumeric` accepts.
    Alnum,
    /// Characters `char::is_numeric` accepts.
    Num,
    /// The line-feed character alone.
    Lf,
}

/// Membership in a scanning class.
pub open spec fn in_class(k: CharClass, c: char) -> bool {
    match k {
        CharClass::Alnum => is_alnum(c),
        CharClass::Num => is_num(c),
        CharClass::Lf => c == '\n',
    }
}

/// The length of the maximal prefix of `s` lying in class `k`.
pub open spec fn class_run(s: Seq<char>, k: CharClass) -> nat
    decreases s.len(),
{
    if s.len() == 0 {
        0
    } else if in_class(k, s[0]) {
        (1 + class_run(s.skip(1), k)) as nat
    } else {
        0
    }
}

/// What `class_run` returns: the first `class_run(s, k)` characters lie
/// in the class, the next one (if any) does not, and the run never
/// exceeds the input.
pub proof fn lemma_class_run(s: Seq<char>, k: CharClass)
    ensures
        class_run(s, k) <= s.len(),
        forall|i: int| 0 <= i < class_run(s, k) ==> in_class(k, s[i]),
        class_run(s, k) < s.len() ==> !in_class(k, s[class_run(s, k) as int]),
    decreases s.len(),
{
    if s.len() > 0 && in_class(k, s[0]) {
        lemma_class_run(s.skip(1), k);
        assert forall|i: int| 0 <= i < class_run(s, k) implies in_class(k, s[i]) by {
            if i > 0 {
                assert(s.skip(1)[i - 1] == s[i]);
            }
        }
        if class_run(s, k) < s.len() {
            assert(s.skip(1)[class_run(s, k) - 1] == s[class_run(s, k) as int]);
        }
    }
}

/// A prefix of class characters stopped by a non-member (or the end of
/// the input) is exactly the class run.
pub proof fn lemma_class_run_is(s: Seq<char>, k: CharClass, j: int)
    requires
        0 <= j <= s.len(),
        forall|i: int| 0 <= i < j ==> in_class(k, s[i]),
        j < s.len() ==> !in_class(k, s[j]),
    ensures
        class_run(s, k) == j,
    decreases s.len(),
{
    if j == 0 {
    } else {
        assert(in_class(k, s[0]));
        assert forall|i: int| 0 <= i < j - 1 implies in_class(k, s.skip(1)[i]) by {
            assert(s.skip(1)[i] == s[i + 1]);
        }
        if j - 1 < s.skip(1).len() {
            assert(s.skip(1)[j - 1] == s[j]);
        }
        lemma_class_run_is(s.skip(1), k, j - 1);
    }
}

/// The numeric value of an ASCII decimal digit; other characters count
/// as zero.
pub open spec fn digit_val(c: char) -> nat {
    if is_ascii_digit(c) {
        (c as u32 - 48) as nat
    } else {
        0
    }
}

/// The value of a string of ASCII decimal digits, most significant
/// first.
pub open spec fn dec_val(s: Seq<char>) -> nat
    decreases s.len(),
{
    if s.len() == 0 {
        0
    } else {
        dec_val(s.drop_last()) * 10 + digit_val(s.last())
    }
}

/// Every character of `s` is an ASCII decimal digit.
pub open spec fn all_ascii_digits(s: Seq<char>) -> bool {
    forall|i: int| 0 <= i < s.len() ==> is_ascii_digit(s[i])
}

/// A declared count is usable when it is a non-empty string of ASCII
/// decimal digits whose value fits in `usize` — exactly the strings
/// `str::parse::<usize>` accepts among runs of numeric characters.
pub open spec fn count_ok(s: Seq<char>) -> bool {
    s.len() > 0 && all_ascii_digits(s) && dec_val(s) <= usize::MAX
}

/// The outcome of scanning one frame from the head of the input.
pub enum ScanOut {
    /// A complete frame `t` was produced, consuming the first `n`
    /// characters.
    Tok { t: TokenView, n: nat },
    /// The input is empty, or its first character is not a frame marker:
    /// nothing to parse (which is not a hard failure).
    NoTok,
    /// The head of the input is a malformed frame.
    Fail { e: MyError },
}

/// The outcome of scanning a fixed number of consecutive frames.
pub enum ElemsOut {
    /// `cnt` frames were produced, consuming the first `n` characters.
    Elems { ts: Seq<TokenView>, n: nat },
    /// Some frame among the `cnt` was malformed or missing.
    ElemsFail { e: MyError },
}

/// The frame terminator: exactly one carriage return, then a maximal
/// non-empty run of line feeds. Returns how many characters it spans,
/// or `None` if the head of `s` is no terminator.
pub open spec fn spec_crlf(s: Seq<char>) -> Option<nat> {
    if s.len() >= 2 && s[0] == '\r' && s[1] == '\n' {
        Some((2 + class_run(s.skip(2), CharClass::Lf)) as nat)
    } else {
        None
    }
}

/// One frame from the head of `s`: dispatch on the leading marker and
/// scan by the frame kind's shape.
pub open spec fn spec_scan(s: Seq<char>) -> ScanOut
    decreases s.len(), 0nat,
{
    if s.len() == 0 {
        ScanOut::NoTok
    } else if s[0] == '+' {
        let rest = s.skip(1);
        let r = class_run(rest, CharClass::Alnum);
        if r == 0 {
            ScanOut::Fail { e: MyError::Payload }
        } else {
            match spec_crlf(rest.skip(r as int)) {
                Some(m) => ScanOut::Tok { t: TokenView::SimpleString(rest.take(r as int)), n: (1 + r + m) as nat },
                None => ScanOut::Fail { e: MyError::Terminator },
            }
        }
    } else if s[0] == ':' {
        let rest = s.skip(1);
        let r = class_run(rest, CharClass::Num);
        if r == 0 {
            ScanOut::Fail { e: MyError::Payload }
        } else {
            match spec_crlf(rest.skip(r as int)) {
                Some(m) => ScanOut::Tok { t: TokenView::Integer(rest.take(r as int)), n: (1 + r + m) as nat },
                None => ScanOut::Fail { e: MyError::Terminator },
            }
        }
    } else if s[0] == '*' {
        let rest = s.skip(1);
        let r = class_run(rest, CharClass::Num);
        if r == 0 {
            ScanOut::Fail { e: MyError::Count }
        } else {
            match spec_crlf(rest.skip(r as int)) {
                Some(m) => {
                    if !count_ok(rest.take(r as int)) {
                        ScanOut::Fail { e: MyError::Count }
                    } else if 1 + r + m > s.len() {
                        // never reached: a run and a terminator fit in the
                        // input (lemma_scan_bounds); kept so the recursion
                        // visibly shrinks
                        ScanOut::Fail { e: MyError::Count }
                    } else {
                        match spec_scan_elems(s.skip((1 + r + m) as int), dec_val(rest.take(r as int))) {
                            ElemsOut::Elems { ts, n } => ScanOut::Tok { t: TokenView::Array(ts), n: (1 + r + m + n) as nat },
                            ElemsOut::ElemsFail { e } => ScanOut::Fail { e },
                        }
                    }
                },
                None => ScanOut::Fail { e: MyError::Terminator },
            }
        }
    } else if s[0] == '$' {
        let rest = s.skip(1);
        let r = class_run(rest, CharClass::Num);
        if r == 0 {
            ScanOut::Fail { e: MyError::Count }
        } else {
            match spec_crlf(rest.skip(r as int)) {
                Some(m) => {
                    if !count_ok(rest.take(r as int)) {
                        ScanOut::Fail { e: MyError::Count }
                    } else {
                        let len = dec_val(rest.take(r as int));
                        let body = rest.skip((r + m) as int);
                        let j = class_run(body, CharClass::Alnum);
                        if len == 0 || j < len {
                            ScanOut::Fail { e: MyError::Payload }
                        } else {
                            match spec_crlf(body.skip(j as int)) {
                                Some(m2) => ScanOut::Tok {
                                    t: TokenView::BulkString(body.take(len as int)),
                                    n: (1 + r + m + j + m2) as nat,
                                },
                                None => ScanOut::Fail { e: MyError::Terminator },
                            }
                        }
                    }
                },
                None => ScanOut::Fail { e: MyError::Terminator },
            }
        }
    } else {
        ScanOut::NoTok
    }
}

/// `cnt` consecutive frames from the head of `s`, in order.
pub open spec fn spec_scan_elems(s: Seq<char>, cnt: nat) -> ElemsOut
    decreases s.len(), cnt + 1,
{
    if cnt == 0 {
        ElemsOut::Elems { ts: Seq::empty(), n: 0 }
    } else {
        match spec_scan(s) {
            ScanOut::Tok { t, n } => {
                if 1 <= n <= s.len() {
                    match spec_scan_elems(s.skip(n as int), (cnt - 1) as nat) {
                        ElemsOut::Elems { ts, n: n2 } => ElemsOut::Elems { ts: seq![t] + ts, n: (n + n2) as nat },
                        fail => fail,
                    }
                } else {
                    // never reached: a frame consumes between one character
                    // and the whole input (lemma_scan_bounds); kept so the
                    // recursion visibly shrinks
                    ElemsOut::ElemsFail { e: MyError::Count }
                }
            },
            ScanOut::NoTok => ElemsOut::ElemsFail { e: MyError::Count },
            ScanOut::Fail { e } => ElemsOut::ElemsFail { e },
        }
    }
}

/// A produced frame consumes at least its marker and at most the whole
/// input.
pub proof fn lemma_scan_bounds(s: Seq<char>)
    ensures
        spec_scan(s) matches ScanOut::Tok { t, n } ==> 1 <= n <= s.len(),
    decreases s.len(), 0nat,
{
    if s.len() == 0 {
    } else if s[0] == '+' || s[0] == ':' {
        let k = if s[0] == '+' {
            CharClass::Alnum
        } else {
            CharClass::Num
        };
        let rest = s.skip(1);
        let r = class_run(rest, k);
        lemma_class_run(rest, k);
        if r > 0 && spec_crlf(rest.skip(r as int)) is Some {
            lemma_class_run(rest.skip(r as int).skip(2), CharClass::Lf);
        }
    } else if s[0] == '*' {
        let rest = s.skip(1);
        let r = class_run(rest, CharClass::Num);
        lemma_class_run(rest, CharClass::Num);
        if r > 0 && spec_crlf(rest.skip(r as int)) is Some {
            let m = spec_crlf(rest.skip(r as int))->Some_0;
            lemma_class_run(rest.skip(r as int).skip(2), CharClass::Lf);
            if count_ok(rest.take(r as int)) && 1 + r + m <= s.len() {
                lemma_scan_elems_bounds(s.skip((1 + r + m) as int), dec_val(rest.take(r as int)));
            }
        }
    } else if s[0] == '$' {
        let rest = s.skip(1);
        let r = class_run(rest, CharClass::Num);
        lemma_class_run(rest, CharClass::Num);
        if r > 0 && spec_crlf(rest.skip(r as int)) is Some {
            let m = spec_crlf(rest.skip(r as int))->Some_0;
            lemma_class_run(rest.skip(r as int).skip(2), CharClass::Lf);
            let body = rest.skip((r + m) as int);
            let j = class_run(body, CharClass::Alnum);
            lemma_class_run(body, CharClass::Alnum);
            if spec_crlf(body.skip(j as int)) is Some {
                lemma_class_run(body.skip(j as int).skip(2), CharClass::Lf);
            }
        }
    }
}

/// A produced element list consumes at most the whole input and holds
/// exactly the declared number of frames.
pub proof fn lemma_scan_elems_bounds(s: Seq<char>, cnt: nat)
    ensures
        spec_scan_elems(s, cnt) matches ElemsOut::Elems { ts, n } ==> n <= s.len() && ts.len() == cnt,
    decreases s.len(), cnt + 1,
{
    if cnt == 0 {
    } else {
        match spec_scan(s) {
            ScanOut::Tok { t, n } => {
                if 1 <= n <= s.len() {
                    lemma_scan_elems_bounds(s.skip(n as int), (cnt - 1) as nat);
                }
            },
            _ => {},
        }
    }
}

/// A prefix of `j` class characters makes the class run at least `j`.
pub proof fn lemma_class_run_at_least(s: Seq<char>, k: CharClass, j: int)
    requires
        0 <= j <= s.len(),
        forall|i: int| 0 <= i < j ==> in_class(k, s[i]),
    ensures
        class_run(s, k) >= j,
    decreases s.len(),
{
    if j > 0 {
        assert(in_class(k, s[0]));
        assert forall|i: int| 0 <= i < j - 1 implies in_class(k, s.skip(1)[i]) by {
            assert(s.skip(1)[i] == s[i + 1]);
        }
        lemma_class_run_at_least(s.skip(1), k, j - 1);
    }
}

/// The cursor over a character stream from which frames are scanned.
#[derive(Debug)]
pub struct Lexer {
    input: String,
    pos: usize,
    len: usize,
}

impl Lexer {
    /// The whole character stream.
    pub closed spec fn text(&self) -> Seq<char> {
        self.input@
    }

    /// How many characters have been consumed.
    pub closed spec fn at(&self) -> int {
        self.pos as int
    }

    /// The cursor stands inside the stream.
    pub closed spec fn wf(&self) -> bool {
        self.pos <= self.len && self.len == self.input@.len()
    }

    /// The characters not yet consumed.
    pub open spec fn remaining(&self) -> Seq<char> {
        self.text().skip(self.at())
    }

    pub fn new(input: &str) -> (r: Lexer)
        ensures
            r.wf(),
            r.text() == input@,
            r.at() == 0,
    {
        let len = input.unicode_len();
        Lexer { input: input.to_owned(), pos: 0, len }
    }

    /// The next character, if any, without consuming it.
    fn peek(&self) -> (r: Option<char>)
        requires
            self.wf(),
        ensures
            match r {
                Some(c) => self.at() < self.text().len() && c == self.text()[self.at()],
                None => self.at() == self.text().len(),
            },
    {
        if self.pos < self.len {
            Some(self.input.as_str().get_char(self.pos))
        } else {
            None
        }
    }

    /// Consume the next character if it lies in class `k`.
    fn next_if(&mut self, k: CharClass) -> (r: Option<char>)
        requires
            old(self).wf(),
        ensures
            final(self).wf(),
            final(self).text() == old(self).text(),
            ({
                let rem = old(self).remaining();
                if rem.len() > 0 && in_class(k, rem[0]) {
                    r == Some(rem[0]) && final(self).at() == old(self).at() + 1
                } else {
                    r == None::<char> && final(self).at() == old(self).at()
                }
            }),
    {
        match self.peek() {
            Some(c) => {
                if in_class_exec(k, c) {
                    self.pos = self.pos + 1;
                    Some(c)
                } else {
                    None
                }
            },
            None => None,
        }
    }

    /// Consume the maximal run of class `k` and hand it back, or
    /// nothing when the run is empty.
    fn next_while(&mut self, k: CharClass) -> (r: Option<String>)
        requires
            old(self).wf(),
        ensures
            final(self).wf(),
            final(self).text() == old(self).text(),
            ({
                let rem = old(self).remaining();
                let run = class_run(rem, k);
                final(self).at() == old(self).at() + run && (if run == 0 {
                    r is None
                } else {
                    r matches Some(s) && s@ == rem.take(run as int)
                })
            }),
    {
        let start = self.pos;
        loop
            invariant
                self.wf(),
                self.text() == old(self).text(),
                start == old(self).pos,
                old(self).at() <= self.at() <= self.text().len(),
                forall|i: int| old(self).at() <= i < self.at() ==> in_class(k, self.text()[i]),
            ensures
                self.at() == self.text().len() || !in_class(k, self.text()[self.at()]),
            decreases self.text().len() - self.at(),
        {
            if self.next_if(k).is_none() {
                break;
            }
        }
        proof {
            let rem = old(self).remaining();
            let j = self.at() - old(self).at();
            assert forall|i: int| 0 <= i < j implies in_class(k, rem[i]) by {
                assert(rem[i] == self.text()[old(self).at() + i]);
            }
            if j < rem.len() {
                assert(rem[j] == self.text()[self.at()]);
            }
            lemma_class_run_is(rem, k, j);
        }
        if self.pos == start {
            None
        } else {
            let s = self.input.as_str().substring_char(start, self.pos).to_owned();
            proof {
                let run = class_run(old(self).remaining(), k);
                assert(old(self).remaining().take(run as int) =~= self.text().subrange(
                    start as int,
                    self.pos as int,
                ));
            }
            Some(s)
        }
    }

    /// Consume exactly `count` characters of class `k` and hand them
    /// back; stop at the first character outside the class. An empty
    /// result counts as nothing.
    fn next_while_with_count(&mut self, k: CharClass, count: usize) -> (r: Option<String>)
        requires
            old(self).wf(),
        ensures
            final(self).wf(),
            final(self).text() == old(self).text(),
            ({
                let rem = old(self).remaining();
                let run = class_run(rem, k);
                if count == 0 {
                    r is None && final(self).at() == old(self).at()
                } else if run >= count {
                    r matches Some(s) && s@ == rem.take(count as int) && final(self).at() == old(
                        self,
                    ).at() + count
                } else {
                    r is None && final(self).at() == old(self).at() + run
                }
            }),
    {
        let start = self.pos;
        let mut taken: usize = 0;
        while taken < count
            invariant
                self.wf(),
                self.text() == old(self).text(),
                start == old(self).pos,
                taken <= count,
                self.at() == old(self).at() + taken,
                forall|i: int| old(self).at() <= i < self.at() ==> in_class(k, self.text()[i]),
            decreases count - taken,
        {
            if self.next_if(k).is_none() {
                proof {
                    let rem = old(self).remaining();
                    assert forall|i: int| 0 <= i < taken implies in_class(k, rem[i]) by {
                        assert(rem[i] == self.text()[old(self).at() + i]);
                    }
                    if taken < rem.len() {
                        assert(rem[taken as int] == self.text()[self.at()]);
                    }
                    lemma_class_run_is(rem, k, taken as int);
                }
                return None;
            }
            taken = taken + 1;
        }
        if count == 0 {
            return None;
        }
        proof {
            let rem = old(self).remaining();
            assert forall|i: int| 0 <= i < count implies in_class(k, rem[i]) by {
                assert(rem[i] == self.text()[old(self).at() + i]);
            }
            lemma_class_run_at_least(rem, k, count as int);
        }
        let s = self.input.as_str().substring_char(start, self.pos).to_owned();
        proof {
            assert(old(self).remaining().take(count as int) =~= self.text().subrange(
                start as int,
                self.pos as int,
            ));
        }
        Some(s)
    }

    /// Consume a frame terminator: exactly one carriage return, then a
    /// maximal non-empty run of line feeds.
    fn consume_crlf(&mut self) -> (r: Option<()>)
        requires
            old(self).wf(),
        ensures
            final(self).wf(),
            final(self).text() == old(self).text(),
            match spec_crlf(old(self).remaining()) {
                Some(m) => r == Some(()) && final(self).at() == old(self).at() + m,
                None => r is None,
            },
    {
        match self.peek() {
            Some(c) => {
                if c != '\r' {
                    return None;
                }
            },
            None => {
                return None;
            },
        }
        self.pos = self.pos + 1;
        if self.next_if(CharClass::Lf).is_none() {
            return None;
        }
        let ghost mid = *self;
        let _ = self.next_while(CharClass::Lf);
        proof {
            let rem = old(self).remaining();
            assert(mid.remaining() =~= rem.skip(2));
        }
        Some(())
    }

    /// Scan a simple-string frame, marker included.
    fn scan_string(&mut self) -> (r: Result<Option<Token>, MyError>)
        requires
            old(self).wf(),
            old(self).remaining().len() > 0,
            old(self).remaining()[0] == '+',
        ensures
            final(self).wf(),
            final(self).text() == old(self).text(),
            match spec_scan(old(self).remaining()) {
                ScanOut::Tok { t, n } => r matches Ok(Some(tok)) && tok.deep_view() == t && final(self).at() == old(self).at() + n,
                ScanOut::NoTok => false,
                ScanOut::Fail { e } => r matches Err(e2) && e2 == e,
            },
    {
        let ghost rest = old(self).remaining().skip(1);
        self.pos = self.pos + 1;
        proof {
            assert(self.remaining() =~= rest);
        }
        match self.next_while(CharClass::Alnum) {
            None => Err(MyError::Payload),
            Some(s) => {
                proof {
                    let run = class_run(rest, CharClass::Alnum);
                    assert(self.remaining() =~= rest.skip(run as int));
                }
                if self.consume_crlf().is_none() {
                    Err(MyError::Terminator)
                } else {
                    Ok(Some(Token::SimpleString(s)))
                }
            },
        }
    }

    /// Scan an integer frame, marker included.
    fn scan_num(&mut self) -> (r: Result<Option<Token>, MyError>)
        requires
            old(self).wf(),
            old(self).remaining().len() > 0,
            old(self).remaining()[0] == ':',
        ensures
            final(self).wf(),
            final(self).text() == old(self).text(),
            match spec_scan(old(self).remaining()) {
                ScanOut::Tok { t, n } => r matches Ok(Some(tok)) && tok.deep_view() == t && final(self).at() == old(self).at() + n,
                ScanOut::NoTok => false,
                ScanOut::Fail { e } => r matches Err(e2) && e2 == e,
            },
    {
        let ghost rest = old(self).remaining().skip(1);
        self.pos = self.pos + 1;
        proof {
            assert(self.remaining() =~= rest);
        }
        match self.next_while(CharClass::Num) {
            None => Err(MyError::Payload),
            Some(s) => {
                proof {
                    let run = class_run(rest, CharClass::Num);
                    assert(self.remaining() =~= rest.skip(run as int));
                }
                if self.consume_crlf().is_none() {
                    Err(MyError::Terminator)
                } else {
                    Ok(Some(Token::Integer(s)))
                }
            },
        }
    }

    /// Scan a bulk-string body of the declared length: that many
    /// alphanumeric characters (any further ones are dropped), then a
    /// terminator.
    fn scan_string_with_length(&mut self, str_length: usize) -> (r: Result<Option<Token>, MyError>)
        requires
            old(self).wf(),
        ensures
            final(self).wf(),
            final(self).text() == old(self).text(),
            ({
                let body = old(self).remaining();
                let j = class_run(body, CharClass::Alnum);
                if str_length == 0 || j < str_length {
                    r matches Err(e) && e == MyError::Payload
                } else {
                    match spec_crlf(body.skip(j as int)) {
                        Some(m2) => r matches Ok(Some(tok)) && tok.deep_view()
                            == TokenView::BulkString(body.take(str_length as int)) && final(self).at() == old(self).at() + j + m2,
                        None => r matches Err(e) && e == MyError::Terminator,
                    }
                }
            }),
    {
        let ghost body = old(self).remaining();
        let ghost j = class_run(body, CharClass::Alnum);
        match self.next_while_with_count(CharClass::Alnum, str_length) {
            None => Err(MyError::Payload),
            Some(s) => {
                let ghost mid = *self;
                proof {
                    lemma_class_run(body, CharClass::Alnum);
                    assert(mid.remaining() =~= body.skip(str_length as int));
                    assert forall|i: int|
                        0 <= i < j - str_length implies in_class(
                        CharClass::Alnum,
                        mid.remaining()[i],
                    ) by {
                        assert(mid.remaining()[i] == body[str_length + i]);
                    }
                    if j - str_length < mid.remaining().len() {
                        assert(mid.remaining()[j - str_length] == body[j as int]);
                    }
                    lemma_class_run_is(mid.remaining(), CharClass::Alnum, j - str_length);
                }
                let _ = self.next_while(CharClass::Alnum);
                proof {
                    assert(self.remaining() =~= body.skip(j as int));
                }
                if self.consume_crlf().is_none() {
                    Err(MyError::Terminator)
                } else {
                    Ok(Some(Token::BulkString(s)))
                }
            },
        }
    }

    /// Scan a bulk-string frame, marker included: a declared length, a
    /// terminator, then the body.
    fn scan_bulk_string(&mut self) -> (r: Result<Option<Token>, MyError>)
        requires
            old(self).wf(),
            old(self).remaining().len() > 0,
            old(self).remaining()[0] == '$',
        ensures
            final(self).wf(),
            final(self).text() == old(self).text(),
            match spec_scan(old(self).remaining()) {
                ScanOut::Tok { t, n } => r matches Ok(Some(tok)) && tok.deep_view() == t && final(self).at() == old(self).at() + n,
                ScanOut::NoTok => false,
                ScanOut::Fail { e } => r matches Err(e2) && e2 == e,
            },
    {
        let ghost rest = old(self).remaining().skip(1);
        let ghost r0 = class_run(rest, CharClass::Num);
        self.pos = self.pos + 1;
        proof {
            assert(self.remaining() =~= rest);
        }
        let len_str = match self.next_while(CharClass::Num) {
            None => {
                return Err(MyError::Count);
            },
            Some(s) => s,
        };
        proof {
            assert(self.remaining() =~= rest.skip(r0 as int));
        }
        if self.consume_crlf().is_none() {
            return Err(MyError::Terminator);
        }
        let count = match parse_count(&len_str) {
            None => {
                return Err(MyError::Count);
            },
            Some(c) => c,
        };
        proof {
            let m = spec_crlf(rest.skip(r0 as int))->Some_0;
            assert(self.remaining() =~= rest.skip((r0 + m) as int));
        }
        self.scan_string_with_length(count)
    }

    /// Scan an array frame, marker included: a declared element count,
    /// a terminator, then that many frames in order.
    #[verifier::loop_isolation(false)]
    fn scan_array(&mut self) -> (r: Result<Option<Token>, MyError>)
        requires
            old(self).wf(),
            old(self).remaining().len() > 0,
            old(self).remaining()[0] == '*',
        ensures
            final(self).wf(),
            final(self).text() == old(self).text(),
            match spec_scan(old(self).remaining()) {
                ScanOut::Tok { t, n } => r matches Ok(Some(tok)) && tok.deep_view() == t && final(self).at() == old(self).at() + n,
                ScanOut::NoTok => false,
                ScanOut::Fail { e } => r matches Err(e2) && e2 == e,
            },
        decreases old(self).remaining().len(), 0nat,
    {
        let ghost rem0 = old(self).remaining();
        let ghost rest = rem0.skip(1);
        let ghost r0 = class_run(rest, CharClass::Num);
        self.pos = self.pos + 1;
        proof {
            assert(self.remaining() =~= rest);
        }
        let item_count = match self.next_while(CharClass::Num) {
            None => {
                return Err(MyError::Count);
            },
            Some(s) => s,
        };
        proof {
            assert(self.remaining() =~= rest.skip(r0 as int));
        }
        if self.consume_crlf().is_none() {
            return Err(MyError::Terminator);
        }
        let count = match parse_count(&item_count) {
            None => {
                return Err(MyError::Count);
            },
            Some(c) => c,
        };
        let ghost m = spec_crlf(rest.skip(r0 as int))->Some_0;
        let ghost at_body = old(self).at() + 1 + r0 + m;
        let ghost body = rem0.skip((1 + r0 + m) as int);
        proof {
            assert(self.remaining() =~= body);
        }
        let mut array: Vec<Token> = Vec::new();
        let mut i: usize = 0;
        while i < count
            invariant
                self.wf(),
                self.text() == old(self).text(),
                i <= count,
                array@.len() == i,
                at_body == old(self).at() + 1 + r0 + m,
                body == old(self).text().skip(at_body),
                at_body <= self.at() <= self.text().len(),
                match spec_scan_elems(self.remaining(), (count - i) as nat) {
                    ElemsOut::Elems { ts, n } => spec_scan_elems(body, count as nat) == (ElemsOut::Elems {
                        ts: array.deep_view() + ts,
                        n: (self.at() - at_body + n) as nat,
                    }),
                    ElemsOut::ElemsFail { e } => spec_scan_elems(body, count as nat)
                        == (ElemsOut::ElemsFail { e }),
                },
            decreases count - i,
        {
            let ghost pre = *self;
            let tok = match self.scanstr() {
                Err(e) => {
                    proof {
                        assert(spec_scan_elems(pre.remaining(), (count - i) as nat)
                            == (ElemsOut::ElemsFail { e }));
                        assert(spec_scan_elems(body, count as nat) == (ElemsOut::ElemsFail { e }));
                    }
                    return Err(e);
                },
                Ok(None) => {
                    proof {
                        assert(spec_scan_elems(pre.remaining(), (count - i) as nat)
                            == (ElemsOut::ElemsFail { e: MyError::Count }));
                        assert(spec_scan(rem0) == (ScanOut::Fail { e: MyError::Count }));
                    }
                    return Err(MyError::Count);
                },
                Ok(Some(t)) => t,
            };
            let ghost arr0 = array.deep_view();
            let ghost tv = tok.deep_view();
            proof {
                lemma_scan_bounds(pre.remaining());
                let n1 = spec_scan(pre.remaining())->Tok_n;
                assert(self.remaining() =~= pre.remaining().skip(n1 as int));
                match spec_scan_elems(self.remaining(), (count - i - 1) as nat) {
                    ElemsOut::Elems { ts, n } => {
                        assert(arr0 + (seq![tv] + ts) =~= (arr0 + seq![tv]) + ts);
                    },
                    ElemsOut::ElemsFail { e } => {},
                }
            }
            array.push(tok);
            proof {
                assert(array.deep_view() =~= arr0 + seq![tv]);
            }
            i = i + 1;
        }
        proof {
            assert(array.deep_view() + Seq::<TokenView>::empty() =~= array.deep_view());
            let a = (Token::Array(array)).deep_view()->Array_0;
            let b = array.deep_view();
            assert(a.len() == b.len());
            assert forall|q: int| 0 <= q < a.len() implies a[q] == b[q] by {}
            assert(a =~= b);
            assert((Token::Array(array)).deep_view() =~~= TokenView::Array(array.deep_view()));
        }
        Ok(Some(Token::Array(array)))
    }

    /// Scan the next frame: a token, nothing (empty input or an
    /// unrecognized marker), or a frame error.
    pub fn scanstr(&mut self) -> (r: Result<Option<Token>, MyError>)
        requires
            old(self).wf(),
        ensures
            final(self).wf(),
            final(self).text() == old(self).text(),
            match spec_scan(old(self).remaining()) {
                ScanOut::Tok { t, n } => r matches Ok(Some(tok)) && tok.deep_view() == t && final(self).at() == old(self).at() + n,
                ScanOut::NoTok => r matches Ok(o) && o is None && *final(self) == *old(self),
                ScanOut::Fail { e } => r matches Err(e2) && e2 == e,
            },
        decreases old(self).remaining().len(), 1nat,
    {
        match self.peek() {
            None => Ok(None),
            Some(c) => {
                if c == '+' {
                    self.scan_string()
                } else if c == ':' {
                    self.scan_num()
                } else if c == '*' {
                    self.scan_array()
                } else if c == '$' {
                    self.scan_bulk_string()
                } else {
                    Ok(None)
                }
            },
        }
    }

    /// Scan the next frame, telling the stream's orderly end (`None`)
    /// apart from garbage at its head (a marker error).
    pub fn next(&mut self) -> (r: Option<Result<Token, MyError>>)
        requires
            old(self).wf(),
        ensures
            final(self).wf(),
            final(self).text() == old(self).text(),
            match spec_scan(old(self).remaining()) {
                ScanOut::Tok { t, n } => r matches Some(Ok(tok)) && tok.deep_view() == t && final(self).at() == old(self).at() + n,
                ScanOut::NoTok => *final(self) == *old(self) && (if old(self).remaining().len()
                    == 0 {
                    r is None
                } else {
                    r == Some(Err::<Token, MyError>(MyError::Marker))
                }),
                ScanOut::Fail { e } => r == Some(Err::<Token, MyError>(e)),
            },
    {
        match self.scanstr() {
            Ok(Some(t)) => Some(Ok(t)),
            Ok(None) => {
                match self.peek() {
                    Some(_) => Some(Err(MyError::Marker)),
                    None => None,
                }
            },
            Err(e) => Some(Err(e)),
        }
    }
}

/// A decimal value never shrinks when more characters follow.
pub proof fn lemma_dec_val_prefix(s: Seq<char>, j: int)
    requires
        0 <= j <= s.len(),
    ensures
        dec_val(s) >= dec_val(s.take(j)),
    decreases s.len() - j,
{
    if j < s.len() {
        lemma_dec_val_prefix(s, j + 1);
        assert(s.take(j + 1).drop_last() =~= s.take(j));
        assert(s.take(j + 1).last() == s[j]);
    } else {
        assert(s.take(j) =~= s);
    }
}

/// Read a declared count: the value of a non-empty string of ASCII
/// decimal digits, or nothing where the string is empty, holds another
/// character, or overflows `usize` — exactly where `str::parse::<usize>`
/// fails.
fn parse_count(s: &String) -> (r: Option<usize>)
    ensures
        count_ok(s@) ==> r == Some(dec_val(s@) as usize),
        !count_ok(s@) ==> r is None,
{
    let n = s.as_str().unicode_len();
    if n == 0 {
        return None;
    }
    let mut acc: usize = 0;
    let mut i: usize = 0;
    while i < n
        invariant
            n == s@.len(),
            0 <= i <= n,
            forall|q: int| 0 <= q < i ==> is_ascii_digit(s@[q]),
            acc == dec_val(s@.take(i as int)),
        decreases n - i,
    {
        let c = s.as_str().get_char(i);
        let u = c as u32;
        if u < 48 || u > 57 {
            return None;
        }
        let d = (u - 48) as usize;
        if acc > (usize::MAX - d) / 10 {
            proof {
                assert(s@.take(i + 1).drop_last() =~= s@.take(i as int));
                assert(s@.take(i + 1).last() == s@[i as int]);
                assert(dec_val(s@.take(i + 1)) == acc * 10 + d);
                assert(acc * 10 + d > usize::MAX) by (nonlinear_arith)
                    requires
                        acc > (usize::MAX - d) / 10,
                        d <= 9,
                ;
                lemma_dec_val_prefix(s@, i + 1);
            }
            return None;
        }
        proof {
            assert(acc * 10 + d <= usize::MAX) by (nonlinear_arith)
                requires
                    acc <= (usize::MAX - d) / 10,
                    0 <= d,
            ;
            assert(s@.take(i + 1).drop_last() =~= s@.take(i as int));
            assert(s@.take(i + 1).last() == s@[i as int]);
        }
        acc = acc * 10 + d;
        i = i + 1;
    }
    proof {
        assert(s@.take(n as int) =~= s@);
    }
    Some(acc)
}

/// Whether a character lies in a scanning class.
fn in_class_exec(k: CharClass, c: char) -> (b: bool)
    ensures
        b == in_class(k, c),
{
    match k {
        CharClass::Alnum => alnum(c),
        CharClass::Num => numeric(c),
        CharClass::Lf => c == '\n',
    }
}


/// The wire terminator.
pub open spec fn crlf() -> Seq<char> {
    seq!['\r', '\n']
}

/// The ASCII digit character for a value below ten.
pub open spec fn digit_char(d: nat) -> char {
    if d == 0 {
        '0'
    } else if d == 1 {
        '1'
    } else if d == 2 {
        '2'
    } else if d == 3 {
        '3'
    } else if d == 4 {
        '4'
    } else if d == 5 {
        '5'
    } else if d == 6 {
        '6'
    } else if d == 7 {
        '7'
    } else if d == 8 {
        '8'
    } else {
        '9'
    }
}

/// The decimal digits of `n`, most significant first.
pub open spec fn dec_str(n: nat) -> Seq<char>
    decreases n,
{
    if n < 10 {
        seq![digit_char(n)]
    } else {
        dec_str(n / 10).push(digit_char(n % 10))
    }
}

/// The wire bytes of one frame: one fixed template per frame kind,
/// elements of a compound frame laid out consecutively. A declared
/// length counts the payload's characters.
pub open spec fn wire(t: TokenView) -> Seq<char>
    decreases t, 0nat,
{
    match t {
        TokenView::SimpleString(s) => seq!['+'] + s + crlf(),
        TokenView::SimpleError(s) => seq!['-'] + s + crlf(),
        TokenView::Integer(s) => seq![':'] + s + crlf(),
        TokenView::BulkString(s) => seq!['$'] + dec_str(s.len()) + crlf() + s + crlf(),
        TokenView::NullBulkString => seq!['$', '-', '1'] + crlf(),
        TokenView::Array(ts) => seq!['*'] + dec_str(ts.len()) + crlf() + wire_list(ts, 0),
        TokenView::NullArray => seq!['*', '-', '1'] + crlf(),
        TokenView::Null => seq!['_'] + crlf(),
        TokenView::Boolean(b) => if b {
            seq!['#', 't'] + crlf()
        } else {
            seq!['#', 'f'] + crlf()
        },
        TokenView::Double(s) => seq![','] + s + crlf(),
        TokenView::BigNumber(s) => seq!['('] + s + crlf(),
        TokenView::BulkError(s) => seq!['!'] + dec_str(s.len()) + crlf() + s + crlf(),
        TokenView::MapFrame(ps) => seq!['%'] + dec_str(ps.len()) + crlf() + wire_pairs(ps, 0),
        TokenView::SetFrame(ss) => seq!['~'] + dec_str(ss.len()) + crlf() + wire_items(ss, 0),
    }
}

/// The wire bytes of an array body from element `i` on.
pub open spec fn wire_list(ts: Seq<TokenView>, i: int) -> Seq<char>
    decreases ts, (if i <= ts.len() { ts.len() - i } else { 0 }) as nat,
{
    if i < 0 || i >= ts.len() {
        Seq::empty()
    } else {
        wire(ts[i]) + wire_list(ts, i + 1)
    }
}

/// The wire bytes of a map body from pair `i` on: each key and value
/// followed by a terminator.
pub open spec fn wire_pairs(ps: Seq<(Seq<char>, Seq<char>)>, i: int) -> Seq<char>
    decreases ps.len() - i,
{
    if i < 0 || i >= ps.len() {
        Seq::empty()
    } else {
        ps[i].0 + crlf() + ps[i].1 + crlf() + wire_pairs(ps, i + 1)
    }
}

/// The wire bytes of a set body from item `i` on: each item followed by
/// a terminator.
pub open spec fn wire_items(ss: Seq<Seq<char>>, i: int) -> Seq<char>
    decreases ss.len() - i,
{
    if i < 0 || i >= ss.len() {
        Seq::empty()
    } else {
        ss[i] + crlf() + wire_items(ss, i + 1)
    }
}

/// The one-character string for an ASCII digit value.
fn digit_str(d: usize) -> (r: &'static str)
    requires
        d < 10,
    ensures
        r@ == seq![digit_char(d as nat)],
{
    proof {
        reveal_strlit("0");
        reveal_strlit("1");
        reveal_strlit("2");
        reveal_strlit("3");
        reveal_strlit("4");
        reveal_strlit("5");
        reveal_strlit("6");
        reveal_strlit("7");
        reveal_strlit("8");
        reveal_strlit("9");
    }
    let r: &'static str = match d {
        0 => "0",
        1 => "1",
        2 => "2",
        3 => "3",
        4 => "4",
        5 => "5",
        6 => "6",
        7 => "7",
        8 => "8",
        _ => "9",
    };
    proof {
        assert(r@ =~= seq![digit_char(d as nat)]);
    }
    r
}

/// Append the decimal digits of `n`, most significant first.
fn push_dec(out: &mut String, n: usize)
    ensures
        final(out)@ == old(out)@ + dec_str(n as nat),
    decreases n,
{
    if n >= 10 {
        push_dec(out, n / 10);
        out.append(digit_str(n % 10));
        proof {
            assert(dec_str((n / 10) as nat).push(digit_char((n % 10) as nat)) =~= dec_str(
                (n / 10) as nat,
            ) + seq![digit_char((n % 10) as nat)]);
            assert(old(out)@ + (dec_str((n / 10) as nat) + seq![digit_char((n % 10) as nat)]) =~= (
            old(out)@ + dec_str((n / 10) as nat)) + seq![digit_char((n % 10) as nat)]);
        }
    } else {
        out.append(digit_str(n));
    }
}

/// Append the decimal digits of a 64-bit value.
pub(crate) fn push_dec_u64(out: &mut String, n: u64)
    ensures
        final(out)@ == old(out)@ + dec_str(n as nat),
    decreases n,
{
    if n >= 10 {
        push_dec_u64(out, n / 10);
        out.append(digit_str((n % 10) as usize));
        proof {
            assert(dec_str((n / 10) as nat).push(digit_char((n % 10) as nat)) =~= dec_str(
                (n / 10) as nat,
            ) + seq![digit_char((n % 10) as nat)]);
            assert(old(out)@ + (dec_str((n / 10) as nat) + seq![digit_char((n % 10) as nat)]) =~= (
            old(out)@ + dec_str((n / 10) as nat)) + seq![digit_char((n % 10) as nat)]);
        }
    } else {
        out.append(digit_str(n as usize));
    }
}

/// Append the wire terminator.
fn push_crlf(out: &mut String)
    ensures
        final(out)@ == old(out)@ + crlf(),
{
    out.append("\r\n");
    proof {
        reveal_strlit("\r\n");
        assert("\r\n"@ =~= crlf());
    }
}

impl Token {
    /// The wire bytes of this frame: exactly `wire` of its model.
    pub fn serialize(&self) -> (r: String)
        ensures
            r@ == wire(self.deep_view()),
    {
        let mut out = String::new();
        self.write_to(&mut out);
        proof {
            assert(Seq::<char>::empty() + wire(self.deep_view()) =~= wire(self.deep_view()));
        }
        out
    }

    /// Append the wire bytes of this frame.
    #[verifier::loop_isolation(false)]
    fn write_to(&self, out: &mut String)
        ensures
            final(out)@ == old(out)@ + wire(self.deep_view()),
        decreases self,
    {
        match self {
            Token::SimpleString(s) => {
                proof {
                    reveal_strlit("+");
                    assert("+"@ =~= seq!['+']);
                }
                out.append("+");
                out.append(s.as_str());
                push_crlf(out);
                proof {
                    assert(out@ =~= old(out)@ + wire(self.deep_view()));
                }
            },
            Token::SimpleError(s) => {
                proof {
                    reveal_strlit("-");
                    assert("-"@ =~= seq!['-']);
                }
                out.append("-");
                out.append(s.as_str());
                push_crlf(out);
                proof {
                    assert(out@ =~= old(out)@ + wire(self.deep_view()));
                }
            },
            Token::Integer(s) => {
                proof {
                    reveal_strlit(":");
                    assert(":"@ =~= seq![':']);
                }
                out.append(":");
                out.append(s.as_str());
                push_crlf(out);
                proof {
                    assert(out@ =~= old(out)@ + wire(self.deep_view()));
                }
            },
            Token::BulkString(s) => {
                proof {
                    reveal_strlit("$");
                    assert("$"@ =~= seq!['$']);
                }
                out.append("$");
                push_dec(out, s.as_str().unicode_len());
                push_crlf(out);
                out.append(s.as_str());
                push_crlf(out);
                proof {
                    assert(out@ =~= old(out)@ + wire(self.deep_view()));
                }
            },
            Token::NullBulkString => {
                proof {
                    reveal_strlit("$-1");
                    assert("$-1"@ =~= seq!['$', '-', '1']);
                }
                out.append("$-1");
                push_crlf(out);
                proof {
                    assert(out@ =~= old(out)@ + wire(self.deep_view()));
                }
            },
            Token::Array(v) => {
                proof {
                    reveal_strlit("*");
                    assert("*"@ =~= seq!['*']);
                }
                out.append("*");
                push_dec(out, v.len());
                push_crlf(out);
                let ghost tsv = self.deep_view()->Array_0;
                let ghost out1 = out@;
                let mut i: usize = 0;
                while i < v.len()
                    invariant
                        i <= v.len(),
                        out@ + wire_list(tsv, i as int) == out1 + wire_list(tsv, 0),
                    decreases v.len() - i,
                {
                    let ghost out_pre = out@;
                    v[i].write_to(out);
                    proof {
                        assert(tsv[i as int] == v@[i as int].deep_view());
                        assert(wire_list(tsv, i as int) == wire(tsv[i as int]) + wire_list(
                            tsv,
                            i + 1,
                        ));
                        assert(out_pre + (wire(tsv[i as int]) + wire_list(tsv, i + 1)) =~= (out_pre
                            + wire(tsv[i as int])) + wire_list(tsv, i + 1));
                    }
                    i = i + 1;
                }
                proof {
                    assert(wire_list(tsv, v.len() as int) == Seq::<char>::empty());
                    assert(out@ + Seq::<char>::empty() =~= out@);
                    assert(out@ =~= old(out)@ + wire(self.deep_view()));
                }
            },
            Token::NullArray => {
                proof {
                    reveal_strlit("*-1");
                    assert("*-1"@ =~= seq!['*', '-', '1']);
                }
                out.append("*-1");
                push_crlf(out);
                proof {
                    assert(out@ =~= old(out)@ + wire(self.deep_view()));
                }
            },
            Token::Null => {
                proof {
                    reveal_strlit("_");
                    assert("_"@ =~= seq!['_']);
                }
                out.append("_");
                push_crlf(out);
                proof {
                    assert(out@ =~= old(out)@ + wire(self.deep_view()));
                }
            },
            Token::Boolean(b) => {
                if *b {
                    proof {
                        reveal_strlit("#t");
                        assert("#t"@ =~= seq!['#', 't']);
                    }
                    out.append("#t");
                } else {
                    proof {
                        reveal_strlit("#f");
                        assert("#f"@ =~= seq!['#', 'f']);
                    }
                    out.append("#f");
                }
                push_crlf(out);
                proof {
                    assert(out@ =~= old(out)@ + wire(self.deep_view()));
                }
            },
            Token::Double(s) => {
                proof {
                    reveal_strlit(",");
                    assert(","@ =~= seq![',']);
                }
                out.append(",");
                out.append(s.as_str());
                push_crlf(out);
                proof {
                    assert(out@ =~= old(out)@ + wire(self.deep_view()));
                }
            },
            Token::BigNumber(s) => {
                proof {
                    reveal_strlit("(");
                    assert("("@ =~= seq!['(']);
                }
                out.append("(");
                out.append(s.as_str());
                push_crlf(out);
                proof {
                    assert(out@ =~= old(out)@ + wire(self.deep_view()));
                }
            },
            Token::BulkError(s) => {
                proof {
                    reveal_strlit("!");
                    assert("!"@ =~= seq!['!']);
                }
                out.append("!");
                push_dec(out, s.as_str().unicode_len());
                push_crlf(out);
                out.append(s.as_str());
                push_crlf(out);
                proof {
                    assert(out@ =~= old(out)@ + wire(self.deep_view()));
                }
            },
            Token::MapFrame(v) => {
                proof {
                    reveal_strlit("%");
                    assert("%"@ =~= seq!['%']);
                }
                out.append("%");
                push_dec(out, v.len());
                push_crlf(out);
                let ghost psv = self.deep_view()->MapFrame_0;
                let ghost out1 = out@;
                let mut i: usize = 0;
                while i < v.len()
                    invariant
                        i <= v.len(),
                        out@ + wire_pairs(psv, i as int) == out1 + wire_pairs(psv, 0),
                    decreases v.len() - i,
                {
                    let ghost out_pre = out@;
                    out.append(v[i].0.as_str());
                    push_crlf(out);
                    out.append(v[i].1.as_str());
                    push_crlf(out);
                    proof {
                        assert(psv[i as int] == (v@[i as int].0@, v@[i as int].1@));
                        assert(wire_pairs(psv, i as int) == psv[i as int].0 + crlf() + psv[
                            i as int
                        ].1 + crlf() + wire_pairs(psv, i + 1));
                        assert(out@ + wire_pairs(psv, i + 1) =~= out_pre + wire_pairs(
                            psv,
                            i as int,
                        ));
                    }
                    i = i + 1;
                }
                proof {
                    assert(wire_pairs(psv, v.len() as int) == Seq::<char>::empty());
                    assert(out@ + Seq::<char>::empty() =~= out@);
                    assert(out@ =~= old(out)@ + wire(self.deep_view()));
                }
            },
            Token::SetFrame(v) => {
                proof {
                    reveal_strlit("~");
                    assert("~"@ =~= seq!['~']);
                }
                out.append("~");
                push_dec(out, v.len());
                push_crlf(out);
                let ghost ssv = self.deep_view()->SetFrame_0;
                let ghost out1 = out@;
                let mut i: usize = 0;
                while i < v.len()
                    invariant
                        i <= v.len(),
                        out@ + wire_items(ssv, i as int) == out1 + wire_items(ssv, 0),
                    decreases v.len() - i,
                {
                    let ghost out_pre = out@;
                    out.append(v[i].as_str());
                    push_crlf(out);
                    proof {
                        assert(ssv[i as int] == v@[i as int]@);
                        assert(wire_items(ssv, i as int) == ssv[i as int] + crlf() + wire_items(
                            ssv,
                            i + 1,
                        ));
                        assert(out@ + wire_items(ssv, i + 1) =~= out_pre + wire_items(
                            ssv,
                            i as int,
                        ));
                    }
                    i = i + 1;
                }
                proof {
                    assert(wire_items(ssv, v.len() as int) == Seq::<char>::empty());
                    assert(out@ + Seq::<char>::empty() =~= out@);
                    assert(out@ =~= old(out)@ + wire(self.deep_view()));
                }
            },
        }
    }
}

/// A non-empty, all-ASCII-alphanumeric payload.
pub open spec fn ascii_alnum_str(s: Seq<char>) -> bool {
    s.len() > 0 && forall|i: int| 0 <= i < s.len() ==> is_ascii_alnum(s[i])
}

/// The frames whose serialized bytes parse back to the same value:
/// simple strings and bulk strings over non-empty ASCII alphanumeric
/// payloads, integers over non-empty digit strings, and arrays of such
/// frames.
pub open spec fn wire_wf(t: TokenView) -> bool
    decreases t, 0nat,
{
    match t {
        TokenView::SimpleString(s) => ascii_alnum_str(s),
        TokenView::Integer(s) => s.len() > 0 && all_ascii_digits(s),
        TokenView::BulkString(s) => ascii_alnum_str(s) && s.len() <= usize::MAX,
        TokenView::Array(ts) => ts.len() <= usize::MAX && wire_wf_list(ts, 0),
        _ => false,
    }
}

/// Every element from index `i` on is fit for a round trip.
pub open spec fn wire_wf_list(ts: Seq<TokenView>, i: int) -> bool
    decreases ts, (if i <= ts.len() { ts.len() - i } else { 0 }) as nat,
{
    if i < 0 || i >= ts.len() {
        true
    } else {
        wire_wf(ts[i]) && wire_wf_list(ts, i + 1)
    }
}

/// A round-trippable frame's wire bytes start with its marker.
proof fn lemma_wire_head(t: TokenView)
    requires
        wire_wf(t),
    ensures
        wire(t).len() > 0,
        wire(t)[0] == '+' || wire(t)[0] == ':' || wire(t)[0] == '*' || wire(t)[0] == '$',
{
}

/// The digits of a value read back to that value.
proof fn lemma_dec_str(n: nat)
    ensures
        dec_str(n).len() >= 1,
        all_ascii_digits(dec_str(n)),
        dec_val(dec_str(n)) == n,
    decreases n,
{
    if n < 10 {
        let s = dec_str(n);
        assert(s.drop_last() =~= Seq::<char>::empty());
        assert(dec_val(Seq::<char>::empty()) == 0);
        assert(digit_val(digit_char(n)) == n);
    } else {
        lemma_dec_str(n / 10);
        let s = dec_str(n);
        assert(s.drop_last() =~= dec_str(n / 10));
        assert(digit_val(digit_char(n % 10)) == n % 10);
        assert(n == (n / 10) * 10 + n % 10);
        assert forall|i: int| 0 <= i < s.len() implies is_ascii_digit(s[i]) by {
            if i < s.len() - 1 {
                assert(s[i] == dec_str(n / 10)[i]);
            }
        }
    }
}

/// Round trip, one frame: the wire bytes of a well-formed frame,
/// followed by anything not starting with a line feed, scan back to
/// exactly that frame, consuming exactly its bytes.
/// Round trip, one frame: the wire bytes of a well-formed frame,
/// followed by anything not starting with a line feed, scan back to
/// exactly that frame, consuming exactly its bytes.
pub proof fn lemma_round_trip(t: TokenView, rest: Seq<char>)
    requires
        wire_wf(t),
        rest.len() == 0 || rest[0] != '\n',
    ensures
        spec_scan(wire(t) + rest) == (ScanOut::Tok { t, n: wire(t).len() }),
    decreases t, 1nat,
{
    match t {
        TokenView::SimpleString(s) => {
            lemma_rt_simple(t, rest);
        },
        TokenView::Integer(s) => {
            lemma_rt_integer(t, rest);
        },
        TokenView::BulkString(s) => {
            lemma_rt_bulk(t, rest);
        },
        TokenView::Array(ts) => {
            lemma_rt_array(t, rest);
        },
        _ => {},
    }
}

/// The simple-string case of the round trip.
proof fn lemma_rt_simple(t: TokenView, rest: Seq<char>)
    requires
        wire_wf(t),
        t is SimpleString,
        rest.len() == 0 || rest[0] != '\n',
    ensures
        spec_scan(wire(t) + rest) == (ScanOut::Tok { t, n: wire(t).len() }),
    decreases t, 0nat,
{
    let s = t->SimpleString_0;
    let w = wire(t);
    let input = w + rest;
    let u = input.skip(1);
    assert(u =~= s + crlf() + rest);
    assert forall|i: int| 0 <= i < s.len() implies in_class(CharClass::Alnum, u[i]) by {
        assert(u[i] == s[i]);
    }
    assert(u[s.len() as int] == '\r');
    lemma_class_run_is(u, CharClass::Alnum, s.len() as int);
    assert(u.take(s.len() as int) =~= s);
    assert(u.skip(s.len() as int) =~= crlf() + rest);
    assert((crlf() + rest).skip(2) =~= rest);
    assert(class_run(rest, CharClass::Lf) == 0);
    assert(spec_crlf(u.skip(s.len() as int)) == Some(2nat));
}

/// The integer case of the round trip.
proof fn lemma_rt_integer(t: TokenView, rest: Seq<char>)
    requires
        wire_wf(t),
        t is Integer,
        rest.len() == 0 || rest[0] != '\n',
    ensures
        spec_scan(wire(t) + rest) == (ScanOut::Tok { t, n: wire(t).len() }),
    decreases t, 0nat,
{
    let s = t->Integer_0;
    let w = wire(t);
    let input = w + rest;
    let u = input.skip(1);
    assert(u =~= s + crlf() + rest);
    assert forall|i: int| 0 <= i < s.len() implies in_class(CharClass::Num, u[i]) by {
        assert(u[i] == s[i]);
    }
    assert(u[s.len() as int] == '\r');
    lemma_class_run_is(u, CharClass::Num, s.len() as int);
    assert(u.take(s.len() as int) =~= s);
    assert(u.skip(s.len() as int) =~= crlf() + rest);
    assert((crlf() + rest).skip(2) =~= rest);
    assert(class_run(rest, CharClass::Lf) == 0);
    assert(spec_crlf(u.skip(s.len() as int)) == Some(2nat));
}

/// The bulk-string case of the round trip.
#[verifier::rlimit(60)]
proof fn lemma_rt_bulk(t: TokenView, rest: Seq<char>)
    requires
        wire_wf(t),
        t is BulkString,
        rest.len() == 0 || rest[0] != '\n',
    ensures
        spec_scan(wire(t) + rest) == (ScanOut::Tok { t, n: wire(t).len() }),
    decreases t, 0nat,
{
    let s = t->BulkString_0;
    let w = wire(t);
    let input = w + rest;
    let ln = s.len();
    let ds = dec_str(ln);
    lemma_dec_str(ln);
    let u = input.skip(1);
    assert(u =~= ds + crlf() + s + crlf() + rest);
    assert forall|i: int| 0 <= i < ds.len() implies in_class(CharClass::Num, u[i]) by {
        assert(u[i] == ds[i]);
    }
    assert(u[ds.len() as int] == '\r');
    lemma_class_run_is(u, CharClass::Num, ds.len() as int);
    assert(u.take(ds.len() as int) =~= ds);
    assert(count_ok(ds));
    let v = u.skip(ds.len() as int);
    assert(v =~= crlf() + s + crlf() + rest);
    assert(v[0] == '\r' && v[1] == '\n');
    let body = s + crlf() + rest;
    assert(v.skip(2) =~= body);
    assert(body[0] == s[0]);
    assert(class_run(body, CharClass::Lf) == 0);
    assert(spec_crlf(v) == Some(2nat));
    assert forall|i: int| 0 <= i < s.len() implies in_class(CharClass::Alnum, body[i]) by {
        assert(body[i] == s[i]);
    }
    assert(body[s.len() as int] == '\r');
    lemma_class_run_is(body, CharClass::Alnum, s.len() as int);
    assert(body.take(ln as int) =~= s);
    assert(body.skip(ln as int) =~= crlf() + rest);
    assert((crlf() + rest).skip(2) =~= rest);
    assert(class_run(rest, CharClass::Lf) == 0);
    assert(spec_crlf(body.skip(ln as int)) == Some(2nat));
    assert(u.skip((ds.len() + 2) as int) =~= body);
}

/// The array case of the round trip.
#[verifier::rlimit(60)]
proof fn lemma_rt_array(t: TokenView, rest: Seq<char>)
    requires
        wire_wf(t),
        t is Array,
        rest.len() == 0 || rest[0] != '\n',
    ensures
        spec_scan(wire(t) + rest) == (ScanOut::Tok { t, n: wire(t).len() }),
    decreases t, 0nat,
{
    let ts = t->Array_0;
    let w = wire(t);
    let input = w + rest;
    let k = ts.len();
    let ds = dec_str(k);
    lemma_dec_str(k);
    let elems = wire_list(ts, 0);
    let u = input.skip(1);
    assert(u =~= ds + crlf() + elems + rest);
    assert forall|i: int| 0 <= i < ds.len() implies in_class(CharClass::Num, u[i]) by {
        assert(u[i] == ds[i]);
    }
    assert(u[ds.len() as int] == '\r');
    lemma_class_run_is(u, CharClass::Num, ds.len() as int);
    assert(u.take(ds.len() as int) =~= ds);
    assert(count_ok(ds));
    let v = u.skip(ds.len() as int);
    assert(v =~= crlf() + elems + rest);
    assert(v[0] == '\r' && v[1] == '\n');
    let body = elems + rest;
    assert(v.skip(2) =~= body);
    if k > 0 {
        assert(wire_wf_list(ts, 0));
        assert(wire_wf(ts[0]));
        lemma_wire_head(ts[0]);
        assert(elems == wire(ts[0]) + wire_list(ts, 1));
        assert(body[0] == wire(ts[0])[0]);
        assert(class_run(body, CharClass::Lf) == 0);
    } else {
        assert(elems =~= Seq::<char>::empty());
        assert(body =~= rest);
        assert(class_run(body, CharClass::Lf) == 0);
    }
    assert(spec_crlf(v) == Some(2nat));
    lemma_round_trip_list(ts, 0, rest);
    assert(ts.skip(0) =~= ts);
    assert(input.skip((1 + ds.len() + 2) as int) =~= body);
    assert(1 + ds.len() + 2 <= input.len());
}

/// Round trip, an element list: the concatenated wire bytes of the
/// elements from `i` on, followed by anything not starting with a line
/// feed, scan back to exactly those elements.
#[verifier::spinoff_prover]
#[verifier::rlimit(100)]
pub proof fn lemma_round_trip_list(ts: Seq<TokenView>, i: int, rest: Seq<char>)
    requires
        0 <= i <= ts.len(),
        wire_wf_list(ts, i),
        rest.len() == 0 || rest[0] != '\n',
    ensures
        spec_scan_elems(wire_list(ts, i) + rest, (ts.len() - i) as nat) == (ElemsOut::Elems {
            ts: ts.skip(i),
            n: wire_list(ts, i).len() as nat,
        }),
    decreases ts, (ts.len() - i + 1) as nat,
{
    if i == ts.len() {
        assert(wire_list(ts, i) =~= Seq::<char>::empty());
        assert(wire_list(ts, i) + rest =~= rest);
        assert(ts.skip(i) =~= Seq::<TokenView>::empty());
    } else {
        let tail = wire_list(ts, i + 1) + rest;
        if i + 1 == ts.len() {
            assert(wire_list(ts, i + 1) =~= Seq::<char>::empty());
            assert(tail =~= rest);
        } else {
            assert(wire_wf_list(ts, i + 1));
            assert(wire_wf(ts[i + 1]));
            lemma_wire_head(ts[i + 1]);
            assert(wire_list(ts, i + 1) == wire(ts[i + 1]) + wire_list(ts, i + 2));
            assert(tail[0] == wire(ts[i + 1])[0]);
        }
        lemma_round_trip(ts[i], tail);
        let input = wire_list(ts, i) + rest;
        assert(input =~= wire(ts[i]) + tail);
        let n1 = wire(ts[i]).len();
        lemma_wire_head(ts[i]);
        assert(spec_scan(input) == (ScanOut::Tok { t: ts[i], n: n1 as nat }));
        assert(input.skip(n1 as int) =~= tail);
        lemma_round_trip_list(ts, i + 1, rest);
        assert(seq![ts[i]] + ts.skip(i + 1) =~= ts.skip(i));
    }
}

} // verus!
