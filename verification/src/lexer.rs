//! The executable lexer: a cursor over a borrowed text buffer, and the
//! per-type decoding routines, verified against the grammar in
//! [`crate::grammar`].

use crate::grammar::bounded_run_len;
use crate::grammar::crlf_len;
use crate::grammar::digit_run;
use crate::grammar::digits_val;
use crate::grammar::digit_val;
use crate::grammar::int_scan;
use crate::grammar::is_digit_char;
use crate::grammar::lemma_digit_run;
use crate::grammar::line_run;
use crate::grammar::sign_len;
use crate::grammar::spec_aggregate;
use crate::grammar::spec_big_number;
use crate::grammar::spec_blob_error;
use crate::grammar::spec_bulk_string;
use crate::grammar::spec_elems;
use crate::grammar::spec_pull;
use crate::grammar::spec_verbatim_string;
use crate::grammar::take_len;
use crate::grammar::Elems;
use crate::grammar::spec_boolean;
use crate::grammar::spec_double;
use crate::grammar::spec_error;
use crate::grammar::spec_integer;
use crate::grammar::spec_status;
use crate::grammar::Outcome;
use crate::token::lemma_tokens_view_push;
use crate::token::tokens_view;
use crate::token::DecodeError;
use crate::token::Token;
use vstd::prelude::*;
use vstd::string::StrSliceExecFns;

verus! {

/// The relation between one decoding step and its grammar outcome: the
/// result and the cursor movement are exactly what the outcome says.
pub open spec fn frame_obeys<'a>(
    pre: Lexer<'a>,
    post: Lexer<'a>,
    r: Result<Token<'a>, DecodeError>,
    o: Outcome,
) -> bool {
    match o {
        Outcome::End => false,
        Outcome::Tok { tok, used } => r matches Ok(t) && t@ == tok && post.at() == pre.at()
            + used,
        Outcome::Fail { err, used } => r matches Err(e) && e == err && post.at() == pre.at()
            + used,
    }
}

/// The relation between one pull and its grammar outcome: `None` is end
/// of input, and otherwise the result and the cursor movement are
/// exactly what the outcome says.
pub open spec fn pull_obeys<'a>(
    pre: Lexer<'a>,
    post: Lexer<'a>,
    r: Option<Result<Token<'a>, DecodeError>>,
    o: Outcome,
) -> bool {
    match o {
        Outcome::End => r is None && post.at() == pre.at(),
        Outcome::Tok { tok, used } => r matches Some(Ok(t)) && t@ == tok && post.at() == pre.at()
            + used,
        Outcome::Fail { err, used } => r matches Some(Err(e)) && e == err && post.at() == pre.at()
            + used,
    }
}

/// A cursor over a borrowed text buffer.  The offset counts characters,
/// only ever grows, and is the sole mutable state of a decoding session.
pub struct Lexer<'a> {
    buf: &'a str,
    pos: usize,
    len: usize,
}

impl<'a> Lexer<'a> {
    /// The character sequence of the buffer.
    pub closed spec fn src(self) -> Seq<char> {
        self.buf@
    }

    /// The current offset, in characters.
    pub closed spec fn at(self) -> int {
        self.pos as int
    }

    /// The cursor stays within the buffer.
    pub closed spec fn wf(self) -> bool {
        self.len == self.buf@.len() && self.pos <= self.len
    }

    /// A fresh lexer at the start of `buf`.
    pub fn new(buf: &'a str) -> (l: Lexer<'a>)
        ensures
            l.wf(),
            l.src() == buf@,
            l.at() == 0,
    {
        let len = buf.unicode_len();
        Lexer { buf, pos: 0, len }
    }

    /// The character at the cursor, without consuming it; nothing at or
    /// past the end of the buffer.
    fn peek(&self) -> (r: Option<char>)
        requires
            self.wf(),
        ensures
            self.at() < self.src().len() ==> r == Some(self.src()[self.at()]),
            self.at() >= self.src().len() ==> r is None,
    {
        if self.pos < self.len {
            Some(self.buf.get_char(self.pos))
        } else {
            None
        }
    }

    /// Consume the character at the cursor iff it equals `expected`.
    fn next_if(&mut self, expected: char) -> (r: bool)
        requires
            old(self).wf(),
        ensures
            final(self).wf(),
            final(self).src() == old(self).src(),
            r == (old(self).at() < old(self).src().len() && old(self).src()[old(self).at()]
                == expected),
            r ==> final(self).at() == old(self).at() + 1,
            !r ==> final(self).at() == old(self).at(),
    {
        if self.pos < self.len && self.buf.get_char(self.pos) == expected {
            self.pos = self.pos + 1;
            true
        } else {
            false
        }
    }

    /// Consume the lenient line terminator: an optional `\r`, then an
    /// optional `\n`.  Fails only when no characters remain at all.
    fn skip_line(&mut self) -> (r: Option<()>)
        requires
            old(self).wf(),
        ensures
            final(self).wf(),
            final(self).src() == old(self).src(),
            old(self).at() >= old(self).src().len() ==> r is None && final(self).at() == old(
                self,
            ).at(),
            old(self).at() < old(self).src().len() ==> r is Some && final(self).at() == old(
                self,
            ).at() + crlf_len(old(self).src(), old(self).at()),
    {
        if self.pos >= self.len {
            None
        } else {
            self.next_if('\r');
            self.next_if('\n');
            Some(())
        }
    }

    /// Capture the maximal run of line characters at the cursor as a
    /// borrowed slice, consuming it.
    fn scan_string(&mut self) -> (t: &'a str)
        requires
            old(self).wf(),
        ensures
            final(self).wf(),
            final(self).src() == old(self).src(),
            final(self).at() == old(self).at() + line_run(old(self).src(), old(self).at()),
            t@ == old(self).src().subrange(old(self).at(), final(self).at()),
    {
        let start = self.pos;
        loop
            invariant
                self.wf(),
                self.src() == old(self).src(),
                start <= self.pos,
                line_run(self.src(), start as int) == self.pos - start + line_run(
                    self.src(),
                    self.at(),
                ),
            ensures
                self.wf(),
                self.src() == old(self).src(),
                start <= self.pos,
                line_run(self.src(), start as int) == self.pos - start,
            decreases self.len - self.pos,
        {
            if self.pos < self.len {
                let c = self.buf.get_char(self.pos);
                if c != '\r' && c != '\n' {
                    self.pos = self.pos + 1;
                    continue ;
                }
            }
            proof {
                assert(line_run(self.src(), self.at()) == 0);
            }
            break ;
        }
        self.buf.substring_char(start, self.pos)
    }

    /// Consume the maximal run of ASCII digits at the cursor, returning
    /// its start and end offsets.
    fn scan_number(&mut self) -> (r: (usize, usize))
        requires
            old(self).wf(),
        ensures
            final(self).wf(),
            final(self).src() == old(self).src(),
            r.0 == old(self).at(),
            r.1 == final(self).at(),
            final(self).at() == old(self).at() + digit_run(old(self).src(), old(self).at()),
    {
        let start = self.pos;
        loop
            invariant
                self.wf(),
                self.src() == old(self).src(),
                start <= self.pos,
                digit_run(self.src(), start as int) == self.pos - start + digit_run(
                    self.src(),
                    self.at(),
                ),
            ensures
                self.wf(),
                self.src() == old(self).src(),
                start <= self.pos,
                digit_run(self.src(), start as int) == self.pos - start,
            decreases self.len - self.pos,
        {
            if self.pos < self.len {
                let c = self.buf.get_char(self.pos);
                let u = c as u32;
                if '0' as u32 <= u && u <= '9' as u32 {
                    self.pos = self.pos + 1;
                    continue ;
                }
            }
            proof {
                assert(digit_run(self.src(), self.at()) == 0);
            }
            break ;
        }
        (start, self.pos)
    }

    /// Consume an optional sign and the digit run after it, and parse
    /// them as a 64-bit signed integer.  An empty digit run or a value
    /// outside the `i64` range is an `IntegerFormat` error; the
    /// characters are consumed either way.
    fn get_integer(&mut self) -> (r: Result<i64, DecodeError>)
        requires
            old(self).wf(),
        ensures
            final(self).wf(),
            final(self).src() == old(self).src(),
            final(self).at() == old(self).at() + int_scan(old(self).src(), old(self).at()).used,
            r == int_scan(old(self).src(), old(self).at()).res,
    {
        let ghost s = old(self).src();
        let ghost p0 = old(self).at();
        let neg = if self.next_if('-') {
            true
        } else {
            self.next_if('+');
            false
        };
        proof {
            assert(self.at() == p0 + sign_len(s, p0));
        }
        let (dstart, dend) = self.scan_number();
        if dstart == dend {
            return Err(DecodeError::IntegerFormat);
        }
        proof {
            lemma_digit_run(s, dstart as int);
        }
        let ghost digits = s.subrange(dstart as int, dend as int);
        let mut i: usize = dstart;
        let mut acc: u64 = 0;
        let mut fits = true;
        while i < dend
            invariant
                self.wf(),
                s == self.src(),
                dstart <= i <= dend,
                dend <= self.len,
                digits == s.subrange(dstart as int, dend as int),
                forall|j: int| dstart <= j < dend ==> is_digit_char(#[trigger] s[j]),
                fits ==> acc == digits_val(s.subrange(dstart as int, i as int)),
                !fits ==> digits_val(s.subrange(dstart as int, i as int)) > u64::MAX,
            decreases dend - i,
        {
            let c = self.buf.get_char(i);
            let d: u64 = (c as u32 - '0' as u32) as u64;
            proof {
                assert(s.subrange(dstart as int, i + 1).drop_last() =~= s.subrange(
                    dstart as int,
                    i as int,
                ));
                assert(s.subrange(dstart as int, i + 1).last() == s[i as int]);
            }
            if fits {
                let wide: u128 = acc as u128 * 10 + d as u128;
                if wide > u64::MAX as u128 {
                    fits = false;
                } else {
                    acc = wide as u64;
                }
            } else {
                proof {
                    let prev = digits_val(s.subrange(dstart as int, i as int));
                    assert(digits_val(s.subrange(dstart as int, i + 1)) == prev * 10 + digit_val(
                        s[i as int],
                    ));
                    assert(prev * 10 >= prev) by (nonlinear_arith)
                        requires
                            prev >= 0,
                    ;
                }
            }
            i = i + 1;
        }
        let ghost mag = digits_val(digits);
        if !fits {
            return Err(DecodeError::IntegerFormat);
        }
        if neg {
            if acc <= 9223372036854775808u64 {
                if acc == 9223372036854775808u64 {
                    Ok(i64::MIN)
                } else {
                    Ok(-(acc as i64))
                }
            } else {
                Err(DecodeError::IntegerFormat)
            }
        } else {
            if acc <= i64::MAX as u64 {
                Ok(acc as i64)
            } else {
                Err(DecodeError::IntegerFormat)
            }
        }
    }

    /// Decode a `+` frame at the cursor.
    fn scan_simple_string(&mut self) -> (r: Result<Token<'a>, DecodeError>)
        requires
            old(self).wf(),
            old(self).at() < old(self).src().len(),
            old(self).src()[old(self).at()] == '+',
        ensures
            final(self).wf(),
            final(self).src() == old(self).src(),
            frame_obeys(*old(self), *final(self), r, spec_status(old(self).src(), old(self).at())),
    {
        self.next_if('+');
        let text = self.scan_string();
        match self.skip_line() {
            None => Err(DecodeError::IncompleteFrame),
            Some(_) => Ok(Token::SimpleString(text)),
        }
    }

    /// Decode a `-` frame at the cursor.
    fn scan_error(&mut self) -> (r: Result<Token<'a>, DecodeError>)
        requires
            old(self).wf(),
            old(self).at() < old(self).src().len(),
            old(self).src()[old(self).at()] == '-',
        ensures
            final(self).wf(),
            final(self).src() == old(self).src(),
            frame_obeys(*old(self), *final(self), r, spec_error(old(self).src(), old(self).at())),
    {
        self.next_if('-');
        let text = self.scan_string();
        match self.skip_line() {
            None => Err(DecodeError::IncompleteFrame),
            Some(_) => Ok(Token::Error(text)),
        }
    }

    /// Decode a `!` frame at the cursor.
    fn scan_big_error(&mut self) -> (r: Result<Token<'a>, DecodeError>)
        requires
            old(self).wf(),
            old(self).at() < old(self).src().len(),
            old(self).src()[old(self).at()] == '!',
        ensures
            final(self).wf(),
            final(self).src() == old(self).src(),
            frame_obeys(
                *old(self),
                *final(self),
                r,
                spec_blob_error(old(self).src(), old(self).at()),
            ),
    {
        self.next_if('!');
        let text = self.scan_string();
        match self.skip_line() {
            None => Err(DecodeError::IncompleteFrame),
            Some(_) => Ok(Token::BigErr(text)),
        }
    }

    /// Decode a `:` frame at the cursor.
    fn scan_integer(&mut self) -> (r: Result<Token<'a>, DecodeError>)
        requires
            old(self).wf(),
            old(self).at() < old(self).src().len(),
            old(self).src()[old(self).at()] == ':',
        ensures
            final(self).wf(),
            final(self).src() == old(self).src(),
            frame_obeys(
                *old(self),
                *final(self),
                r,
                spec_integer(old(self).src(), old(self).at()),
            ),
    {
        self.next_if(':');
        let parsed = self.get_integer();
        match self.skip_line() {
            None => Err(DecodeError::IncompleteFrame),
            Some(_) => match parsed {
                Ok(v) => Ok(Token::Integer(v)),
                Err(e) => Err(e),
            },
        }
    }

    /// Decode a `#` frame at the cursor.
    fn scan_boolean(&mut self) -> (r: Result<Token<'a>, DecodeError>)
        requires
            old(self).wf(),
            old(self).at() < old(self).src().len(),
            old(self).src()[old(self).at()] == '#',
        ensures
            final(self).wf(),
            final(self).src() == old(self).src(),
            frame_obeys(
                *old(self),
                *final(self),
                r,
                spec_boolean(old(self).src(), old(self).at()),
            ),
    {
        self.next_if('#');
        let value = if self.next_if('t') {
            true
        } else if self.next_if('f') {
            false
        } else {
            if self.pos >= self.len {
                return Err(DecodeError::IncompleteFrame);
            }
            return Err(DecodeError::BooleanFormat);
        };
        match self.skip_line() {
            None => Err(DecodeError::IncompleteFrame),
            Some(_) => Ok(Token::Boolean(value)),
        }
    }

    /// Decode a `,` frame at the cursor: the numeral's raw text is the
    /// payload.
    fn scan_double(&mut self) -> (r: Result<Token<'a>, DecodeError>)
        requires
            old(self).wf(),
            old(self).at() < old(self).src().len(),
            old(self).src()[old(self).at()] == ',',
        ensures
            final(self).wf(),
            final(self).src() == old(self).src(),
            frame_obeys(*old(self), *final(self), r, spec_double(old(self).src(), old(self).at())),
    {
        self.next_if(',');
        let start = self.pos;
        if !self.next_if('-') {
            self.next_if('+');
        }
        self.scan_number();
        if self.next_if('.') {
            self.scan_number();
        }
        let has_exp = if self.next_if('e') {
            true
        } else {
            self.next_if('E')
        };
        if has_exp {
            if !self.next_if('-') {
                self.next_if('+');
            }
            self.scan_number();
        }
        let text = self.buf.substring_char(start, self.pos);
        match self.skip_line() {
            None => Err(DecodeError::IncompleteFrame),
            Some(_) => Ok(Token::Double(text)),
        }
    }

    /// Decode a `(` frame at the cursor: the numeral's raw text is the
    /// payload.
    fn scan_big_number(&mut self) -> (r: Result<Token<'a>, DecodeError>)
        requires
            old(self).wf(),
            old(self).at() < old(self).src().len(),
            old(self).src()[old(self).at()] == '(',
        ensures
            final(self).wf(),
            final(self).src() == old(self).src(),
            frame_obeys(
                *old(self),
                *final(self),
                r,
                spec_big_number(old(self).src(), old(self).at()),
            ),
    {
        self.next_if('(');
        let start = self.pos;
        if !self.next_if('-') {
            self.next_if('+');
        }
        self.scan_number();
        let text = self.buf.substring_char(start, self.pos);
        match self.skip_line() {
            None => Err(DecodeError::IncompleteFrame),
            Some(_) => Ok(Token::BigNumber(text)),
        }
    }

    /// Capture the maximal run of line characters at the cursor that
    /// stays below the offset `limit`, as a borrowed slice.
    fn scan_string_upto(&mut self, limit: usize) -> (t: &'a str)
        requires
            old(self).wf(),
        ensures
            final(self).wf(),
            final(self).src() == old(self).src(),
            final(self).at() == old(self).at() + bounded_run_len(
                old(self).src(),
                old(self).at(),
                limit as int,
            ),
            t@ == old(self).src().subrange(old(self).at(), final(self).at()),
    {
        let start = self.pos;
        loop
            invariant
                self.wf(),
                self.src() == old(self).src(),
                start <= self.pos,
                bounded_run_len(self.src(), start as int, limit as int) == self.pos - start
                    + bounded_run_len(self.src(), self.at(), limit as int),
            ensures
                self.wf(),
                self.src() == old(self).src(),
                start <= self.pos,
                bounded_run_len(self.src(), start as int, limit as int) == self.pos - start,
            decreases self.len - self.pos,
        {
            if self.pos < self.len && self.pos < limit {
                let c = self.buf.get_char(self.pos);
                if c != '\r' && c != '\n' {
                    self.pos = self.pos + 1;
                    continue ;
                }
            }
            proof {
                assert(bounded_run_len(self.src(), self.at(), limit as int) == 0);
            }
            break ;
        }
        self.buf.substring_char(start, self.pos)
    }

    /// Capture exactly `k` characters at the cursor, or whatever remains
    /// of the buffer if that is less, as a borrowed slice.
    fn scan_take(&mut self, k: usize) -> (t: &'a str)
        requires
            old(self).wf(),
        ensures
            final(self).wf(),
            final(self).src() == old(self).src(),
            final(self).at() == old(self).at() + take_len(old(self).src(), old(self).at(), k as nat),
            t@ == old(self).src().subrange(old(self).at(), final(self).at()),
    {
        let start = self.pos;
        let rem = self.len - self.pos;
        let step = if k <= rem {
            k
        } else {
            rem
        };
        self.pos = self.pos + step;
        self.buf.substring_char(start, self.pos)
    }

    /// Decode a `$` frame at the cursor: a signed length, then for a
    /// non-negative length that many payload characters and the
    /// terminator; a negative length is the null bulk string.
    fn scan_bulk_string(&mut self) -> (r: Result<Token<'a>, DecodeError>)
        requires
            old(self).wf(),
            old(self).at() < old(self).src().len(),
            old(self).src()[old(self).at()] == '$',
        ensures
            final(self).wf(),
            final(self).src() == old(self).src(),
            frame_obeys(
                *old(self),
                *final(self),
                r,
                spec_bulk_string(old(self).src(), old(self).at()),
            ),
    {
        self.next_if('$');
        let parsed = self.get_integer();
        if self.skip_line().is_none() {
            return Err(DecodeError::IncompleteFrame);
        }
        let count = match parsed {
            Ok(c) => c,
            Err(e) => return Err(e),
        };
        if count < 0 {
            return Ok(Token::BulkString(None));
        }
        let rem = self.len - self.pos;
        let limit: usize = if (count as u64) <= (rem as u64) {
            self.pos + (count as usize)
        } else {
            self.len
        };
        let text = self.scan_string_upto(limit);
        match self.skip_line() {
            None => Err(DecodeError::IncompleteFrame),
            Some(_) => Ok(Token::BulkString(Some(text))),
        }
    }

    /// Decode an `=` frame at the cursor: a signed total length, three
    /// tag characters, a literal `:`, and the remaining `length - 4`
    /// payload characters.
    fn scan_verbatim_string(&mut self) -> (r: Result<Token<'a>, DecodeError>)
        requires
            old(self).wf(),
            old(self).at() < old(self).src().len(),
            old(self).src()[old(self).at()] == '=',
        ensures
            final(self).wf(),
            final(self).src() == old(self).src(),
            frame_obeys(
                *old(self),
                *final(self),
                r,
                spec_verbatim_string(old(self).src(), old(self).at()),
            ),
    {
        self.next_if('=');
        let parsed = self.get_integer();
        if self.skip_line().is_none() {
            return Err(DecodeError::IncompleteFrame);
        }
        let count = match parsed {
            Ok(c) => c,
            Err(e) => return Err(e),
        };
        if count < 4 {
            return Err(DecodeError::IncompleteFrame);
        }
        let tag = self.scan_take(3);
        if !self.next_if(':') {
            return Err(DecodeError::IncompleteFrame);
        }
        let wanted: u64 = (count - 4) as u64;
        let rem = self.len - self.pos;
        let k: usize = if wanted <= (rem as u64) {
            wanted as usize
        } else {
            rem
        };
        proof {
            assert(take_len(old(self).src(), self.at(), k as nat) == take_len(
                old(self).src(),
                self.at(),
                (count - 4) as nat,
            ));
        }
        let text = self.scan_take(k);
        match self.skip_line() {
            None => Err(DecodeError::IncompleteFrame),
            Some(_) => Ok(Token::VerbatimString(tag, text)),
        }
    }

    /// Decode the body of an aggregate frame once its count is parsed:
    /// a negative count consumes one more line terminator and yields the
    /// null aggregate; a non-negative count pulls exactly that many
    /// element frames.
    #[verifier::loop_isolation(false)]
    fn get_collections(&mut self, count: i64) -> (r: Result<
        Option<Vec<Token<'a>>>,
        DecodeError,
    >)
        requires
            old(self).wf(),
        ensures
            final(self).wf(),
            final(self).src() == old(self).src(),
            count < 0 ==> (if old(self).at() >= old(self).src().len() {
                r matches Err(e) && e == DecodeError::IncompleteFrame && final(self).at() == old(
                    self,
                ).at()
            } else {
                r matches Ok(p) && p is None && final(self).at() == old(self).at() + crlf_len(
                    old(self).src(),
                    old(self).at(),
                )
            }),
            count >= 0 ==> (match spec_elems(old(self).src(), old(self).at(), count as nat) {
                Elems::Parsed { items, used } => r matches Ok(p) && p matches Some(v)
                    && tokens_view(v@) == items && final(self).at() == old(self).at() + used,
                Elems::Failed { err, used } => r matches Err(e) && e == err && final(self).at()
                    == old(self).at() + used,
            }),
        decreases old(self).src().len() - old(self).at(), 2int,
    {
        let ghost s = old(self).src();
        let ghost p0 = old(self).at();
        if count < 0 {
            return match self.skip_line() {
                None => Err(DecodeError::IncompleteFrame),
                Some(_) => Ok(None),
            };
        }
        let n: u64 = count as u64;
        let mut list: Vec<Token<'a>> = Vec::new();
        let mut i: u64 = 0;
        proof {
            assert(tokens_view(list@) =~= Seq::<crate::token::TokenV>::empty());
        }
        while i < n
            invariant
                self.wf(),
                self.src() == s,
                p0 <= self.at(),
                i <= n,
                n == count,
                match spec_elems(s, self.at(), (n - i) as nat) {
                    Elems::Parsed { items, used } => spec_elems(s, p0, n as nat) matches
                        Elems::Parsed { items: gitems, used: gused } && gitems == tokens_view(
                        list@,
                    ) + items && gused == self.at() - p0 + used,
                    Elems::Failed { err, used } => spec_elems(s, p0, n as nat) matches
                        Elems::Failed { err: gerr, used: gused } && gerr == err && gused
                        == self.at() - p0 + used,
                },
            decreases n - i,
        {
            let ghost pc = self.at();
            match self.next() {
                None => {
                    return Err(DecodeError::IncompleteFrame);
                },
                Some(Ok(t)) => {
                    proof {
                        lemma_tokens_view_push(list@, t);
                        if let Outcome::Tok { tok, used } = spec_pull(s, pc) {
                            if let Elems::Parsed { items, used: more } = spec_elems(
                                s,
                                pc + used,
                                (n - i - 1) as nat,
                            ) {
                                assert(tokens_view(list@) + (seq![tok] + items) =~= tokens_view(
                                    list@.push(t),
                                ) + items);
                            }
                        }
                    }
                    list.push(t);
                },
                Some(Err(e)) => {
                    return Err(e);
                },
            }
            i = i + 1;
        }
        proof {
            assert(tokens_view(list@) + Seq::<crate::token::TokenV>::empty() =~= tokens_view(
                list@,
            ));
        }
        Ok(Some(list))
    }

    /// Decode a `*` frame at the cursor.
    fn scan_array(&mut self) -> (r: Result<Token<'a>, DecodeError>)
        requires
            old(self).wf(),
            old(self).at() < old(self).src().len(),
            old(self).src()[old(self).at()] == '*',
        ensures
            final(self).wf(),
            final(self).src() == old(self).src(),
            frame_obeys(
                *old(self),
                *final(self),
                r,
                spec_aggregate(old(self).src(), old(self).at(), false),
            ),
        decreases old(self).src().len() - old(self).at(), 0int,
    {
        self.next_if('*');
        let parsed = self.get_integer();
        if self.skip_line().is_none() {
            return Err(DecodeError::IncompleteFrame);
        }
        let count = match parsed {
            Ok(c) => c,
            Err(e) => return Err(e),
        };
        match self.get_collections(count) {
            Ok(Some(v)) => Ok(Token::Array(Some(v))),
            Ok(None) => Ok(Token::Array(None)),
            Err(e) => Err(e),
        }
    }

    /// Decode a `~` frame at the cursor.
    fn scan_set(&mut self) -> (r: Result<Token<'a>, DecodeError>)
        requires
            old(self).wf(),
            old(self).at() < old(self).src().len(),
            old(self).src()[old(self).at()] == '~',
        ensures
            final(self).wf(),
            final(self).src() == old(self).src(),
            frame_obeys(
                *old(self),
                *final(self),
                r,
                spec_aggregate(old(self).src(), old(self).at(), true),
            ),
        decreases old(self).src().len() - old(self).at(), 0int,
    {
        self.next_if('~');
        let parsed = self.get_integer();
        if self.skip_line().is_none() {
            return Err(DecodeError::IncompleteFrame);
        }
        let count = match parsed {
            Ok(c) => c,
            Err(e) => return Err(e),
        };
        match self.get_collections(count) {
            Ok(Some(v)) => Ok(Token::SetOf(Some(v))),
            Ok(None) => Ok(Token::SetOf(None)),
            Err(e) => Err(e),
        }
    }

    /// Pull one frame at the cursor: `None` once the cursor stands at
    /// the end of the buffer, otherwise the frame selected by the sigil
    /// there.  The cursor only ever advances.
    pub fn next(&mut self) -> (r: Option<Result<Token<'a>, DecodeError>>)
        requires
            old(self).wf(),
        ensures
            final(self).wf(),
            final(self).src() == old(self).src(),
            final(self).at() >= old(self).at(),
            pull_obeys(*old(self), *final(self), r, spec_pull(old(self).src(), old(self).at())),
        decreases old(self).src().len() - old(self).at(), 1int,
    {
        let c = match self.peek() {
            None => return None,
            Some(c) => c,
        };
        let res = match c {
            '+' => self.scan_simple_string(),
            '-' => self.scan_error(),
            ':' => self.scan_integer(),
            '$' => self.scan_bulk_string(),
            '*' => self.scan_array(),
            '~' => self.scan_set(),
            ',' => self.scan_double(),
            '#' => self.scan_boolean(),
            '(' => self.scan_big_number(),
            '!' => self.scan_big_error(),
            '=' => self.scan_verbatim_string(),
            _ => Err(DecodeError::UnrecognizedSigil),
        };
        Some(res)
    }
}

/// A RESP protocol parser over one borrowed buffer: the caller-facing
/// entry point of the crate.
#[derive(Debug)]
pub struct Parser<'a> {
    buf: &'a str,
}

impl<'a> Parser<'a> {
    /// The character sequence of the buffer.
    pub closed spec fn src(self) -> Seq<char> {
        self.buf@
    }

    /// A parser over `buf`.
    pub fn new(buf: &'a str) -> (p: Parser<'a>)
        ensures
            p.src() == buf@,
    {
        Parser { buf }
    }

    /// Begin a decoding session: a lexer over the whole buffer, at its
    /// start.  Each pull on the lexer consumes one frame.
    pub fn parse(&self) -> (l: Lexer<'a>)
        ensures
            l.wf(),
            l.src() == self.src(),
            l.at() == 0,
    {
        Lexer::new(self.buf)
    }
}

} // verus!
