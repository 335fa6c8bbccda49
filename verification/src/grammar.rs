//! The RESP wire grammar, stated as specification functions over the
//! buffer's character sequence.
//!
//! `spec_pull` says, for a buffer and a starting offset, what pulling one
//! token yields: end of input, a token, or a typed error, together with
//! how many characters the pull consumes.  The executable lexer is
//! verified against these functions.

use crate::token::DecodeError;
use crate::token::TokenV;
use vstd::prelude::*;

verus! {

/// A character that may appear in a line-terminated payload.
pub open spec fn is_line_char(c: char) -> bool {
    c != '\r' && c != '\n'
}

/// An ASCII decimal digit.
pub open spec fn is_digit_char(c: char) -> bool {
    '0' as u32 <= c as u32 && c as u32 <= '9' as u32
}

/// A sign character.
pub open spec fn is_sign_char(c: char) -> bool {
    c == '+' || c == '-'
}

/// Length of the maximal run of characters satisfying `pred`, starting
/// at `pos`.
pub open spec fn run_len(s: Seq<char>, pos: int, pred: spec_fn(char) -> bool) -> nat
    decreases s.len() - pos,
{
    if pos < 0 || pos >= s.len() || !pred(s[pos]) {
        0
    } else {
        1 + run_len(s, pos + 1, pred)
    }
}

/// Length of the maximal run of line characters starting at `pos`.
pub open spec fn line_run(s: Seq<char>, pos: int) -> nat {
    run_len(s, pos, |c: char| is_line_char(c))
}

/// Length of the maximal run of ASCII digits starting at `pos`.
pub open spec fn digit_run(s: Seq<char>, pos: int) -> nat {
    run_len(s, pos, |c: char| is_digit_char(c))
}

/// Length of the maximal run of line characters starting at `pos` and
/// stopping at offset `limit`.
pub open spec fn bounded_run_len(s: Seq<char>, pos: int, limit: int) -> nat
    decreases limit - pos,
{
    if pos < 0 || pos >= s.len() || pos >= limit || !is_line_char(s[pos]) {
        0
    } else {
        1 + bounded_run_len(s, pos + 1, limit)
    }
}

/// Number of characters captured when taking `k` characters starting at
/// `pos`: `k` itself, or whatever remains of the buffer.
pub open spec fn take_len(s: Seq<char>, pos: int, k: nat) -> nat {
    if pos < 0 || pos >= s.len() {
        0
    } else if pos + k <= s.len() {
        k
    } else {
        (s.len() - pos) as nat
    }
}

/// 1 if a sign character stands at `pos`, else 0.
pub open spec fn sign_len(s: Seq<char>, pos: int) -> nat {
    if 0 <= pos < s.len() && is_sign_char(s[pos]) {
        1
    } else {
        0
    }
}

/// Number of characters the lenient line terminator consumes at `pos`:
/// an optional `\r` followed by an optional `\n`.
pub open spec fn crlf_len(s: Seq<char>, pos: int) -> nat {
    if 0 <= pos < s.len() && s[pos] == '\r' {
        if pos + 1 < s.len() && s[pos + 1] == '\n' {
            2
        } else {
            1
        }
    } else if 0 <= pos < s.len() && s[pos] == '\n' {
        1
    } else {
        0
    }
}

/// Numeric value of one ASCII digit.
pub open spec fn digit_val(c: char) -> nat {
    (c as u32 - '0' as u32) as nat
}

/// Value of a sequence of ASCII digits read in base 10.
pub open spec fn digits_val(ds: Seq<char>) -> nat
    decreases ds.len(),
{
    if ds.len() == 0 {
        0
    } else {
        digits_val(ds.drop_last()) * 10 + digit_val(ds.last())
    }
}

/// What scanning a signed 64-bit numeral at `pos` yields: the number of
/// characters consumed (an optional sign and the digit run after it) and
/// either the value or the error.
pub struct IntScan {
    pub used: nat,
    pub res: Result<i64, DecodeError>,
}

/// Scan an optional sign and a digit run at `pos` and parse them as a
/// 64-bit signed integer.  An empty digit run or a value outside the
/// `i64` range is an `IntegerFormat` error; the characters are consumed
/// either way.
pub open spec fn int_scan(s: Seq<char>, pos: int) -> IntScan {
    let k = sign_len(s, pos);
    let d = digit_run(s, pos + k);
    let used = k + d;
    if d == 0 {
        IntScan { used, res: Err(DecodeError::IntegerFormat) }
    } else {
        let neg = k == 1 && s[pos] == '-';
        let mag = digits_val(s.subrange(pos + k, pos + k + d));
        if !neg && mag <= i64::MAX as nat {
            IntScan { used, res: Ok(mag as i64) }
        } else if neg && mag <= i64::MAX as nat + 1 {
            IntScan { used, res: Ok((-(mag as int)) as i64) }
        } else {
            IntScan { used, res: Err(DecodeError::IntegerFormat) }
        }
    }
}

/// What one pull yields: end of input, a token, or a typed error; `used`
/// counts the characters consumed from the starting offset.
pub enum Outcome {
    End,
    Tok { tok: TokenV, used: nat },
    Fail { err: DecodeError, used: nat },
}

/// A line-payload frame (`+`, `-` or `!`, at `pos`): the payload is the
/// maximal line-character run after the sigil, then the terminator.
/// `spec_status`, `spec_error` and `spec_blob_error` wrap the result in
/// the right variant.
pub open spec fn line_frame_text(s: Seq<char>, pos: int) -> Seq<char> {
    s.subrange(pos + 1, pos + 1 + line_run(s, pos + 1))
}

/// Offset just past the payload of a line frame at `pos`.
pub open spec fn line_frame_end(s: Seq<char>, pos: int) -> int {
    pos + 1 + line_run(s, pos + 1)
}

/// Build a line-frame outcome at `pos` from the given constructor.
pub open spec fn spec_line_frame(s: Seq<char>, pos: int, tok: TokenV) -> Outcome {
    let e = line_frame_end(s, pos);
    if e >= s.len() {
        Outcome::Fail {
            err: DecodeError::IncompleteFrame,
            used: 1 + line_run(s, pos + 1),
        }
    } else {
        Outcome::Tok { tok, used: 1 + line_run(s, pos + 1) + crlf_len(s, e) }
    }
}

/// A `+` frame at `pos`.
pub open spec fn spec_status(s: Seq<char>, pos: int) -> Outcome {
    spec_line_frame(s, pos, TokenV::SimpleString(line_frame_text(s, pos)))
}

/// A `-` frame at `pos`.
pub open spec fn spec_error(s: Seq<char>, pos: int) -> Outcome {
    spec_line_frame(s, pos, TokenV::Error(line_frame_text(s, pos)))
}

/// A `!` frame at `pos`.
pub open spec fn spec_blob_error(s: Seq<char>, pos: int) -> Outcome {
    spec_line_frame(s, pos, TokenV::BigErr(line_frame_text(s, pos)))
}

/// A `:` frame at `pos`: a signed 64-bit numeral, then the terminator.
/// The terminator is consumed even when the numeral fails to parse; only
/// a buffer that ends right after the numeral is an incomplete frame.
pub open spec fn spec_integer(s: Seq<char>, pos: int) -> Outcome {
    let sc = int_scan(s, pos + 1);
    let e = pos + 1 + sc.used;
    if e >= s.len() {
        Outcome::Fail { err: DecodeError::IncompleteFrame, used: 1 + sc.used }
    } else {
        match sc.res {
            Ok(v) => Outcome::Tok {
                tok: TokenV::Integer(v),
                used: 1 + sc.used + crlf_len(s, e),
            },
            Err(err) => Outcome::Fail { err, used: 1 + sc.used + crlf_len(s, e) },
        }
    }
}

/// A `#` frame at `pos`: exactly `t` or `f`, then the terminator.
pub open spec fn spec_boolean(s: Seq<char>, pos: int) -> Outcome {
    if pos + 1 >= s.len() {
        Outcome::Fail { err: DecodeError::IncompleteFrame, used: 1 }
    } else if s[pos + 1] == 't' || s[pos + 1] == 'f' {
        if pos + 2 >= s.len() {
            Outcome::Fail { err: DecodeError::IncompleteFrame, used: 2 }
        } else {
            Outcome::Tok {
                tok: TokenV::Boolean(s[pos + 1] == 't'),
                used: 2 + crlf_len(s, pos + 2),
            }
        }
    } else {
        Outcome::Fail { err: DecodeError::BooleanFormat, used: 1 }
    }
}

/// Number of characters of the double numeral at `pos`: an optional sign
/// and a digit run, an optional `.` with a digit run, and an optional
/// `e`/`E` with an optional sign and a digit run.
pub open spec fn double_numeral_len(s: Seq<char>, pos: int) -> nat {
    let m = sign_len(s, pos) + digit_run(s, pos + sign_len(s, pos));
    let p1 = pos + m;
    let f = if p1 < s.len() && s[p1] == '.' {
        1 + digit_run(s, p1 + 1)
    } else {
        0
    };
    let p2 = p1 + f;
    let x = if p2 < s.len() && (s[p2] == 'e' || s[p2] == 'E') {
        1 + sign_len(s, p2 + 1) + digit_run(s, p2 + 1 + sign_len(s, p2 + 1))
    } else {
        0
    };
    m + f + x
}

/// A `,` frame at `pos`: the raw text of the numeral is kept, then the
/// terminator.
pub open spec fn spec_double(s: Seq<char>, pos: int) -> Outcome {
    let n = double_numeral_len(s, pos + 1);
    let e = pos + 1 + n;
    if e >= s.len() {
        Outcome::Fail { err: DecodeError::IncompleteFrame, used: 1 + n }
    } else {
        Outcome::Tok {
            tok: TokenV::Double(s.subrange(pos + 1, e)),
            used: 1 + n + crlf_len(s, e),
        }
    }
}

/// A `(` frame at `pos`: an optional sign and a digit run, kept as raw
/// text, then the terminator.
pub open spec fn spec_big_number(s: Seq<char>, pos: int) -> Outcome {
    let n = sign_len(s, pos + 1) + digit_run(s, pos + 1 + sign_len(s, pos + 1));
    let e = pos + 1 + n;
    if e >= s.len() {
        Outcome::Fail { err: DecodeError::IncompleteFrame, used: 1 + n }
    } else {
        Outcome::Tok {
            tok: TokenV::BigNumber(s.subrange(pos + 1, e)),
            used: 1 + n + crlf_len(s, e),
        }
    }
}

/// Number of characters consumed by the length-prefix header of a `$`,
/// `*`, `~` or `=` frame at `pos`: the sigil, the numeral, and the
/// terminator after it.
pub open spec fn header_len(s: Seq<char>, pos: int) -> nat {
    1 + int_scan(s, pos + 1).used + crlf_len(s, pos + 1 + int_scan(s, pos + 1).used)
}

/// A `$` frame at `pos`: a signed length, the terminator, and for a
/// non-negative length that many payload characters (the capture stops
/// early at a terminator character or at the end of the buffer), then
/// the terminator.  A negative length is the null bulk string.
pub open spec fn spec_bulk_string(s: Seq<char>, pos: int) -> Outcome {
    let sc = int_scan(s, pos + 1);
    let e = pos + 1 + sc.used;
    if e >= s.len() {
        Outcome::Fail { err: DecodeError::IncompleteFrame, used: 1 + sc.used }
    } else {
        let h = header_len(s, pos);
        let body = pos + h;
        match sc.res {
            Err(err) => Outcome::Fail { err, used: h },
            Ok(count) => if count < 0 {
                Outcome::Tok { tok: TokenV::BulkString(None), used: h }
            } else {
                let limit = if body + count <= s.len() {
                    body + count
                } else {
                    s.len() as int
                };
                let m = bounded_run_len(s, body, limit);
                if body + m >= s.len() {
                    Outcome::Fail { err: DecodeError::IncompleteFrame, used: h + m }
                } else {
                    Outcome::Tok {
                        tok: TokenV::BulkString(Some(s.subrange(body, body + m))),
                        used: h + m + crlf_len(s, body + m),
                    }
                }
            },
        }
    }
}

/// An `=` frame at `pos`: a signed total length, the terminator, three
/// tag characters, a literal `:`, `length - 4` payload characters, and
/// the terminator.  A length below 4 or a buffer too short for the
/// declared length is an incomplete frame.
pub open spec fn spec_verbatim_string(s: Seq<char>, pos: int) -> Outcome {
    let sc = int_scan(s, pos + 1);
    let e = pos + 1 + sc.used;
    if e >= s.len() {
        Outcome::Fail { err: DecodeError::IncompleteFrame, used: 1 + sc.used }
    } else {
        let h = header_len(s, pos);
        let body = pos + h;
        match sc.res {
            Err(err) => Outcome::Fail { err, used: h },
            Ok(count) => if count < 4 {
                Outcome::Fail { err: DecodeError::IncompleteFrame, used: h }
            } else {
                let tl = take_len(s, body, 3);
                let colon = body + tl;
                if colon < s.len() && s[colon] == ':' {
                    let bl = take_len(s, colon + 1, (count - 4) as nat);
                    let tail = colon + 1 + bl;
                    if tail >= s.len() {
                        Outcome::Fail {
                            err: DecodeError::IncompleteFrame,
                            used: h + tl + 1 + bl,
                        }
                    } else {
                        Outcome::Tok {
                            tok: TokenV::VerbatimString(
                                s.subrange(body, colon),
                                s.subrange(colon + 1, tail),
                            ),
                            used: h + tl + 1 + bl + crlf_len(s, tail),
                        }
                    }
                } else {
                    Outcome::Fail { err: DecodeError::IncompleteFrame, used: h + tl }
                }
            },
        }
    }
}

/// What decoding a run of `n` frames at `pos` yields: the models of the
/// decoded frames, or the first error; `used` counts the characters
/// consumed either way.
pub enum Elems {
    Parsed { items: Seq<TokenV>, used: nat },
    Failed { err: DecodeError, used: nat },
}

/// Decode exactly `n` frames at `pos`.  Reaching the end of the buffer
/// before `n` frames were pulled is an incomplete frame; a frame's error
/// aborts the run with that error.
pub open spec fn spec_elems(s: Seq<char>, pos: int, n: nat) -> Elems
    decreases s.len() - pos, 3int, n,
{
    if n == 0 {
        Elems::Parsed { items: Seq::empty(), used: 0 }
    } else if pos >= s.len() {
        Elems::Failed { err: DecodeError::IncompleteFrame, used: 0 }
    } else {
        match spec_pull(s, pos) {
            Outcome::End => Elems::Failed { err: DecodeError::IncompleteFrame, used: 0 },
            Outcome::Fail { err, used } => Elems::Failed { err, used },
            Outcome::Tok { tok, used } => {
                let next = if pos + used <= s.len() {
                    pos + used
                } else {
                    s.len() as int
                };
                match spec_elems(s, next, (n - 1) as nat) {
                    Elems::Parsed { items, used: more } => Elems::Parsed {
                        items: seq![tok] + items,
                        used: used + more,
                    },
                    Elems::Failed { err, used: more } => Elems::Failed {
                        err,
                        used: used + more,
                    },
                }
            },
        }
    }
}

/// A `*` or `~` frame at `pos`: a signed count and the terminator.  A
/// negative count is the null aggregate and consumes one more line
/// terminator; a non-negative count decodes exactly that many element
/// frames.
pub open spec fn spec_aggregate(s: Seq<char>, pos: int, as_set: bool) -> Outcome
    decreases s.len() - pos, 1int, 0nat,
{
    let sc = int_scan(s, pos + 1);
    let e = pos + 1 + sc.used;
    if e >= s.len() {
        Outcome::Fail { err: DecodeError::IncompleteFrame, used: 1 + sc.used }
    } else {
        let h = header_len(s, pos);
        let body = pos + h;
        match sc.res {
            Err(err) => Outcome::Fail { err, used: h },
            Ok(count) => if count < 0 {
                if body >= s.len() {
                    Outcome::Fail { err: DecodeError::IncompleteFrame, used: h }
                } else {
                    let tok = if as_set {
                        TokenV::SetOf(None)
                    } else {
                        TokenV::Array(None)
                    };
                    Outcome::Tok { tok, used: h + crlf_len(s, body) }
                }
            } else {
                proof {
                    lemma_digit_run(s, pos + 1 + sign_len(s, pos + 1));
                }
                match spec_elems(s, body, count as nat) {
                    Elems::Parsed { items, used } => {
                        let tok = if as_set {
                            TokenV::SetOf(Some(items))
                        } else {
                            TokenV::Array(Some(items))
                        };
                        Outcome::Tok { tok, used: h + used }
                    },
                    Elems::Failed { err, used } => Outcome::Fail { err, used: h + used },
                }
            },
        }
    }
}

/// Pull one frame at `pos`: end of input at or past the buffer's end,
/// otherwise the frame selected by the sigil at `pos`.  A sigil matching
/// no known RESP type consumes nothing and is an `UnrecognizedSigil`
/// error.
pub open spec fn spec_pull(s: Seq<char>, pos: int) -> Outcome
    decreases s.len() - pos, 2int, 0nat,
{
    if pos < 0 || pos >= s.len() {
        Outcome::End
    } else {
        let c = s[pos];
        if c == '+' {
            spec_status(s, pos)
        } else if c == '-' {
            spec_error(s, pos)
        } else if c == ':' {
            spec_integer(s, pos)
        } else if c == '$' {
            spec_bulk_string(s, pos)
        } else if c == '*' {
            spec_aggregate(s, pos, false)
        } else if c == '~' {
            spec_aggregate(s, pos, true)
        } else if c == ',' {
            spec_double(s, pos)
        } else if c == '#' {
            spec_boolean(s, pos)
        } else if c == '(' {
            spec_big_number(s, pos)
        } else if c == '!' {
            spec_blob_error(s, pos)
        } else if c == '=' {
            spec_verbatim_string(s, pos)
        } else {
            Outcome::Fail { err: DecodeError::UnrecognizedSigil, used: 0 }
        }
    }
}

/// What the maximal digit run at `pos` satisfies: it stays within the
/// buffer, its characters are digits, and it stops only at the buffer's
/// end or at a non-digit.
pub proof fn lemma_digit_run(s: Seq<char>, pos: int)
    ensures
        pos <= s.len() ==> pos + digit_run(s, pos) <= s.len(),
        forall|i: int| pos <= i < pos + digit_run(s, pos) ==> is_digit_char(#[trigger] s[i]),
        0 <= pos + digit_run(s, pos) < s.len() ==> !is_digit_char(s[pos + digit_run(s, pos)]),
    decreases s.len() - pos,
{
    if 0 <= pos < s.len() && is_digit_char(s[pos]) {
        lemma_digit_run(s, pos + 1);
    }
}

/// A region of digits that stops at the buffer's end or at a non-digit
/// is exactly the maximal digit run.
pub proof fn lemma_digit_run_exact(s: Seq<char>, p: int, q: int)
    requires
        0 <= p <= q <= s.len(),
        forall|i: int| p <= i < q ==> is_digit_char(#[trigger] s[i]),
        q == s.len() || !is_digit_char(s[q]),
    ensures
        digit_run(s, p) == q - p,
    decreases q - p,
{
    if p < q {
        lemma_digit_run_exact(s, p + 1, q);
    }
}

/// A region of line characters that stops at the buffer's end or at a
/// line break is exactly the maximal line-character run.
pub proof fn lemma_line_run_exact(s: Seq<char>, p: int, q: int)
    requires
        0 <= p <= q <= s.len(),
        forall|i: int| p <= i < q ==> is_line_char(#[trigger] s[i]),
        q == s.len() || !is_line_char(s[q]),
    ensures
        line_run(s, p) == q - p,
    decreases q - p,
{
    if p < q {
        lemma_line_run_exact(s, p + 1, q);
    }
}

/// A region of line characters that stops at the bound, the buffer's
/// end, or a line break is exactly the bounded run.
pub proof fn lemma_bounded_run_exact(s: Seq<char>, p: int, q: int, limit: int)
    requires
        0 <= p <= q <= s.len(),
        q <= limit,
        forall|i: int| p <= i < q ==> is_line_char(#[trigger] s[i]),
        q == limit || q == s.len() || !is_line_char(s[q]),
    ensures
        bounded_run_len(s, p, limit) == q - p,
    decreases q - p,
{
    if p < q {
        lemma_bounded_run_exact(s, p + 1, q, limit);
    }
}

} // verus!
