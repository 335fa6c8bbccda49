//! General facts about the grammar: the canonical wire form of a token,
//! and round trips between encoding and decoding.

use crate::grammar::crlf_len;
use crate::grammar::digit_run;
use crate::grammar::digit_val;
use crate::grammar::digits_val;
use crate::grammar::int_scan;
use crate::grammar::is_digit_char;
use crate::grammar::is_line_char;
use crate::grammar::is_sign_char;
use crate::grammar::lemma_bounded_run_exact;
use crate::grammar::lemma_digit_run_exact;
use crate::grammar::lemma_line_run_exact;
use crate::grammar::line_run;
use crate::grammar::sign_len;
use crate::grammar::spec_elems;
use crate::grammar::spec_pull;
use crate::grammar::take_len;
use crate::grammar::Elems;
use crate::grammar::IntScan;
use crate::grammar::Outcome;
use crate::token::TokenV;
use vstd::prelude::*;

verus! {

/// Text free of `\r` and `\n`.
pub open spec fn no_line_break(t: Seq<char>) -> bool {
    forall|i: int| 0 <= i < t.len() ==> is_line_char(#[trigger] t[i])
}

/// Text made of an optional sign and digits only.
pub open spec fn numeral_text(t: Seq<char>) -> bool {
    let k: int = if t.len() > 0 && is_sign_char(t[0]) {
        1
    } else {
        0
    };
    forall|i: int| k <= i < t.len() ==> is_digit_char(#[trigger] t[i])
}

/// The ASCII digit for a value below ten.
pub open spec fn digit_char(d: nat) -> char {
    if d == 0 {
        '0'
    } else if d == 1 {
        '1'
    } else if d == 2 {
        '2'
    } else if d == 3 {
        '3'
    } else if d == 4 {
        '4'
    } else if d == 5 {
        '5'
    } else if d == 6 {
        '6'
    } else if d == 7 {
        '7'
    } else if d == 8 {
        '8'
    } else {
        '9'
    }
}

/// The decimal digits of `n`, most significant first.
pub open spec fn dec_digits(n: nat) -> Seq<char>
    decreases n,
{
    if n < 10 {
        seq![digit_char(n)]
    } else {
        dec_digits(n / 10).push(digit_char(n % 10))
    }
}

/// The decimal numeral of `v`: a `-` sign for negative values, then the
/// digits of the magnitude.
pub open spec fn dec_int(v: int) -> Seq<char> {
    if v < 0 {
        seq!['-'] + dec_digits((-v) as nat)
    } else {
        dec_digits(v as nat)
    }
}

/// The canonical line terminator.
pub open spec fn crlf_text() -> Seq<char> {
    seq!['\r', '\n']
}

/// The decimal digits of `n` are non-empty ASCII digits whose value is
/// `n` again.
pub proof fn lemma_dec_digits(n: nat)
    ensures
        dec_digits(n).len() >= 1,
        forall|i: int| 0 <= i < dec_digits(n).len() ==> is_digit_char(#[trigger] dec_digits(n)[i]),
        digits_val(dec_digits(n)) == n,
    decreases n,
{
    if n < 10 {
        assert(dec_digits(n) == seq![digit_char(n)]);
        assert(dec_digits(n).len() == 1);
        assert(dec_digits(n).last() == digit_char(n));
        assert(dec_digits(n).drop_last() =~= Seq::<char>::empty());
        assert(digits_val(Seq::<char>::empty()) == 0);
        assert('0' as u32 == 48);
        assert(digit_val(digit_char(n)) == n);
        assert(digits_val(dec_digits(n)) == digits_val(dec_digits(n).drop_last()) * 10 + digit_val(
            dec_digits(n).last(),
        ));
    } else {
        lemma_dec_digits(n / 10);
        assert(dec_digits(n).drop_last() =~= dec_digits(n / 10));
        assert(dec_digits(n).last() == digit_char(n % 10));
        assert(digit_val(digit_char(n % 10)) == n % 10);
        assert(digits_val(dec_digits(n)) == (n / 10) * 10 + n % 10);
    }
}

/// Scanning a buffer region that holds the decimal numeral of `v`,
/// followed by the buffer's end or a non-digit, parses back `v`.
pub proof fn lemma_int_scan_exact(s: Seq<char>, pos: int, v: int)
    requires
        i64::MIN <= v <= i64::MAX,
        0 <= pos,
        pos + dec_int(v).len() <= s.len(),
        s.subrange(pos, pos + dec_int(v).len()) == dec_int(v),
        pos + dec_int(v).len() == s.len() || !is_digit_char(s[pos + dec_int(v).len()]),
    ensures
        int_scan(s, pos) == (IntScan { used: dec_int(v).len(), res: Ok(v as i64) }),
{
    let w = dec_int(v);
    let e = pos + w.len();
    assert forall|i: int| 0 <= i < w.len() implies s[pos + i] == #[trigger] w[i] by {
        assert(s.subrange(pos, e)[i] == w[i]);
    }
    if v < 0 {
        let m = (-v) as nat;
        lemma_dec_digits(m);
        assert(w[0] == '-');
        assert(s[pos] == s[pos + 0] && s[pos + 0] == w[0]);
        assert(sign_len(s, pos) == 1);
        assert forall|i: int| pos + 1 <= i < e implies is_digit_char(#[trigger] s[i]) by {
            assert(s[i] == w[i - pos]);
            assert(w[i - pos] == dec_digits(m)[i - pos - 1]);
        }
        lemma_digit_run_exact(s, pos + 1, e);
        assert forall|j: int| 0 <= j < dec_digits(m).len() implies s.subrange(pos + 1, e)[j]
            == dec_digits(m)[j] by {
            assert(s[pos + 1 + j] == w[1 + j]);
            assert(w[1 + j] == dec_digits(m)[j]);
        }
        assert(s.subrange(pos + 1, e) =~= dec_digits(m));
        assert(digits_val(s.subrange(pos + 1, e)) == m);
        assert(m <= i64::MAX as nat + 1);
        assert((-(m as int)) as i64 == v as i64);
    } else {
        let m = v as nat;
        lemma_dec_digits(m);
        assert forall|i: int| pos <= i < e implies is_digit_char(#[trigger] s[i]) by {
            assert(s[i] == w[i - pos]);
            assert(w[i - pos] == dec_digits(m)[i - pos]);
        }
        assert(s[pos] == s[pos + 0] && s[pos + 0] == w[0]);
        assert(is_digit_char(s[pos]));
        assert(!is_sign_char(s[pos]));
        assert(sign_len(s, pos) == 0);
        lemma_digit_run_exact(s, pos, e);
        assert forall|j: int| 0 <= j < dec_digits(m).len() implies s.subrange(pos, e)[j]
            == dec_digits(m)[j] by {
            assert(s[pos + j] == w[j]);
        }
        assert(s.subrange(pos, e) =~= dec_digits(m));
        assert(digits_val(s.subrange(pos, e)) == m);
    }
}

/// Text made of ASCII digits only.
pub open spec fn all_digits(t: Seq<char>) -> bool {
    forall|i: int| 0 <= i < t.len() ==> is_digit_char(#[trigger] t[i])
}

/// `t` splits at `a` and `b` into a mantissa (an optional sign and
/// digits), an optional fraction (`.` and digits), and an optional
/// exponent (`e`/`E`, an optional sign, and digits).
pub open spec fn double_split_at(t: Seq<char>, a: int, b: int) -> bool {
    &&& 0 <= a <= b <= t.len()
    &&& numeral_text(t.subrange(0, a))
    &&& (a == b || (t[a] == '.' && all_digits(t.subrange(a + 1, b))))
    &&& (b == t.len() || ((t[b] == 'e' || t[b] == 'E') && numeral_text(
        t.subrange(b + 1, t.len() as int),
    )))
}

/// Text that the double scanner captures in full: a mantissa, an
/// optional fraction, and an optional exponent.
pub open spec fn double_text(t: Seq<char>) -> bool {
    exists|a: int, b: int| double_split_at(t, a, b)
}

/// A token whose payloads can be carried by the canonical wire form:
/// line payloads hold no line break, numeric payloads are numerals, and
/// declared lengths fit a 64-bit signed integer.
pub open spec fn token_wf(t: TokenV) -> bool
    decreases t,
{
    match t {
        TokenV::SimpleString(x) => no_line_break(x),
        TokenV::Error(x) => no_line_break(x),
        TokenV::BigErr(x) => no_line_break(x),
        TokenV::Integer(_) => true,
        TokenV::Boolean(_) => true,
        TokenV::Double(x) => double_text(x),
        TokenV::BigNumber(x) => numeral_text(x),
        TokenV::BulkString(p) => match p {
            None => true,
            Some(x) => no_line_break(x) && x.len() <= i64::MAX,
        },
        TokenV::VerbatimString(f, x) => f.len() == 3 && x.len() + 4 <= i64::MAX,
        TokenV::Array(p) => match p {
            None => true,
            Some(items) => items.len() <= i64::MAX && tokens_wf(items),
        },
        TokenV::SetOf(p) => match p {
            None => true,
            Some(items) => items.len() <= i64::MAX && tokens_wf(items),
        },
    }
}

/// Every token of the sequence is well formed.
pub open spec fn tokens_wf(items: Seq<TokenV>) -> bool
    decreases items,
{
    if items.len() == 0 {
        true
    } else {
        token_wf(items.first()) && tokens_wf(items.drop_first())
    }
}

/// The canonical wire form of a token: the frame that decodes back to
/// it.  A negative-count aggregate carries the extra line terminator its
/// decoding consumes.
pub open spec fn wire(t: TokenV) -> Seq<char>
    decreases t,
{
    match t {
        TokenV::SimpleString(x) => seq!['+'] + x + crlf_text(),
        TokenV::Error(x) => seq!['-'] + x + crlf_text(),
        TokenV::BigErr(x) => seq!['!'] + x + crlf_text(),
        TokenV::Integer(v) => seq![':'] + dec_int(v as int) + crlf_text(),
        TokenV::Boolean(b) => seq!['#'] + (if b {
            seq!['t']
        } else {
            seq!['f']
        }) + crlf_text(),
        TokenV::Double(x) => seq![','] + x + crlf_text(),
        TokenV::BigNumber(x) => seq!['('] + x + crlf_text(),
        TokenV::BulkString(None) => seq!['$'] + dec_int(-1) + crlf_text(),
        TokenV::BulkString(Some(x)) => seq!['$'] + dec_int(x.len() as int) + crlf_text() + x
            + crlf_text(),
        TokenV::VerbatimString(f, x) => seq!['='] + dec_int(x.len() + 4 as int) + crlf_text() + f
            + seq![':'] + x + crlf_text(),
        TokenV::Array(None) => seq!['*'] + dec_int(-1) + crlf_text() + crlf_text(),
        TokenV::Array(Some(items)) => seq!['*'] + dec_int(items.len() as int) + crlf_text()
            + wires(items),
        TokenV::SetOf(None) => seq!['~'] + dec_int(-1) + crlf_text() + crlf_text(),
        TokenV::SetOf(Some(items)) => seq!['~'] + dec_int(items.len() as int) + crlf_text()
            + wires(items),
    }
}

/// The concatenated wire forms of a sequence of tokens, in order.
pub open spec fn wires(items: Seq<TokenV>) -> Seq<char>
    decreases items,
{
    if items.len() == 0 {
        Seq::empty()
    } else {
        wire(items.first()) + wires(items.drop_first())
    }
}

/// The buffer holds the wire form of `t` at `pos`.
pub open spec fn wire_at(s: Seq<char>, pos: int, t: TokenV) -> bool {
    &&& 0 <= pos
    &&& pos + wire(t).len() <= s.len()
    &&& s.subrange(pos, pos + wire(t).len()) == wire(t)
}

/// A line payload followed by `\r\n` is captured in full: the maximal
/// line-character run is the payload, and the terminator takes two
/// characters.
proof fn lemma_line_payload(s: Seq<char>, p: int, x: Seq<char>)
    requires
        no_line_break(x),
        0 <= p,
        p + x.len() + 2 <= s.len(),
        forall|i: int| 0 <= i < x.len() ==> s[p + i] == #[trigger] x[i],
        s[p + x.len()] == '\r',
        s[p + x.len() + 1] == '\n',
    ensures
        line_run(s, p) == x.len(),
        s.subrange(p, p + x.len()) == x,
        crlf_len(s, p + x.len()) == 2,
{
    assert forall|i: int| p <= i < p + x.len() implies is_line_char(#[trigger] s[i]) by {
        assert(s[i] == x[i - p]);
    }
    lemma_line_run_exact(s, p, p + x.len());
    assert(s.subrange(p, p + x.len()) =~= x);
}

/// Decoding the wire form of a simple status reproduces it.
proof fn lemma_rt_status(s: Seq<char>, pos: int, x: Seq<char>)
    requires
        no_line_break(x),
        wire_at(s, pos, TokenV::SimpleString(x)),
    ensures
        spec_pull(s, pos) == (Outcome::Tok {
            tok: TokenV::SimpleString(x),
            used: wire(TokenV::SimpleString(x)).len(),
        }),
{
    let w = wire(TokenV::SimpleString(x));
    assert forall|i: int| 0 <= i < w.len() implies s[pos + i] == #[trigger] w[i] by {
        assert(s.subrange(pos, pos + w.len())[i] == w[i]);
    }
    assert(w.len() == x.len() + 3);
    assert(s[pos] == s[pos + 0] && s[pos + 0] == w[0] && w[0] == '+');
    assert forall|i: int| 0 <= i < x.len() implies s[pos + 1 + i] == #[trigger] x[i] by {
        assert(s[pos + (1 + i)] == w[1 + i]);
    }
    assert(s[pos + 1 + x.len()] == w[x.len() as int + 1] && w[x.len() as int + 1] == '\r');
    assert(s[pos + 1 + x.len() + 1] == w[x.len() as int + 2] && w[x.len() as int + 2] == '\n');
    lemma_line_payload(s, pos + 1, x);
}

/// Decoding the wire form of a simple error reproduces it.
proof fn lemma_rt_error(s: Seq<char>, pos: int, x: Seq<char>)
    requires
        no_line_break(x),
        wire_at(s, pos, TokenV::Error(x)),
    ensures
        spec_pull(s, pos) == (Outcome::Tok {
            tok: TokenV::Error(x),
            used: wire(TokenV::Error(x)).len(),
        }),
{
    let w = wire(TokenV::Error(x));
    assert forall|i: int| 0 <= i < w.len() implies s[pos + i] == #[trigger] w[i] by {
        assert(s.subrange(pos, pos + w.len())[i] == w[i]);
    }
    assert(w.len() == x.len() + 3);
    assert(s[pos] == s[pos + 0] && s[pos + 0] == w[0] && w[0] == '-');
    assert forall|i: int| 0 <= i < x.len() implies s[pos + 1 + i] == #[trigger] x[i] by {
        assert(s[pos + (1 + i)] == w[1 + i]);
    }
    assert(s[pos + 1 + x.len()] == w[x.len() as int + 1] && w[x.len() as int + 1] == '\r');
    assert(s[pos + 1 + x.len() + 1] == w[x.len() as int + 2] && w[x.len() as int + 2] == '\n');
    lemma_line_payload(s, pos + 1, x);
}

/// Decoding the wire form of a blob error reproduces it.
proof fn lemma_rt_blob_error(s: Seq<char>, pos: int, x: Seq<char>)
    requires
        no_line_break(x),
        wire_at(s, pos, TokenV::BigErr(x)),
    ensures
        spec_pull(s, pos) == (Outcome::Tok {
            tok: TokenV::BigErr(x),
            used: wire(TokenV::BigErr(x)).len(),
        }),
{
    let w = wire(TokenV::BigErr(x));
    assert forall|i: int| 0 <= i < w.len() implies s[pos + i] == #[trigger] w[i] by {
        assert(s.subrange(pos, pos + w.len())[i] == w[i]);
    }
    assert(w.len() == x.len() + 3);
    assert(s[pos] == s[pos + 0] && s[pos + 0] == w[0] && w[0] == '!');
    assert forall|i: int| 0 <= i < x.len() implies s[pos + 1 + i] == #[trigger] x[i] by {
        assert(s[pos + (1 + i)] == w[1 + i]);
    }
    assert(s[pos + 1 + x.len()] == w[x.len() as int + 1] && w[x.len() as int + 1] == '\r');
    assert(s[pos + 1 + x.len() + 1] == w[x.len() as int + 2] && w[x.len() as int + 2] == '\n');
    lemma_line_payload(s, pos + 1, x);
}

/// Decoding the wire form of an integer reproduces it.
proof fn lemma_rt_integer(s: Seq<char>, pos: int, v: i64)
    requires
        wire_at(s, pos, TokenV::Integer(v)),
    ensures
        spec_pull(s, pos) == (Outcome::Tok {
            tok: TokenV::Integer(v),
            used: wire(TokenV::Integer(v)).len(),
        }),
{
    let w = wire(TokenV::Integer(v));
    let d = dec_int(v as int);
    assert forall|i: int| 0 <= i < w.len() implies s[pos + i] == #[trigger] w[i] by {
        assert(s.subrange(pos, pos + w.len())[i] == w[i]);
    }
    assert(w.len() == d.len() + 3);
    assert(s[pos] == s[pos + 0] && s[pos + 0] == w[0] && w[0] == ':');
    assert forall|i: int| 0 <= i < d.len() implies s.subrange(pos + 1, pos + 1 + d.len())[i]
        == #[trigger] d[i] by {
        assert(s[pos + (1 + i)] == w[1 + i]);
        assert(w[1 + i] == d[i]);
    }
    assert(s.subrange(pos + 1, pos + 1 + d.len()) =~= d);
    let e = pos + 1 + d.len();
    assert(s[e] == w[d.len() as int + 1] && w[d.len() as int + 1] == '\r');
    assert(s[pos + 1 + d.len() + 1] == w[d.len() as int + 2] && w[d.len() as int + 2] == '\n');
    assert(!is_digit_char('\r'));
    lemma_int_scan_exact(s, pos + 1, v as int);
    assert(crlf_len(s, e) == 2);
}

/// Decoding the wire form of a boolean reproduces it.
proof fn lemma_rt_boolean(s: Seq<char>, pos: int, b: bool)
    requires
        wire_at(s, pos, TokenV::Boolean(b)),
    ensures
        spec_pull(s, pos) == (Outcome::Tok {
            tok: TokenV::Boolean(b),
            used: wire(TokenV::Boolean(b)).len(),
        }),
{
    let w = wire(TokenV::Boolean(b));
    assert forall|i: int| 0 <= i < w.len() implies s[pos + i] == #[trigger] w[i] by {
        assert(s.subrange(pos, pos + w.len())[i] == w[i]);
    }
    assert(w.len() == 4);
    assert(s[pos] == s[pos + 0] && s[pos + 0] == w[0] && w[0] == '#');
    assert(s[pos + 1] == w[1] && w[1] == (if b {
        't'
    } else {
        'f'
    }));
    assert(s[pos + 2] == w[2] && w[2] == '\r');
    assert(s[pos + 3] == w[3] && w[3] == '\n');
}

/// Decoding the wire form of a big number reproduces it.
proof fn lemma_rt_big_number(s: Seq<char>, pos: int, x: Seq<char>)
    requires
        numeral_text(x),
        wire_at(s, pos, TokenV::BigNumber(x)),
    ensures
        spec_pull(s, pos) == (Outcome::Tok {
            tok: TokenV::BigNumber(x),
            used: wire(TokenV::BigNumber(x)).len(),
        }),
{
    let w = wire(TokenV::BigNumber(x));
    assert forall|i: int| 0 <= i < w.len() implies s[pos + i] == #[trigger] w[i] by {
        assert(s.subrange(pos, pos + w.len())[i] == w[i]);
    }
    assert(w.len() == x.len() + 3);
    assert(s[pos] == s[pos + 0] && s[pos + 0] == w[0] && w[0] == '(');
    assert forall|i: int| 0 <= i < x.len() implies s[pos + 1 + i] == #[trigger] x[i] by {
        assert(s[pos + (1 + i)] == w[1 + i]);
    }
    let e = pos + 1 + x.len();
    assert(s[e] == w[x.len() as int + 1] && w[x.len() as int + 1] == '\r');
    assert(s[pos + 1 + x.len() + 1] == w[x.len() as int + 2] && w[x.len() as int + 2] == '\n');
    let k: int = if x.len() > 0 && is_sign_char(x[0]) {
        1
    } else {
        0
    };
    assert(sign_len(s, pos + 1) == k);
    assert forall|i: int| pos + 1 + k <= i < e implies is_digit_char(#[trigger] s[i]) by {
        assert(s[i] == x[i - pos - 1]);
    }
    assert(!is_digit_char('\r'));
    lemma_digit_run_exact(s, pos + 1 + k, e);
    assert(s.subrange(pos + 1, e) =~= x);
}

/// Scanning a length-prefix header whose numeral region holds the
/// decimal numeral of `v`, terminated by `\r\n`, parses back `v` and
/// consumes the numeral and the terminator.
proof fn lemma_rt_header(s: Seq<char>, pos: int, v: int)
    requires
        i64::MIN <= v <= i64::MAX,
        0 <= pos,
        pos + 1 + dec_int(v).len() + 2 <= s.len(),
        forall|i: int| 0 <= i < dec_int(v).len() ==> s[pos + 1 + i] == #[trigger] dec_int(v)[i],
        s[pos + 1 + dec_int(v).len()] == '\r',
        s[pos + 1 + dec_int(v).len() + 1] == '\n',
    ensures
        int_scan(s, pos + 1) == (IntScan { used: dec_int(v).len(), res: Ok(v as i64) }),
        crlf_len(s, pos + 1 + dec_int(v).len()) == 2,
        crate::grammar::header_len(s, pos) == 1 + dec_int(v).len() + 2,
{
    let d = dec_int(v);
    let e = pos + 1 + d.len();
    assert forall|j: int| 0 <= j < d.len() implies s.subrange(pos + 1, e)[j] == #[trigger] d[j] by {
        assert(s[pos + 1 + j] == d[j]);
    }
    assert(s.subrange(pos + 1, e) =~= d);
    assert(!is_digit_char('\r'));
    lemma_int_scan_exact(s, pos + 1, v);
}

/// Decoding the wire form of a non-null bulk string reproduces it.
proof fn lemma_rt_bulk(s: Seq<char>, pos: int, x: Seq<char>)
    requires
        no_line_break(x),
        x.len() <= i64::MAX,
        wire_at(s, pos, TokenV::BulkString(Some(x))),
    ensures
        spec_pull(s, pos) == (Outcome::Tok {
            tok: TokenV::BulkString(Some(x)),
            used: wire(TokenV::BulkString(Some(x))).len(),
        }),
{
    let t = TokenV::BulkString(Some(x));
    let w = wire(t);
    let n = x.len() as int;
    let d = dec_int(n);
    lemma_dec_digits(x.len());
    assert forall|i: int| 0 <= i < w.len() implies s[pos + i] == #[trigger] w[i] by {
        assert(s.subrange(pos, pos + w.len())[i] == w[i]);
    }
    assert(w.len() == 1 + d.len() + 2 + n + 2);
    assert(s[pos] == s[pos + 0] && s[pos + 0] == w[0] && w[0] == '$');
    assert forall|i: int| 0 <= i < d.len() implies s[pos + 1 + i] == #[trigger] d[i] by {
        assert(s[pos + (1 + i)] == w[1 + i]);
    }
    assert(s[pos + 1 + d.len()] == w[d.len() as int + 1] && w[d.len() as int + 1] == '\r');
    assert(s[pos + 1 + d.len() + 1] == w[d.len() as int + 2] && w[d.len() as int + 2] == '\n');
    lemma_rt_header(s, pos, n);
    let h = 1 + d.len() + 2;
    let body = pos + h;
    assert forall|i: int| 0 <= i < n implies s[body + i] == #[trigger] x[i] by {
        assert(s[pos + (h + i)] == w[h + i]);
        assert(w[h + i] == x[i]);
    }
    assert(s[body + n] == w[(h + n) as int] && w[(h + n) as int] == '\r');
    assert(s[body + n + 1] == w[(h + n + 1) as int] && w[(h + n + 1) as int] == '\n');
    assert forall|i: int| body <= i < body + n implies is_line_char(#[trigger] s[i]) by {
        assert(s[i] == x[i - body]);
    }
    lemma_bounded_run_exact(s, body, body + n, body + n);
    assert(s.subrange(body, body + n) =~= x);
}

/// Decoding the wire form of a null bulk string reproduces it.
proof fn lemma_rt_bulk_null(s: Seq<char>, pos: int)
    requires
        wire_at(s, pos, TokenV::BulkString(None)),
    ensures
        spec_pull(s, pos) == (Outcome::Tok {
            tok: TokenV::BulkString(None),
            used: wire(TokenV::BulkString(None)).len(),
        }),
{
    let w = wire(TokenV::BulkString(None));
    let d = dec_int(-1);
    lemma_dec_digits(1);
    assert forall|i: int| 0 <= i < w.len() implies s[pos + i] == #[trigger] w[i] by {
        assert(s.subrange(pos, pos + w.len())[i] == w[i]);
    }
    assert(w.len() == 1 + d.len() + 2);
    assert(s[pos] == s[pos + 0] && s[pos + 0] == w[0] && w[0] == '$');
    assert forall|i: int| 0 <= i < d.len() implies s[pos + 1 + i] == #[trigger] d[i] by {
        assert(s[pos + (1 + i)] == w[1 + i]);
    }
    assert(s[pos + 1 + d.len()] == w[d.len() as int + 1] && w[d.len() as int + 1] == '\r');
    assert(s[pos + 1 + d.len() + 1] == w[d.len() as int + 2] && w[d.len() as int + 2] == '\n');
    lemma_rt_header(s, pos, -1);
}

/// Decoding the wire form of a verbatim string reproduces it.
proof fn lemma_rt_verbatim(s: Seq<char>, pos: int, f: Seq<char>, x: Seq<char>)
    requires
        f.len() == 3,
        x.len() + 4 <= i64::MAX,
        wire_at(s, pos, TokenV::VerbatimString(f, x)),
    ensures
        spec_pull(s, pos) == (Outcome::Tok {
            tok: TokenV::VerbatimString(f, x),
            used: wire(TokenV::VerbatimString(f, x)).len(),
        }),
{
    let t = TokenV::VerbatimString(f, x);
    let w = wire(t);
    let n = x.len() + 4 as int;
    let d = dec_int(n);
    lemma_dec_digits((x.len() + 4) as nat);
    assert forall|i: int| 0 <= i < w.len() implies s[pos + i] == #[trigger] w[i] by {
        assert(s.subrange(pos, pos + w.len())[i] == w[i]);
    }
    assert(w.len() == 1 + d.len() + 2 + 3 + 1 + x.len() + 2);
    assert(s[pos] == s[pos + 0] && s[pos + 0] == w[0] && w[0] == '=');
    assert forall|i: int| 0 <= i < d.len() implies s[pos + 1 + i] == #[trigger] d[i] by {
        assert(s[pos + (1 + i)] == w[1 + i]);
    }
    assert(s[pos + 1 + d.len()] == w[d.len() as int + 1] && w[d.len() as int + 1] == '\r');
    assert(s[pos + 1 + d.len() + 1] == w[d.len() as int + 2] && w[d.len() as int + 2] == '\n');
    lemma_rt_header(s, pos, n);
    let h = 1 + d.len() + 2;
    let body = pos + h;
    assert forall|i: int| 0 <= i < 3 implies s[body + i] == #[trigger] f[i] by {
        assert(s[pos + (h + i)] == w[h + i]);
        assert(w[h + i] == f[i]);
    }
    assert(take_len(s, body, 3) == 3);
    let colon = body + 3;
    assert(s[colon] == w[(h + 3) as int] && w[(h + 3) as int] == ':');
    assert forall|i: int| 0 <= i < x.len() implies s[colon + 1 + i] == #[trigger] x[i] by {
        assert(s[pos + (h + 4 + i)] == w[h + 4 + i]);
        assert(w[h + 4 + i] == x[i]);
    }
    let tail = colon + 1 + x.len();
    assert(s[tail] == w[(h + 4 + x.len()) as int] && w[(h + 4 + x.len()) as int] == '\r');
    assert(s[tail + 1] == w[(h + 5 + x.len()) as int] && w[(h + 5 + x.len()) as int] == '\n');
    assert(take_len(s, colon + 1, (n - 4) as nat) == x.len());
    assert(s.subrange(body, colon) =~= f);
    assert(s.subrange(colon + 1, tail) =~= x);
}

/// Decoding the wire form of a double reproduces it.
#[verifier::rlimit(100)]
proof fn lemma_rt_double(s: Seq<char>, pos: int, x: Seq<char>)
    requires
        double_text(x),
        wire_at(s, pos, TokenV::Double(x)),
    ensures
        spec_pull(s, pos) == (Outcome::Tok {
            tok: TokenV::Double(x),
            used: wire(TokenV::Double(x)).len(),
        }),
{
    let w = wire(TokenV::Double(x));
    let len = x.len() as int;
    assert forall|i: int| 0 <= i < w.len() implies s[pos + i] == #[trigger] w[i] by {
        assert(s.subrange(pos, pos + w.len())[i] == w[i]);
    }
    assert(w.len() == len + 3);
    assert(s[pos] == s[pos + 0] && s[pos + 0] == w[0] && w[0] == ',');
    assert forall|i: int| 0 <= i < len implies s[pos + 1 + i] == #[trigger] x[i] by {
        assert(s[pos + (1 + i)] == w[1 + i]);
    }
    assert(s[pos + 1 + len] == w[x.len() as int + 1] && w[x.len() as int + 1] == '\r');
    assert(s[pos + 1 + len + 1] == w[x.len() as int + 2] && w[x.len() as int + 2] == '\n');
    let (a, b) = choose|a: int, b: int| double_split_at(x, a, b);
    let p = pos + 1;
    let e = p + len;
    assert(!is_digit_char('\r') && !is_digit_char('.') && !is_digit_char('e') && !is_digit_char(
        'E',
    ));
    assert(!is_sign_char('\r') && !is_sign_char('.') && !is_sign_char('e') && !is_sign_char('E'));
    // The mantissa: an optional sign, then digits up to `a`.
    let k = sign_len(s, p);
    if a == 0 {
        assert(k == 0) by {
            if len > 0 {
                assert(s[p] == x[0]);
                if a == b {
                    if b < len {
                        assert(x[0] == 'e' || x[0] == 'E');
                    }
                } else {
                    assert(x[0] == '.');
                }
            }
        }
    } else {
        assert(s[p] == x[0]);
        assert(x.subrange(0, a)[0] == x[0]);
        if is_sign_char(x[0]) {
            assert(k == 1);
        } else {
            assert(k == 0);
        }
    }
    assert(k <= a);
    assert forall|i: int| p + k <= i < p + a implies is_digit_char(#[trigger] s[i]) by {
        assert(s[i] == x[i - p]);
        assert(x.subrange(0, a)[i - p] == x[i - p]);
    }
    assert(p + a == s.len() || !is_digit_char(s[p + a])) by {
        if a < len {
            assert(s[p + a] == x[a]);
            if a == b {
                assert(x[a] == 'e' || x[a] == 'E');
            }
        } else {
            assert(s[p + a] == '\r');
        }
    }
    lemma_digit_run_exact(s, p + k, p + a);
    assert(k + digit_run(s, p + k) == a);
    // The fraction: a `.` and digits up to `b`, or nothing.
    let p1 = p + a;
    if a < b {
        assert(s[p1] == x[a] && x[a] == '.');
        assert forall|i: int| p1 + 1 <= i < p + b implies is_digit_char(#[trigger] s[i]) by {
            assert(s[i] == x[i - p]);
            assert(x.subrange(a + 1, b)[i - p - a - 1] == x[i - p]);
        }
        assert(p + b == s.len() || !is_digit_char(s[p + b])) by {
            if b < len {
                assert(s[p + b] == x[b]);
            } else {
                assert(s[p + b] == '\r');
            }
        }
        lemma_digit_run_exact(s, p1 + 1, p + b);
    } else {
        assert(p1 >= s.len() || s[p1] != '.') by {
            if a < len {
                assert(s[p1] == x[a]);
                assert(x[a] == 'e' || x[a] == 'E');
            } else {
                assert(s[p1] == '\r');
            }
        }
    }
    // The exponent: `e` or `E`, an optional sign, and digits to the end,
    // or nothing.
    let p2 = p + b;
    if b < len {
        assert(s[p2] == x[b]);
        let xe = x.subrange(b + 1, len);
        let k2 = sign_len(s, p2 + 1);
        if b + 1 < len {
            assert(s[p2 + 1] == x[b + 1]);
            assert(xe[0] == x[b + 1]);
            if is_sign_char(x[b + 1]) {
                assert(k2 == 1);
            } else {
                assert(k2 == 0);
            }
        } else {
            assert(s[p2 + 1] == '\r');
            assert(k2 == 0);
        }
        assert(k2 <= len - b - 1);
        assert forall|i: int| p2 + 1 + k2 <= i < e implies is_digit_char(#[trigger] s[i]) by {
            assert(s[i] == x[i - p]);
            assert(xe[i - p - b - 1] == x[i - p]);
        }
        assert(s[e] == '\r');
        lemma_digit_run_exact(s, p2 + 1 + k2, e);
        assert(1 + k2 + digit_run(s, p2 + 1 + k2) == len - b);
    } else {
        assert(s[p2] == '\r');
    }
    assert(crate::grammar::double_numeral_len(s, p) == len);
    assert(s.subrange(p, e) =~= x);
}

/// Every wire form starts with its sigil.
proof fn lemma_wire_nonempty(t: TokenV)
    ensures
        wire(t).len() >= 1,
{
}

/// Decoding the wire form of a null aggregate reproduces it, consuming
/// the extra line terminator.
proof fn lemma_rt_aggregate_null(s: Seq<char>, pos: int, as_set: bool)
    requires
        wire_at(
            s,
            pos,
            if as_set {
                TokenV::SetOf(None)
            } else {
                TokenV::Array(None)
            },
        ),
    ensures
        spec_pull(s, pos) == (Outcome::Tok {
            tok: if as_set {
                TokenV::SetOf(None)
            } else {
                TokenV::Array(None)
            },
            used: wire(
                if as_set {
                    TokenV::SetOf(None)
                } else {
                    TokenV::Array(None)
                },
            ).len(),
        }),
{
    let t = if as_set {
        TokenV::SetOf(None)
    } else {
        TokenV::Array(None)
    };
    let w = wire(t);
    let d = dec_int(-1);
    lemma_dec_digits(1);
    assert forall|i: int| 0 <= i < w.len() implies s[pos + i] == #[trigger] w[i] by {
        assert(s.subrange(pos, pos + w.len())[i] == w[i]);
    }
    assert(w.len() == 1 + d.len() + 2 + 2);
    assert(s[pos] == s[pos + 0] && s[pos + 0] == w[0]);
    assert(w[0] == (if as_set {
        '~'
    } else {
        '*'
    }));
    assert forall|i: int| 0 <= i < d.len() implies s[pos + 1 + i] == #[trigger] d[i] by {
        assert(s[pos + (1 + i)] == w[1 + i]);
    }
    assert(s[pos + 1 + d.len()] == w[d.len() as int + 1] && w[d.len() as int + 1] == '\r');
    assert(s[pos + 1 + d.len() + 1] == w[d.len() as int + 2] && w[d.len() as int + 2] == '\n');
    lemma_rt_header(s, pos, -1);
    let h = 1 + d.len() + 2;
    let body = pos + h;
    assert(s[body] == w[(h + 0) as int] && w[(h + 0) as int] == '\r');
    assert(s[body + 1] == w[(h + 1) as int] && w[(h + 1) as int] == '\n');
    assert(crlf_len(s, body) == 2);
}

/// Decoding the wire form of a non-null aggregate reproduces it.
proof fn lemma_rt_aggregate(s: Seq<char>, pos: int, items: Seq<TokenV>, as_set: bool)
    requires
        tokens_wf(items),
        items.len() <= i64::MAX,
        wire_at(
            s,
            pos,
            if as_set {
                TokenV::SetOf(Some(items))
            } else {
                TokenV::Array(Some(items))
            },
        ),
    ensures
        spec_pull(s, pos) == (Outcome::Tok {
            tok: if as_set {
                TokenV::SetOf(Some(items))
            } else {
                TokenV::Array(Some(items))
            },
            used: wire(
                if as_set {
                    TokenV::SetOf(Some(items))
                } else {
                    TokenV::Array(Some(items))
                },
            ).len(),
        }),
    decreases items, 1int,
{
    let t = if as_set {
        TokenV::SetOf(Some(items))
    } else {
        TokenV::Array(Some(items))
    };
    let w = wire(t);
    let n = items.len() as int;
    let d = dec_int(n);
    lemma_dec_digits(items.len());
    assert forall|i: int| 0 <= i < w.len() implies s[pos + i] == #[trigger] w[i] by {
        assert(s.subrange(pos, pos + w.len())[i] == w[i]);
    }
    assert(w == seq![
        if as_set {
            '~'
        } else {
            '*'
        },
    ] + d + crlf_text() + wires(items));
    assert(w.len() == 1 + d.len() + 2 + wires(items).len());
    assert(s[pos] == s[pos + 0] && s[pos + 0] == w[0]);
    assert(w[0] == (if as_set {
        '~'
    } else {
        '*'
    }));
    assert forall|i: int| 0 <= i < d.len() implies s[pos + 1 + i] == #[trigger] d[i] by {
        assert(s[pos + (1 + i)] == w[1 + i]);
    }
    assert(s[pos + 1 + d.len()] == w[d.len() as int + 1] && w[d.len() as int + 1] == '\r');
    assert(s[pos + 1 + d.len() + 1] == w[d.len() as int + 2] && w[d.len() as int + 2] == '\n');
    lemma_rt_header(s, pos, n);
    let h = 1 + d.len() + 2;
    let body = pos + h;
    assert forall|i: int| 0 <= i < wires(items).len() implies s.subrange(
        body,
        body + wires(items).len(),
    )[i] == #[trigger] wires(items)[i] by {
        assert(s[pos + (h + i)] == w[h + i]);
        assert(w[h + i] == wires(items)[i]);
    }
    assert(s.subrange(body, body + wires(items).len()) =~= wires(items));
    lemma_wires_round_trip(s, body, items);
}

/// Decoding a buffer region holding the concatenated wire forms of a
/// sequence of well-formed tokens yields exactly those tokens, in
/// order, consuming exactly that region.
pub proof fn lemma_wires_round_trip(s: Seq<char>, pos: int, items: Seq<TokenV>)
    requires
        tokens_wf(items),
        0 <= pos,
        pos + wires(items).len() <= s.len(),
        s.subrange(pos, pos + wires(items).len()) == wires(items),
    ensures
        spec_elems(s, pos, items.len()) == (Elems::Parsed { items, used: wires(items).len() }),
    decreases items, 0int,
{
    if items.len() == 0 {
        assert(items =~= Seq::<TokenV>::empty());
        assert(spec_elems(s, pos, 0) == (Elems::Parsed {
            items: Seq::<TokenV>::empty(),
            used: 0nat,
        }));
    } else {
        let t0 = items.first();
        let rest = items.drop_first();
        assert(t0 == items[0]);
        let w0 = wire(t0);
        let wr = wires(rest);
        assert(wires(items) == w0 + wr);
        let wlen = wires(items).len() as int;
        assert forall|i: int| 0 <= i < wlen implies s[pos + i] == #[trigger] wires(items)[i] by {
            assert(s.subrange(pos, pos + wlen)[i] == wires(items)[i]);
        }
        lemma_wire_nonempty(t0);
        assert forall|i: int| 0 <= i < w0.len() implies s.subrange(pos, pos + w0.len())[i]
            == #[trigger] w0[i] by {
            assert(s[pos + i] == wires(items)[i]);
            assert(wires(items)[i] == w0[i]);
        }
        assert(s.subrange(pos, pos + w0.len()) =~= w0);
        lemma_wire_round_trip(s, pos, t0);
        let mid = pos + w0.len();
        assert forall|i: int| 0 <= i < wr.len() implies s.subrange(mid, mid + wr.len())[i]
            == #[trigger] wr[i] by {
            assert(s[pos + (w0.len() + i)] == wires(items)[w0.len() + i]);
            assert(wires(items)[w0.len() + i] == wr[i]);
        }
        assert(s.subrange(mid, mid + wr.len()) =~= wr);
        lemma_wires_round_trip(s, mid, rest);
        assert(seq![t0] + rest =~= items);
    }
}

/// Decoding at a position holding the canonical wire form of a
/// well-formed token yields exactly that token and consumes exactly the
/// frame, whatever follows it.  Re-encoding the decoded token therefore
/// reproduces the original frame bytes: the round trip is exact for
/// every frame type, scalar or aggregate, nested to any depth.
pub proof fn lemma_wire_round_trip(s: Seq<char>, pos: int, t: TokenV)
    requires
        token_wf(t),
        wire_at(s, pos, t),
    ensures
        spec_pull(s, pos) == (Outcome::Tok { tok: t, used: wire(t).len() }),
    decreases t, 0int,
{
    match t {
        TokenV::SimpleString(x) => lemma_rt_status(s, pos, x),
        TokenV::Error(x) => lemma_rt_error(s, pos, x),
        TokenV::BigErr(x) => lemma_rt_blob_error(s, pos, x),
        TokenV::Integer(v) => lemma_rt_integer(s, pos, v),
        TokenV::Boolean(b) => lemma_rt_boolean(s, pos, b),
        TokenV::Double(x) => lemma_rt_double(s, pos, x),
        TokenV::BigNumber(x) => lemma_rt_big_number(s, pos, x),
        TokenV::BulkString(None) => lemma_rt_bulk_null(s, pos),
        TokenV::BulkString(Some(x)) => lemma_rt_bulk(s, pos, x),
        TokenV::VerbatimString(f, x) => lemma_rt_verbatim(s, pos, f, x),
        TokenV::Array(None) => lemma_rt_aggregate_null(s, pos, false),
        TokenV::Array(Some(items)) => lemma_rt_aggregate(s, pos, items, false),
        TokenV::SetOf(None) => lemma_rt_aggregate_null(s, pos, true),
        TokenV::SetOf(Some(items)) => lemma_rt_aggregate(s, pos, items, true),
    }
}

/// Decoding a buffer that is one valid frame and re-encoding the
/// decoded token reproduces the buffer exactly, for every frame type.
pub proof fn lemma_decode_reencode(s: Seq<char>, t: TokenV)
    requires
        token_wf(t),
        s == wire(t),
    ensures
        spec_pull(s, 0) matches Outcome::Tok { tok, used } && wire(tok) == s && used == s.len(),
{
    assert(s.subrange(0, s.len() as int) =~= s);
    lemma_wire_round_trip(s, 0, t);
}

/// For a bulk-string frame in wire form with a non-negative declared
/// length, the decoded text has exactly the declared number of
/// characters, and the two characters after the payload are consumed as
/// the frame's terminator, not captured as payload: the whole frame,
/// both terminators included, is consumed.
pub proof fn lemma_bulk_string_length(s: Seq<char>, pos: int, x: Seq<char>)
    requires
        no_line_break(x),
        x.len() <= i64::MAX,
        wire_at(s, pos, TokenV::BulkString(Some(x))),
    ensures
        spec_pull(s, pos) == (Outcome::Tok {
            tok: TokenV::BulkString(Some(x)),
            used: 1 + dec_int(x.len() as int).len() + 2 + x.len() + 2,
        }),
{
    lemma_wire_round_trip(s, pos, TokenV::BulkString(Some(x)));
}

/// A successful run of element decodes yields exactly as many elements
/// as were asked for.
pub proof fn lemma_elems_count(s: Seq<char>, pos: int, n: nat)
    ensures
        spec_elems(s, pos, n) matches Elems::Parsed { items, .. } ==> items.len() == n,
    decreases s.len() - pos, n,
{
    if n == 0 {
    } else if pos >= s.len() {
    } else {
        match spec_pull(s, pos) {
            Outcome::Tok { tok, used } => {
                let next = if pos + used <= s.len() {
                    pos + used
                } else {
                    s.len() as int
                };
                lemma_elems_count(s, next, (n - 1) as nat);
            },
            _ => {},
        }
    }
}

/// For any aggregate frame that decodes to a token, the number of
/// decoded elements equals the declared count exactly, and a negative
/// declared count decodes to the null aggregate with no elements.
pub proof fn lemma_aggregate_count(s: Seq<char>, pos: int, as_set: bool)
    ensures
        (match crate::grammar::spec_aggregate(s, pos, as_set) {
            Outcome::Tok { tok, used } => {
                let c = int_scan(s, pos + 1).res;
                match tok {
                    TokenV::Array(Some(items)) => !as_set && (c matches Ok(k) && k >= 0
                        && items.len() == k),
                    TokenV::SetOf(Some(items)) => as_set && (c matches Ok(k) && k >= 0
                        && items.len() == k),
                    TokenV::Array(None) => !as_set && (c matches Ok(k) && k < 0),
                    TokenV::SetOf(None) => as_set && (c matches Ok(k) && k < 0),
                    _ => false,
                }
            },
            _ => true,
        }),
{
    let sc = int_scan(s, pos + 1);
    let e = pos + 1 + sc.used;
    if e < s.len() {
        match sc.res {
            Ok(count) => if count >= 0 {
                lemma_elems_count(s, pos + crate::grammar::header_len(s, pos), count as nat);
            } else {
            },
            Err(_) => {},
        }
    }
}

/// Pulling from equal buffers at equal offsets yields equal outcomes.
/// `Lexer::next` returns exactly the outcome of `spec_pull` on its
/// pre-state and moves the cursor by exactly the outcome's consumption,
/// so two independent lexers over the same buffer, pulled in step,
/// return identical token sequences and stand at identical offsets.
pub proof fn lemma_pull_deterministic(a: crate::lexer::Lexer<'_>, b: crate::lexer::Lexer<'_>)
    requires
        a.src() == b.src(),
        a.at() == b.at(),
    ensures
        spec_pull(a.src(), a.at()) == spec_pull(b.src(), b.at()),
{
}

} // verus!
