//! The token type produced by the lexer, its mathematical model, and the
//! decoding error taxonomy.

use vstd::prelude::*;

verus! {

broadcast use vstd::std_specs::vec::axiom_vec_decreases_to_view;

/// One fully decoded RESP frame.
///
/// All text payloads are borrowed slices into the buffer the token was
/// decoded from; an aggregate owns its element vector, but the elements'
/// payloads still borrow from the same root buffer.
#[derive(Debug, PartialEq)]
pub enum Token<'a> {
    /// `+`: a simple status line.
    SimpleString(&'a str),
    /// `-`: a simple error line.
    Error(&'a str),
    /// `:`: a 64-bit signed integer.
    Integer(i64),
    /// `$`: a length-prefixed string; a negative length encodes null.
    BulkString(Option<&'a str>),
    /// `*`: a count-prefixed sequence of frames; a negative count encodes null.
    Array(Option<Vec<Token<'a>>>),
    /// `#`: `t` or `f`.
    Boolean(bool),
    /// `~`: same count-prefix grammar as `Array`, with set semantics.
    SetOf(Option<Vec<Token<'a>>>),
    /// `,`: the raw text of a decimal numeral, left unparsed.
    Double(&'a str),
    /// `(`: an arbitrary-precision integer, kept as text.
    BigNumber(&'a str),
    /// `!`: same framing as a simple error, with blob-error semantics.
    BigErr(&'a str),
    /// `=`: a three-character format tag and a payload.
    VerbatimString(&'a str, &'a str),
}

/// The mathematical model of a [`Token`]: the same shape over `Seq<char>`
/// instead of borrowed slices.
pub enum TokenV {
    SimpleString(Seq<char>),
    Error(Seq<char>),
    Integer(i64),
    BulkString(Option<Seq<char>>),
    Array(Option<Seq<TokenV>>),
    Boolean(bool),
    SetOf(Option<Seq<TokenV>>),
    Double(Seq<char>),
    BigNumber(Seq<char>),
    BigErr(Seq<char>),
    VerbatimString(Seq<char>, Seq<char>),
}

/// Why a pull failed.
#[derive(Clone, Copy, Debug, PartialEq, Eq, Structural)]
pub enum DecodeError {
    /// A sign/digit run did not parse as a 64-bit signed integer
    /// (empty digit run, or overflow).
    IntegerFormat,
    /// Neither `t` nor `f` followed the `#` sigil.
    BooleanFormat,
    /// The buffer ended before a declared length, count or terminator
    /// was satisfied.
    IncompleteFrame,
    /// The leading byte of the frame matches no known RESP type tag.
    UnrecognizedSigil,
}

/// The model of one token.
pub open spec fn token_view(t: Token<'_>) -> TokenV
    decreases t,
{
    match t {
        Token::SimpleString(s) => TokenV::SimpleString(s@),
        Token::Error(s) => TokenV::Error(s@),
        Token::Integer(v) => TokenV::Integer(v),
        Token::BulkString(p) => TokenV::BulkString(
            match p {
                Some(s) => Some(s@),
                None => None,
            },
        ),
        Token::Array(p) => TokenV::Array(
            match p {
                Some(v) => Some(tokens_view(v@)),
                None => None,
            },
        ),
        Token::Boolean(b) => TokenV::Boolean(b),
        Token::SetOf(p) => TokenV::SetOf(
            match p {
                Some(v) => Some(tokens_view(v@)),
                None => None,
            },
        ),
        Token::Double(s) => TokenV::Double(s@),
        Token::BigNumber(s) => TokenV::BigNumber(s@),
        Token::BigErr(s) => TokenV::BigErr(s@),
        Token::VerbatimString(f, s) => TokenV::VerbatimString(f@, s@),
    }
}

/// The model of a sequence of tokens, element by element.
pub open spec fn tokens_view(ts: Seq<Token<'_>>) -> Seq<TokenV>
    decreases ts,
{
    if ts.len() == 0 {
        Seq::empty()
    } else {
        tokens_view(ts.drop_last()).push(token_view(ts.last()))
    }
}

impl<'a> View for Token<'a> {
    type V = TokenV;

    open spec fn view(&self) -> TokenV {
        token_view(*self)
    }
}

/// Appending one token appends its model.
pub proof fn lemma_tokens_view_push(ts: Seq<Token<'_>>, t: Token<'_>)
    ensures
        tokens_view(ts.push(t)) == tokens_view(ts).push(token_view(t)),
{
    assert(ts.push(t).drop_last() =~= ts);
    assert(ts.push(t).last() == t);
}

} // verus!
