use resp_lexer::lexer::Lexer;
use resp_lexer::lexer::Parser;
use resp_lexer::token::DecodeError;
use resp_lexer::token::Token;

/// Re-encode a scalar token into its wire form.
fn encode_scalar(t: &Token) -> String {
    match t {
        Token::SimpleString(x) => format!("+{}\r\n", x),
        Token::Error(x) => format!("-{}\r\n", x),
        Token::Integer(v) => format!(":{}\r\n", v),
        Token::Boolean(true) => String::from("#t\r\n"),
        Token::Boolean(false) => String::from("#f\r\n"),
        Token::Double(x) => format!(",{}\r\n", x),
        Token::BigNumber(x) => format!("({}\r\n", x),
        Token::BigErr(x) => format!("!{}\r\n", x),
        _ => panic!("not a scalar token"),
    }
}

/// Pull every item until end of input.
fn drain<'a>(lexer: &mut Lexer<'a>) -> Vec<Result<Token<'a>, DecodeError>> {
    let mut out = Vec::new();
    loop {
        match lexer.next() {
            Some(item) => {
                let stop = item.is_err();
                out.push(item);
                if stop {
                    return out;
                }
            }
            None => return out,
        }
    }
}

#[test]
fn round_trip_each_scalar_type() {
    let frames = [
        "+OK\r\n",
        "-ERR bad\r\n",
        ":-42\r\n",
        ":12345\r\n",
        "#t\r\n",
        "#f\r\n",
        ",-12.5e-3\r\n",
        "(99999999999999999999999\r\n",
        "!SYNTAX\r\n",
    ];
    for frame in frames {
        let mut lexer = Lexer::new(frame);
        let token = lexer.next().unwrap().unwrap();
        assert_eq!(lexer.next(), None);
        assert_eq!(encode_scalar(&token), *frame);
    }
}

#[test]
fn bulk_string_length_matches_declared() {
    let mut lexer = Lexer::new("$11\r\nhello world\r\nrest");
    match lexer.next().unwrap().unwrap() {
        Token::BulkString(Some(text)) => assert_eq!(text.len(), 11),
        other => panic!("unexpected token {:?}", other),
    }
    // The two characters after the payload were consumed as the
    // terminator, not captured: decoding resumes right after them.
    assert_eq!(
        lexer.next(),
        Some(Err(DecodeError::UnrecognizedSigil))
    );
}

#[test]
fn aggregate_counts_match_declared() {
    let mut lexer = Lexer::new("*3\r\n:1\r\n+a\r\n#f\r\n");
    match lexer.next().unwrap().unwrap() {
        Token::Array(Some(items)) => assert_eq!(items.len(), 3),
        other => panic!("unexpected token {:?}", other),
    }
    let mut lexer = Lexer::new("~2\r\n:1\r\n:2\r\n");
    assert_eq!(
        lexer.next().unwrap(),
        Ok(Token::SetOf(Some(vec![Token::Integer(1), Token::Integer(2)])))
    );
    let mut lexer = Lexer::new("~-1\r\n\r\n");
    assert_eq!(lexer.next().unwrap(), Ok(Token::SetOf(None)));
    assert_eq!(lexer.next(), None);
}

#[test]
fn decoding_is_idempotent() {
    let buf = "*2\r\n$3\r\nfoo\r\n:7\r\n+done\r\n#t\r\n";
    let mut first = Lexer::new(buf);
    let mut second = Lexer::new(buf);
    assert_eq!(drain(&mut first), drain(&mut second));
}

#[test]
fn nested_arrays_keep_structure_and_order() {
    let mut lexer = Lexer::new("*2\r\n*2\r\n:1\r\n:2\r\n*1\r\n*2\r\n+a\r\n+b\r\n");
    assert_eq!(
        lexer.next().unwrap(),
        Ok(Token::Array(Some(vec![
            Token::Array(Some(vec![Token::Integer(1), Token::Integer(2)])),
            Token::Array(Some(vec![Token::Array(Some(vec![
                Token::SimpleString("a"),
                Token::SimpleString("b"),
            ]))])),
        ])))
    );
    assert_eq!(lexer.next(), None);
}

#[test]
fn malformed_length_is_an_integer_format_error() {
    let mut lexer = Lexer::new("$abc\r\n");
    assert_eq!(lexer.next(), Some(Err(DecodeError::IntegerFormat)));
}

#[test]
fn truncated_array_is_an_incomplete_frame_error() {
    let mut lexer = Lexer::new("*2\r\n:1\r\n");
    assert_eq!(lexer.next(), Some(Err(DecodeError::IncompleteFrame)));
}

#[test]
fn integer_bounds_and_overflow() {
    let mut lexer = Lexer::new(":9223372036854775807\r\n");
    assert_eq!(lexer.next().unwrap(), Ok(Token::Integer(i64::MAX)));
    let mut lexer = Lexer::new(":-9223372036854775808\r\n");
    assert_eq!(lexer.next().unwrap(), Ok(Token::Integer(i64::MIN)));
    let mut lexer = Lexer::new(":9223372036854775808\r\n");
    assert_eq!(lexer.next(), Some(Err(DecodeError::IntegerFormat)));
    let mut lexer = Lexer::new(":99999999999999999999999999\r\n");
    assert_eq!(lexer.next(), Some(Err(DecodeError::IntegerFormat)));
    let mut lexer = Lexer::new(":\r\n");
    assert_eq!(lexer.next(), Some(Err(DecodeError::IntegerFormat)));
}

#[test]
fn unrecognized_sigil_is_a_typed_error() {
    let mut lexer = Lexer::new("%1\r\n+a\r\n:1\r\n");
    assert_eq!(lexer.next(), Some(Err(DecodeError::UnrecognizedSigil)));
}

#[test]
fn partial_trailing_frame_is_incomplete() {
    let mut lexer = Lexer::new("+OK\r\n+partial");
    assert_eq!(lexer.next().unwrap(), Ok(Token::SimpleString("OK")));
    assert_eq!(lexer.next(), Some(Err(DecodeError::IncompleteFrame)));
}

#[test]
fn empty_buffer_ends_immediately() {
    let mut lexer = Lexer::new("");
    assert_eq!(lexer.next(), None);
}

#[test]
fn empty_payloads_decode() {
    let mut lexer = Lexer::new("+\r\n-\r\n!\r\n(\r\n");
    assert_eq!(lexer.next().unwrap(), Ok(Token::SimpleString("")));
    assert_eq!(lexer.next().unwrap(), Ok(Token::Error("")));
    assert_eq!(lexer.next().unwrap(), Ok(Token::BigErr("")));
    assert_eq!(lexer.next().unwrap(), Ok(Token::BigNumber("")));
    assert_eq!(lexer.next(), None);
}

#[test]
fn single_character_payloads_are_captured() {
    let mut lexer = Lexer::new("+A\r\n:7\r\n$1\r\nz\r\n");
    assert_eq!(lexer.next().unwrap(), Ok(Token::SimpleString("A")));
    assert_eq!(lexer.next().unwrap(), Ok(Token::Integer(7)));
    assert_eq!(lexer.next().unwrap(), Ok(Token::BulkString(Some("z"))));
    assert_eq!(lexer.next(), None);
}

#[test]
fn lenient_terminators_are_accepted() {
    let mut lexer = Lexer::new("+OK\n+second\r\n");
    assert_eq!(lexer.next().unwrap(), Ok(Token::SimpleString("OK")));
    assert_eq!(lexer.next().unwrap(), Ok(Token::SimpleString("second")));
    assert_eq!(lexer.next(), None);
    let mut lexer = Lexer::new("+tail\r");
    assert_eq!(lexer.next().unwrap(), Ok(Token::SimpleString("tail")));
    assert_eq!(lexer.next(), None);
}

#[test]
fn verbatim_string_edges() {
    let mut lexer = Lexer::new("=4\r\ntxt:\r\n");
    assert_eq!(lexer.next().unwrap(), Ok(Token::VerbatimString("txt", "")));
    assert_eq!(lexer.next(), None);
    // A declared length larger than what the buffer holds.
    let mut lexer = Lexer::new("=50\r\ntxt:short\r\n");
    assert_eq!(lexer.next(), Some(Err(DecodeError::IncompleteFrame)));
    // A declared length too small to cover the tag and colon.
    let mut lexer = Lexer::new("=2\r\ntxt:x\r\n");
    assert_eq!(lexer.next(), Some(Err(DecodeError::IncompleteFrame)));
}

#[test]
fn boolean_format_error_keeps_kind() {
    let mut lexer = Lexer::new("#x\r\n");
    assert_eq!(lexer.next(), Some(Err(DecodeError::BooleanFormat)));
}

#[test]
fn element_error_aborts_aggregate() {
    let mut lexer = Lexer::new("*2\r\n:1\r\n#zzz\r\n");
    assert_eq!(lexer.next(), Some(Err(DecodeError::BooleanFormat)));
}

#[test]
fn parser_hands_out_a_session() {
    let parser = Parser::new(":1000\r\n:-1000\r\n");
    let mut lexer = parser.parse();
    assert_eq!(lexer.next().unwrap(), Ok(Token::Integer(1000)));
    assert_eq!(lexer.next().unwrap(), Ok(Token::Integer(-1000)));
    assert_eq!(lexer.next(), None);
    // A second session over the same parser starts from the beginning.
    let mut again = parser.parse();
    assert_eq!(again.next().unwrap(), Ok(Token::Integer(1000)));
}

#[test]
fn cursor_only_advances_across_pulls() {
    // Every frame of this buffer is decoded in input order; the payload
    // slices borrow from the original buffer.
    let buf = "$3\r\nabc\r\n+xyz\r\n";
    let mut lexer = Lexer::new(buf);
    let first = lexer.next().unwrap().unwrap();
    let second = lexer.next().unwrap().unwrap();
    assert_eq!(first, Token::BulkString(Some("abc")));
    assert_eq!(second, Token::SimpleString("xyz"));
    assert_eq!(lexer.next(), None);
}
