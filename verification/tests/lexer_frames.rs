use resp_lexer::lexer::Lexer;
use resp_lexer::token::DecodeError;
use resp_lexer::token::Token;

#[test]
fn test_simple_string() {
    let mut lexer = Lexer::new("+OK\r\n");
    assert_eq!(lexer.next().unwrap(), Ok(Token::SimpleString("OK")));
    assert_eq!(lexer.next(), None);
}

#[test]
fn test_simple_string_2() {
    let mut lexer = Lexer::new("+OK\r\n+OK\r\n");
    assert_eq!(lexer.next().unwrap(), Ok(Token::SimpleString("OK")));
    assert_eq!(lexer.next().unwrap(), Ok(Token::SimpleString("OK")));
    assert_eq!(lexer.next(), None);
}

#[test]
fn test_error() {
    let mut lexer = Lexer::new("-ERR unknown command 'FOO'\r\n");
    assert_eq!(
        lexer.next().unwrap(),
        Ok(Token::Error("ERR unknown command 'FOO'"))
    );
    assert_eq!(lexer.next(), None);
}

#[test]
fn test_error_2() {
    let mut lexer = Lexer::new("-ERR unknown command 'FOO'\r\n-10086\r\n");
    assert_eq!(
        lexer.next().unwrap(),
        Ok(Token::Error("ERR unknown command 'FOO'"))
    );
    assert_eq!(lexer.next().unwrap(), Ok(Token::Error("10086")));
    assert_eq!(lexer.next(), None);
}

#[test]
fn test_number() {
    let mut lexer = Lexer::new(":1000\r\n");
    assert_eq!(lexer.next().unwrap(), Ok(Token::Integer(1000)));
    assert_eq!(lexer.next(), None);

    let mut lexer = Lexer::new(":+0\r\n");
    assert_eq!(lexer.next().unwrap(), Ok(Token::Integer(0)));

    let mut lexer = Lexer::new(":-0\r\n");
    assert_eq!(lexer.next().unwrap(), Ok(Token::Integer(-0)));
}

#[test]
fn test_number_2() {
    let mut lexer = Lexer::new(":1000\r\n:-1000\r\n");
    assert_eq!(lexer.next().unwrap(), Ok(Token::Integer(1000)));
    assert_eq!(lexer.next().unwrap(), Ok(Token::Integer(-1000)));
    assert_eq!(lexer.next(), None);
}

#[test]
fn test_bulk_string() {
    let mut lexer = Lexer::new("$5\r\nhello\r\n");
    assert_eq!(lexer.next().unwrap(), Ok(Token::BulkString(Some("hello"))));
    assert_eq!(lexer.next(), None);
}

#[test]
fn test_bulk_string_2() {
    let mut lexer = Lexer::new("$0\r\n\r\n");
    assert_eq!(lexer.next().unwrap(), Ok(Token::BulkString(Some(""))));
    assert_eq!(lexer.next(), None);
}

#[test]
fn test_bulk_string_3() {
    let mut lexer = Lexer::new("$-1\r\n");
    assert_eq!(lexer.next().unwrap(), Ok(Token::BulkString(None)));
    assert_eq!(lexer.next(), None);
}

#[test]
fn test_array() {
    let mut lexer = Lexer::new("*0\r\n");
    assert_eq!(lexer.next().unwrap(), Ok(Token::Array(Some(vec![]))));
    assert_eq!(lexer.next(), None);
}

#[test]
fn test_array_2() {
    let mut lexer = Lexer::new("*2\r\n$3\r\nfoo\r\n$3\r\nbar\r\n");
    assert_eq!(
        lexer.next().unwrap(),
        Ok(Token::Array(Some(vec![
            Token::BulkString(Some("foo")),
            Token::BulkString(Some("bar")),
        ])))
    );
    assert_eq!(lexer.next(), None);
}

#[test]
fn test_array_3() {
    let mut lexer = Lexer::new("*3\r\n:1\r\n:2\r\n:3\r\n");
    assert_eq!(
        lexer.next().unwrap(),
        Ok(Token::Array(Some(vec![
            Token::Integer(1),
            Token::Integer(2),
            Token::Integer(3),
        ])))
    );
    assert_eq!(lexer.next(), None);
}

#[test]
fn test_array_4() {
    let mut lexer = Lexer::new("*5\r\n:1\r\n:2\r\n:3\r\n:4\r\n$6\r\nfoobar\r\n");
    assert_eq!(
        lexer.next().unwrap(),
        Ok(Token::Array(Some(vec![
            Token::Integer(1),
            Token::Integer(2),
            Token::Integer(3),
            Token::Integer(4),
            Token::BulkString(Some("foobar")),
        ])))
    );
    assert_eq!(lexer.next(), None);
}

#[test]
fn test_array_5() {
    let mut lexer = Lexer::new("*-1\r\n\r\n");
    assert_eq!(lexer.next().unwrap(), Ok(Token::Array(None)));
    assert_eq!(lexer.next(), None);
}

#[test]
fn test_boolean() {
    let mut lexer = Lexer::new("#t\r\n#f\r\n#\r\n");
    assert_eq!(lexer.next().unwrap(), Ok(Token::Boolean(true)));
    assert_eq!(lexer.next().unwrap(), Ok(Token::Boolean(false)));
    // A `#` followed by neither `t` nor `f` is a boolean-format error.
    assert_eq!(lexer.next(), Some(Err(DecodeError::BooleanFormat)));
}

#[test]
fn test_double() {
    let mut lexer = Lexer::new(",3.14\r\n,-3.14\r\n,5.9e3\r\n,2\r\n");
    assert_eq!(lexer.next().unwrap(), Ok(Token::Double("3.14")));
    assert_eq!(lexer.next().unwrap(), Ok(Token::Double("-3.14")));
    assert_eq!(lexer.next().unwrap(), Ok(Token::Double("5.9e3")));
    assert_eq!(lexer.next().unwrap(), Ok(Token::Double("2")));
    assert_eq!(lexer.next(), None);
}

#[test]
fn test_big_number() {
    let mut lexer = Lexer::new("(123\r\n(-123\r\n(+123\r\n");
    assert_eq!(lexer.next().unwrap(), Ok(Token::BigNumber("123")));
    assert_eq!(lexer.next().unwrap(), Ok(Token::BigNumber("-123")));
    assert_eq!(lexer.next().unwrap(), Ok(Token::BigNumber("+123")));
    assert_eq!(lexer.next(), None);
}

#[test]
fn test_big_error() {
    let mut lexer = Lexer::new("!OK\r\n");
    assert_eq!(lexer.next().unwrap(), Ok(Token::BigErr("OK")));
    assert_eq!(lexer.next(), None);
}

#[test]
fn test_verbatim_string() {
    let mut lexer = Lexer::new("=15\r\ntxt:Some string\r\n");
    assert_eq!(
        lexer.next().unwrap(),
        Ok(Token::VerbatimString("txt", "Some string"))
    );
    assert_eq!(lexer.next(), None);
}
