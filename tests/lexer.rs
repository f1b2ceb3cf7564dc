use fortunate_json::lexer::{CharClass, Lexer};
use fortunate_json::{Number, ParseError, Token};

fn lexer(s: &str) -> Lexer {
    Lexer::new(s.chars().collect())
}

#[test]
fn hex_digits() {
    assert_eq!(Ok(0), Lexer::parse_hex_digit('0'));
    assert_eq!(Ok(9), Lexer::parse_hex_digit('9'));
    assert_eq!(Ok(10), Lexer::parse_hex_digit('a'));
    assert_eq!(Ok(15), Lexer::parse_hex_digit('F'));
    assert_eq!(
        Err(ParseError("Bad hex digit 'g' in unicode escape".to_owned())),
        Lexer::parse_hex_digit('g')
    );
    assert_eq!(Ok(0x3053), Lexer::parse_hex('3', '0', '5', '3'));
    assert_eq!(Ok(0xffff), Lexer::parse_hex('f', 'F', 'f', 'F'));
    assert_eq!(
        Err(ParseError("Bad hex digit 'x' in unicode escape".to_owned())),
        Lexer::parse_hex('0', 'x', 'z', '0')
    );
}

#[test]
fn character_classes() {
    assert!(Lexer::is_identifier_start('_'));
    assert!(Lexer::is_identifier_start('Q'));
    assert!(!Lexer::is_identifier_start('7'));
    assert!(Lexer::is_identifier_char('7'));
    assert!(Lexer::is_digit('0'));
    assert!(!Lexer::is_digit('a'));
}

#[test]
fn cursor_moves() {
    let mut l = lexer("  ab1 c");
    assert!(!l.eof());
    l.skip_whitespace();
    assert_eq!(Some('a'), l.peek_byte());
    assert_eq!("ab1", l.take_while(CharClass::IdentifierChar));
    assert_eq!(" c", l.rest());
    l.advance();
    l.advance();
    assert!(l.eof());
    l.advance();
    assert_eq!(None, l.peek_byte());
    assert_eq!("", l.rest());
}

#[test]
fn tokens_in_order() {
    let mut l = lexer(" [ {} : , true \"a\\tb\" -1.5e3 ] ");
    assert_eq!(Ok(Token::OpenBracket), l.token());
    assert_eq!(Ok(Token::OpenBrace), l.token());
    assert_eq!(Ok(Token::CloseBrace), l.token());
    assert_eq!(Ok(Token::Colon), l.token());
    assert_eq!(Ok(Token::Comma), l.token());
    assert_eq!(Ok(Token::Identifier("true".to_owned())), l.token());
    assert_eq!(Ok(Token::String("a\tb".to_owned())), l.token());
    assert_eq!(
        Ok(Token::Number(Number {
            negative: true,
            integer: "1".to_owned(),
            fraction: "5".to_owned(),
            exponent_negative: false,
            exponent: "3".to_owned(),
        })),
        l.token()
    );
    assert_eq!(Ok(Token::CloseBracket), l.token());
    assert!(l.eof());
    assert_eq!(Err(ParseError("Unexpected end of file".to_owned())), l.token());
}

#[test]
fn string_contents() {
    let chars: Vec<char> = "x\\u0041\\n\\\"y".chars().collect();
    assert_eq!(Ok("xA\n\"y".to_owned()), Lexer::parse_string(&chars, 0, chars.len()));
    assert_eq!(Ok("A".to_owned()), Lexer::parse_string(&chars, 1, 7));
    assert_eq!(
        Err(ParseError("Unexpected EOF when parsing unicode escape in string literal".to_owned())),
        Lexer::parse_string(&chars, 1, 5)
    );
}
