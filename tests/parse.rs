use fortunate_json::{parse, voorhees, Number, ParseError, Value};

fn number(negative: bool, integer: &str, fraction: &str, exponent_negative: bool, exponent: &str) -> Value {
    Value::Number(Number {
        negative,
        integer: integer.to_owned(),
        fraction: fraction.to_owned(),
        exponent_negative,
        exponent: exponent.to_owned(),
    })
}

fn as_f32(v: &Value) -> f32 {
    match v {
        Value::Number(n) => n.to_decimal_string().parse::<f32>().unwrap(),
        _ => panic!("not a number: {:?}", v),
    }
}

fn floats(v: &Value) -> Vec<f32> {
    match v {
        Value::Array(a) => a.iter().map(as_f32).collect(),
        _ => panic!("not an array: {:?}", v),
    }
}

fn message(r: Result<Value, ParseError>) -> String {
    match r {
        Err(ParseError(m)) => m,
        Ok(v) => panic!("parsed: {:?}", v),
    }
}

#[test]
fn tests_prims() {
    assert_eq!(Ok(Value::Null), parse("null"));
    assert_eq!(Ok(Value::Boolean(true)), parse("true"));
    assert_eq!(Ok(Value::Boolean(false)), parse("false"));
}

#[test]
fn voorhees_prims() {
    assert_eq!(Ok(voorhees::Value::Null), voorhees::parse("null"));
    assert_eq!(Ok(voorhees::Value::Boolean(true)), voorhees::parse("true"));
    assert_eq!(Ok(voorhees::Value::Boolean(false)), voorhees::parse("false"));
}

#[test]
fn prims_with_whitespace() {
    assert_eq!(Ok(Value::Null), parse(" \t\r\n null \n"));
    assert_eq!(Ok(Value::Boolean(true)), parse("\ttrue "));
    assert_eq!(Ok(Value::Boolean(false)), parse("\r\nfalse\r\n"));
}

#[test]
fn tests_simple_array() {
    let expected = vec![Value::Boolean(true), Value::Boolean(false), Value::Null];
    assert_eq!(Ok(Value::Array(expected)), parse("[true,false,null]"));
}

#[test]
fn voorhees_simple_array() {
    let expected = vec![voorhees::Value::Boolean(true), voorhees::Value::Boolean(false), voorhees::Value::Null];
    assert_eq!(Ok(voorhees::Value::Array(expected)), voorhees::parse("[true,false,null]"));
}

#[test]
fn tests_nested_array() {
    let expected = Value::Array(vec![
        Value::Boolean(true),
        Value::Array(vec![Value::Boolean(false), Value::Null]),
    ]);
    assert_eq!(Ok(expected), parse("[true,[false,null]]"));
}

#[test]
fn voorhees_nested_array() {
    let expected = voorhees::Value::Array(vec![
        voorhees::Value::Boolean(true),
        voorhees::Value::Array(vec![voorhees::Value::Boolean(false), voorhees::Value::Null]),
    ]);
    assert_eq!(Ok(expected), voorhees::parse("[true,[false,null]]"));
}

#[test]
fn deeply_nested_array() {
    let text = format!("{}{}", "[".repeat(50), "]".repeat(50));
    let mut expected = Value::Array(vec![]);
    for _ in 1..50 {
        expected = Value::Array(vec![expected]);
    }
    assert_eq!(Ok(expected), parse(&text));
}

#[test]
fn tests_whitespace() {
    let expected = Value::Array(vec![Value::Boolean(true), Value::Boolean(false)]);
    assert_eq!(Ok(expected), parse(" [ true , false ] "));
}

#[test]
fn voorhees_whitespace() {
    let expected = voorhees::Value::Array(vec![voorhees::Value::Boolean(true), voorhees::Value::Boolean(false)]);
    assert_eq!(Ok(expected), voorhees::parse(" [ true , false ] "));
}

#[test]
fn whitespace_does_not_matter() {
    assert_eq!(parse(" [ true , false ] "), parse("[true,false]"));
}

#[test]
fn empty_containers() {
    assert_eq!(Ok(Value::Array(vec![])), parse("[]"));
    assert_eq!(Ok(Value::Array(vec![])), parse(" [ ] "));
    assert_eq!(Ok(Value::Object(vec![])), parse("{}"));
    assert_eq!(Ok(Value::Object(vec![])), parse("{ \n }"));
}

#[test]
fn tests_string() {
    let expected = Value::String("Hello World!".to_owned());
    assert_eq!(Ok(expected), parse("\"Hello World!\""));
}

#[test]
fn voorhees_string() {
    let expected = voorhees::Value::String("Hello World!".to_owned());
    assert_eq!(Ok(expected), voorhees::parse("\"Hello World!\""));
}

#[test]
fn tests_japanese() {
    let expected = Value::String("こんにちは".to_owned());
    assert_eq!(Ok(expected), parse("\"こんにちは\""));
}

#[test]
fn voorhees_japanese() {
    let expected = voorhees::Value::String("こんにちは".to_owned());
    assert_eq!(Ok(expected), voorhees::parse("\"こんにちは\""));
}

#[test]
fn tests_string_with_newline() {
    let expected = Value::String("Hello\nWorld".to_owned());
    assert_eq!(Ok(expected), parse("\"Hello\\nWorld\""));
}

#[test]
fn voorhees_string_with_newline() {
    let expected = voorhees::Value::String("Hello\nWorld".to_owned());
    assert_eq!(Ok(expected), voorhees::parse("\"Hello\\nWorld\""));
}

#[test]
fn string_escapes() {
    let expected = Value::String("q\" b\\ s/ \u{8} \u{c} \n \r \t x".to_owned());
    assert_eq!(Ok(expected), parse(r#""q\" b\\ s\/ \b \f \n \r \t \x""#));
}

#[test]
fn unicode_escapes() {
    assert_eq!(Ok(Value::String("A".to_owned())), parse(r#""\u0041""#));
    assert_eq!(Ok(Value::String("é".to_owned())), parse(r#""\u00e9""#));
    assert_eq!(Ok(Value::String("こ".to_owned())), parse(r#""\u3053""#));
    assert_eq!(Ok(Value::String("\u{ffff}".to_owned())), parse(r#""\uFFFF""#));
}

#[test]
fn tests_object() {
    let expected = Value::Object(vec![
        ("foo".to_owned(), Value::String("bar".to_owned())),
        ("baz".to_owned(), Value::Boolean(true)),
    ]);
    assert_eq!(Ok(expected), parse("{\"foo\": \"bar\", \"baz\" : true}"));
}

#[test]
fn voorhees_object() {
    let expected = voorhees::Value::Object(vec![
        ("foo".to_owned(), voorhees::Value::String("bar".to_owned())),
        ("baz".to_owned(), voorhees::Value::Boolean(true)),
    ]);
    assert_eq!(Ok(expected), voorhees::parse("{\"foo\": \"bar\", \"baz\" : true}"));
}

#[test]
fn object_ignores_whitespace() {
    assert_eq!(
        parse("{\"foo\":\"bar\",\"baz\":true}"),
        parse("{ \"foo\" :\n\"bar\" ,\t\"baz\":  true }")
    );
}

#[test]
fn duplicate_key_last_wins() {
    let expected = Value::Object(vec![
        ("a".to_owned(), Value::Number(Number {
            negative: false,
            integer: "3".to_owned(),
            fraction: String::new(),
            exponent_negative: false,
            exponent: String::new(),
        })),
        ("b".to_owned(), Value::Null),
    ]);
    assert_eq!(Ok(expected), parse("{\"a\": 1, \"b\": null, \"a\": 3}"));
}

#[test]
fn tests_integers() {
    let parsed = parse("[0, 2, 4 , 8, 128 \t ,65535, -131085]").unwrap();
    assert_eq!(floats(&parsed), vec![0.0, 2.0, 4.0, 8.0, 128.0, 65535.0, -131085.0]);
    assert_eq!(
        parsed,
        Value::Array(vec![
            number(false, "0", "", false, ""),
            number(false, "2", "", false, ""),
            number(false, "4", "", false, ""),
            number(false, "8", "", false, ""),
            number(false, "128", "", false, ""),
            number(false, "65535", "", false, ""),
            number(true, "131085", "", false, ""),
        ])
    );
}

#[test]
fn voorhees_integers() {
    let parsed = voorhees::parse("[0, 2, 4 , 8, 128 \t ,65535, -131085]").unwrap();
    assert_eq!(floats(&parsed), vec![0.0, 2.0, 4.0, 8.0, 128.0, 65535.0, -131085.0]);
}

#[test]
fn tests_float() {
    let parsed = parse("3.141").unwrap();
    assert_eq!(parsed, number(false, "3", "141", false, ""));
    assert_eq!(as_f32(&parsed), 3.141);
}

#[test]
fn voorhees_float() {
    let parsed = voorhees::parse("3.141").unwrap();
    assert_eq!(as_f32(&parsed), 3.141);
}

#[test]
fn tests_exponential_notation() {
    let parsed = parse("[1e3, 5.5e-4]").unwrap();
    assert_eq!(floats(&parsed), vec![1000.0, 0.00055]);
    assert_eq!(
        parsed,
        Value::Array(vec![number(false, "1", "", false, "3"), number(false, "5", "5", true, "4")])
    );
}

#[test]
fn voorhees_exponential_notation() {
    let parsed = voorhees::parse("[1e3, 5.5e-4]").unwrap();
    assert_eq!(floats(&parsed), vec![1000.0, 0.00055]);
}

#[test]
fn negative_numbers_and_signed_exponents() {
    let parsed = parse("[-2.5, -0, 1E+2, 7.]").unwrap();
    assert_eq!(floats(&parsed), vec![-2.5, 0.0, 100.0, 7.0]);
    assert_eq!(as_f32(&parse("-0.5").unwrap()), -0.5);
}

#[test]
fn decimal_text_of_numbers() {
    let n = Number {
        negative: true,
        integer: String::new(),
        fraction: "25".to_owned(),
        exponent_negative: true,
        exponent: "1".to_owned(),
    };
    assert_eq!(n.to_decimal_string(), "-0.25e-1");
    assert_eq!(n.to_decimal_string().parse::<f32>().unwrap(), -0.025);
}

#[test]
fn truncated_string_is_an_error() {
    assert_eq!(message(parse("\"abc")), "Unexpected end of file while parsing string literal");
    assert_eq!(
        message(parse("\"abc\\")),
        "Unexpected end of file while parsing string literal escape sequence"
    );
    assert_eq!(message(parse("\"ab\nc\"")), "Unexpected newline while parsing string literal");
}

#[test]
fn truncated_unicode_escape_is_an_error() {
    assert_eq!(
        message(parse("\"\\u00\"")),
        "Unexpected EOF when parsing unicode escape in string literal"
    );
    assert_eq!(message(parse("\"\\u00G1\"")), "Bad hex digit 'G' in unicode escape");
    assert_eq!(message(parse("\"\\ud800\"")), "Unicode escape does not name a character");
}

#[test]
fn trailing_content_is_an_error() {
    assert_eq!(message(parse("true x")), "Extra content at end of input: x");
    assert_eq!(message(parse("[1] ]")), "Extra content at end of input: ]");
}

#[test]
fn unknown_identifier_is_an_error() {
    assert_eq!(message(parse("nul")), "Unknown token 'nul'");
    assert_eq!(message(parse("[True]")), "Unknown token 'True'");
}

#[test]
fn grammar_errors() {
    assert_eq!(message(parse("")), "Unexpected end of file");
    assert_eq!(message(parse("   ")), "Unexpected end of file");
    assert_eq!(message(parse("@")), "Unexpected character '@'");
    assert_eq!(message(parse("[1 2]")), "Expected ',' or ']' but got 'a number'");
    assert_eq!(message(parse("[1,]")), "Unknown token ']'");
    assert_eq!(message(parse("{\"a\" 1}")), "Expected colon but got 'a number'");
    assert_eq!(message(parse("{\"a\": 1 ]")), "Expected comma or brace but got ']'");
    assert_eq!(message(parse("{1: 2}")), "Object keys must be strings");
    assert_eq!(message(parse("[")), "Unexpected end of file");
}

#[test]
fn malformed_numbers() {
    assert_eq!(message(parse("-")), "Unexpected EOF while parsing number");
    assert_eq!(message(parse("-x")), "Malformed number literal");
    assert_eq!(message(parse("1e")), "Malformed number literal");
    assert_eq!(message(parse("[1e+]")), "Malformed number literal");
}
