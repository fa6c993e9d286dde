use json_parser::lexer::{
    is_whitespace, skip_whitespace, tokenize, tokenize_bool, tokenize_null, tokenize_number,
    tokenize_string,
};
use json_parser::parser::{parse_json_array, parse_json_object, parse_object, parse_value};
use json_parser::value::{JsonObject, LexError, Number, ParseError, Token};

fn chars(s: &str) -> Vec<char> {
    s.chars().collect()
}

fn parse(s: &str) -> Result<JsonObject, ParseError> {
    parse_object(&chars(s))
}

fn integer(i: i64) -> JsonObject {
    JsonObject::Number(Number::Integer(i))
}

fn text(s: &str) -> String {
    s.to_string()
}

#[test]
fn numbers_keep_their_kind() {
    assert_eq!(parse("3"), Ok(integer(3)));
    assert_eq!(parse("-5"), Ok(integer(-5)));
    match parse("3.0") {
        Ok(JsonObject::Number(Number::Float(t))) => {
            assert_eq!(t, "3.0");
            assert_eq!(t.parse::<f64>().unwrap(), 3.0);
        }
        other => panic!("unexpected {:?}", other),
    }
}

#[test]
fn duplicate_keys_last_write_wins() {
    assert_eq!(
        parse("{\"a\":1,\"a\":2}"),
        Ok(JsonObject::Object(vec![(text("a"), integer(2))]))
    );
}

#[test]
fn empty_containers() {
    assert_eq!(parse("[]"), Ok(JsonObject::Array(vec![])));
    assert_eq!(parse("{}"), Ok(JsonObject::Object(vec![])));
}

#[test]
fn malformed_inputs_are_rejected() {
    assert_eq!(parse("{"), Err(ParseError::UnterminatedObject));
    assert_eq!(parse("tru"), Err(ParseError::Lex(LexError::InvalidBoolean)));
    assert_eq!(parse(""), Err(ParseError::EmptyInput));
    assert_eq!(parse("{1:2}"), Err(ParseError::ExpectedStringKey));
}

#[test]
fn whitespace_between_tokens_is_insignificant() {
    let a = parse("{ \"a\" : 1 }");
    let b = parse("{\"a\":1}");
    assert_eq!(a, b);
    assert_eq!(b, Ok(JsonObject::Object(vec![(text("a"), integer(1))])));
    assert_eq!(parse(" \t\n[ 1 ,\r\n 2 ]\n"), parse("[1,2]"));
}

#[test]
fn nested_arrays() {
    assert_eq!(
        parse("[[1,2],[3,[4]]]"),
        Ok(JsonObject::Array(vec![
            JsonObject::Array(vec![integer(1), integer(2)]),
            JsonObject::Array(vec![integer(3), JsonObject::Array(vec![integer(4)])]),
        ]))
    );
}

#[test]
fn mixed_document_has_expected_shape() {
    let r = parse("{\"s\":\"hi\",\"n\":null,\"t\":true,\"f\":false,\"x\":-1.5,\"l\":[{},[]]}");
    assert_eq!(
        r,
        Ok(JsonObject::Object(vec![
            (text("s"), JsonObject::String(text("hi"))),
            (text("n"), JsonObject::Null),
            (text("t"), JsonObject::Bool(true)),
            (text("f"), JsonObject::Bool(false)),
            (text("x"), JsonObject::Number(Number::Float(text("-1.5")))),
            (
                text("l"),
                JsonObject::Array(vec![JsonObject::Object(vec![]), JsonObject::Array(vec![])])
            ),
        ]))
    );
}

#[test]
fn parsing_twice_gives_equal_trees() {
    let s = "{\"b\":[1,{\"c\":null}],\"a\":\"x\"}";
    assert_eq!(parse(s), parse(s));
    assert!(parse(s).is_ok());
}

#[test]
fn lex_errors() {
    assert_eq!(parse("\"abc"), Err(ParseError::Lex(LexError::UnterminatedString)));
    assert_eq!(parse("nul"), Err(ParseError::Lex(LexError::InvalidNull)));
    assert_eq!(parse("fals"), Err(ParseError::Lex(LexError::InvalidBoolean)));
    assert_eq!(parse("[1, @]"), Err(ParseError::Lex(LexError::UnexpectedCharacter('@'))));
    assert_eq!(parse("-"), Err(ParseError::Lex(LexError::InvalidNumber)));
    assert_eq!(parse("1.2.3"), Err(ParseError::Lex(LexError::InvalidNumber)));
    assert_eq!(parse("-."), Err(ParseError::Lex(LexError::InvalidNumber)));
    assert_eq!(parse("9223372036854775808"), Err(ParseError::Lex(LexError::InvalidNumber)));
    assert_eq!(parse("-9223372036854775809"), Err(ParseError::Lex(LexError::InvalidNumber)));
}

#[test]
fn integer_limits() {
    assert_eq!(parse("9223372036854775807"), Ok(integer(i64::MAX)));
    assert_eq!(parse("-9223372036854775808"), Ok(integer(i64::MIN)));
    assert_eq!(parse("007"), Ok(integer(7)));
    assert_eq!(parse("-0"), Ok(integer(0)));
}

#[test]
fn float_forms() {
    assert_eq!(parse("1."), Ok(JsonObject::Number(Number::Float(text("1.")))));
    assert_eq!(parse("-.5"), Ok(JsonObject::Number(Number::Float(text("-.5")))));
    assert_eq!("-.5".parse::<f64>().unwrap(), -0.5);
}

#[test]
fn parse_errors() {
    assert_eq!(parse("{\"a\" 1}"), Err(ParseError::ExpectedColon));
    assert_eq!(parse("{\"a\""), Err(ParseError::ExpectedColon));
    assert_eq!(parse("{\"a\":"), Err(ParseError::UnexpectedEndOfTokens));
    assert_eq!(parse("]"), Err(ParseError::UnexpectedToken(']')));
    assert_eq!(parse(",1"), Err(ParseError::UnexpectedToken(',')));
    assert_eq!(parse("[1, :]"), Err(ParseError::UnexpectedToken(':')));
    assert_eq!(parse("[1,2"), Err(ParseError::UnterminatedArray));
    assert_eq!(parse("{\"a\":1"), Err(ParseError::UnterminatedObject));
    assert_eq!(parse("   "), Err(ParseError::EmptyInput));
}

#[test]
fn separators_are_lax_and_trailing_tokens_ignored() {
    assert_eq!(parse("[,1,,2,]"), Ok(JsonObject::Array(vec![integer(1), integer(2)])));
    assert_eq!(parse("[1 2]"), Ok(JsonObject::Array(vec![integer(1), integer(2)])));
    assert_eq!(parse("{,\"a\":1,}"), Ok(JsonObject::Object(vec![(text("a"), integer(1))])));
    assert_eq!(parse("1 2 ]"), Ok(integer(1)));
}

#[test]
fn strings_are_kept_verbatim() {
    assert_eq!(parse("\"a\\nb\""), Ok(JsonObject::String(text("a\\nb"))));
    assert_eq!(parse("\"\""), Ok(JsonObject::String(text(""))));
}

#[test]
fn tokenize_produces_token_sequence() {
    assert_eq!(
        tokenize(&chars(" {\"k\": [1, -2.5, true, null]} ")),
        Ok(vec![
            Token::LeftBrace,
            Token::String(text("k")),
            Token::Colon,
            Token::LeftBracket,
            Token::Number(Number::Integer(1)),
            Token::Comma,
            Token::Number(Number::Float(text("-2.5"))),
            Token::Comma,
            Token::Bool(true),
            Token::Comma,
            Token::Null,
            Token::RightBracket,
            Token::RightBrace,
        ])
    );
    assert_eq!(tokenize(&chars("  \n ")), Ok(vec![]));
    assert_eq!(tokenize(&chars("truex")), Err(LexError::UnexpectedCharacter('x')));
}

#[test]
fn lexing_pieces() {
    let d = chars("  \tab");
    assert_eq!(skip_whitespace(&d), &['a', 'b'][..]);
    let d = chars("\"xy\"z");
    assert_eq!(tokenize_string(&d), Ok((text("xy"), &['z'][..])));
    assert_eq!(tokenize_string(&chars("\"xy")), Err(LexError::UnterminatedString));
    let d = chars("false,");
    assert_eq!(tokenize_bool(&d), Ok((false, &[','][..])));
    assert_eq!(tokenize_bool(&chars("True")), Err(LexError::InvalidBoolean));
    let d = chars("null]");
    assert_eq!(tokenize_null(&d), Ok(&[']'][..]));
    assert_eq!(tokenize_null(&chars("nil")), Err(LexError::InvalidNull));
    let d = chars("-12,");
    assert_eq!(tokenize_number(&d), Ok((Number::Integer(-12), &[','][..])));
    let d = chars("4.25]");
    assert_eq!(tokenize_number(&d), Ok((Number::Float(text("4.25")), &[']'][..])));
}

#[test]
fn token_level_parsers() {
    let ts = tokenize(&chars("[1,{\"a\":[]}] 7")).unwrap();
    let mut pos: usize = 0;
    let v = parse_json_array(&ts, &mut pos).unwrap();
    assert_eq!(
        v,
        JsonObject::Array(vec![
            integer(1),
            JsonObject::Object(vec![(text("a"), JsonObject::Array(vec![]))])
        ])
    );
    assert_eq!(pos, 10);
    assert_eq!(parse_value(&ts, &mut pos), Ok(integer(7)));
    assert_eq!(pos, 11);
    assert_eq!(parse_value(&ts, &mut pos), Err(ParseError::UnexpectedEndOfTokens));
    let ts = tokenize(&chars("{\"a\":1,\"b\":2}")).unwrap();
    let mut pos: usize = 0;
    assert_eq!(
        parse_json_object(&ts, &mut pos),
        Ok(JsonObject::Object(vec![(text("a"), integer(1)), (text("b"), integer(2))]))
    );
    assert_eq!(pos, 9);
}

#[test]
fn whitespace_matches_std() {
    for u in 0u32..=0x10FFFF {
        if let Some(c) = char::from_u32(u) {
            assert_eq!(is_whitespace(c), c.is_whitespace(), "U+{:04X}", u);
        }
    }
}

#[test]
fn objects_compare_as_maps() {
    let a = parse("{\"a\":1,\"b\":[true,{\"c\":null,\"d\":\"x\"}]}").unwrap();
    let b = parse("{\"b\":[true,{\"d\":\"x\",\"c\":null}],\"a\":1}").unwrap();
    assert!(a == b);
    let c = parse("{\"b\":[true,{\"d\":\"y\",\"c\":null}],\"a\":1}").unwrap();
    assert!(a != c);
    let d = parse("{\"a\":1}").unwrap();
    assert!(a != d);
    assert!(d != a);
    assert!(parse("[1,2]").unwrap() != parse("[2,1]").unwrap());
    assert!(parse("1").unwrap() != parse("1.0").unwrap());
    assert!(parse("\"1\"").unwrap() != parse("1").unwrap());
}

#[test]
fn numbers_and_tokens_as_text() {
    assert_eq!(Number::Integer(-42).to_string(), "-42");
    assert_eq!(Number::Integer(0).to_string(), "0");
    assert_eq!(Number::Integer(i64::MIN).to_string(), "-9223372036854775808");
    assert_eq!(Number::Integer(i64::MAX).to_string(), "9223372036854775807");
    assert_eq!(Number::Float(text("3.0")).to_string(), "3.0");
    assert_eq!(Token::LeftBrace.to_string(), "LeftBrace");
    assert_eq!(Token::RightBracket.to_string(), "RightBracket");
    assert_eq!(Token::Colon.to_string(), "Colon");
    assert_eq!(Token::Comma.to_string(), "Comma");
    assert_eq!(Token::Null.to_string(), "Null");
    assert_eq!(Token::String(text("ab")).to_string(), "String(ab)");
    assert_eq!(Token::Bool(true).to_string(), "Bool(true)");
    assert_eq!(Token::Bool(false).to_string(), "Bool(false)");
    assert_eq!(Token::Number(Number::Integer(17)).to_string(), "17");
}

#[test]
fn escaped_quote_does_not_close_a_string() {
    let d = vec!['"', 'a', '\\', '"', 'b', '"'];
    let empty: &[char] = &[];
    assert_eq!(tokenize_string(&d), Ok((text("a\\\"b"), empty)));
    assert_eq!(parse("\"a\\\"b\""), Ok(JsonObject::String(text("a\\\"b"))));
    assert_eq!(
        parse("{\"k\\\"ey\":\"v\"}"),
        Ok(JsonObject::Object(vec![(text("k\\\"ey"), JsonObject::String(text("v")))]))
    );
    assert_eq!(parse("\"a\\\\\""), Ok(JsonObject::String(text("a\\\\"))));
    assert_eq!(parse("\"ab\\\""), Err(ParseError::Lex(LexError::UnterminatedString)));
    assert_eq!(parse("\"ab\\"), Err(ParseError::Lex(LexError::UnterminatedString)));
}
