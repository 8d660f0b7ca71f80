use r_json::json::parser::object_insert;
use r_json::json::{array_as_string, as_string, object_as_string, JsonParser, JsonValue, ParseError};

fn parse(text: &str) -> Result<JsonValue, ParseError> {
    let mut parser = JsonParser::new();
    parser.parse_json(text.to_string())
}

fn num(t: &str) -> JsonValue {
    JsonValue::Number(t.to_string())
}

fn text(t: &str) -> JsonValue {
    JsonValue::String(t.to_string())
}

fn object(pairs: Vec<(&str, JsonValue)>) -> JsonValue {
    let mut entries = Vec::new();
    for (k, v) in pairs {
        object_insert(&mut entries, k.to_string(), v);
    }
    JsonValue::Object(entries)
}

#[test]
fn empty_list_parses_and_renders() {
    let v = parse("[]").unwrap();
    assert_eq!(v, JsonValue::Array(vec![]));
    assert_eq!(as_string(&v), "[]");
}

#[test]
fn empty_object_parses_and_renders() {
    let v = parse("{}").unwrap();
    assert_eq!(v, JsonValue::Object(vec![]));
    assert_eq!(as_string(&v), "{\n}");
    assert_eq!(parse(" {  } ").unwrap(), JsonValue::Object(vec![]));
}

#[test]
fn duplicate_keys_keep_last_value() {
    let v = parse("{\"a\":1,\"a\":2}").unwrap();
    assert_eq!(v, JsonValue::Object(vec![("a".to_string(), num("2"))]));
}

#[test]
fn duplicate_key_keeps_its_place() {
    let v = parse("{\"a\":1,\"b\":2,\"a\":3}").unwrap();
    assert_eq!(v, object(vec![("a", num("3")), ("b", num("2"))]));
}

#[test]
fn mixed_quote_string_stops_at_first_quote() {
    assert_eq!(parse("'it's'").unwrap(), text("it"));
    assert_eq!(parse("\"it's\"").unwrap(), text("it's"));
    assert_eq!(parse("'say \"hi\"'").unwrap(), text("say \"hi\""));
}

#[test]
fn backslash_is_a_plain_character() {
    assert_eq!(parse("\"a\\\"").unwrap(), text("a\\"));
}

#[test]
fn nested_structure() {
    let v = parse("{\"a\":[1,2,{\"b\":true}]}").unwrap();
    let inner = object(vec![("b", JsonValue::Boolean(true))]);
    let expected = object(vec![("a", JsonValue::Array(vec![num("1"), num("2"), inner]))]);
    assert_eq!(v, expected);
}

#[test]
fn unclosed_object_fails() {
    assert_eq!(parse("{"), Err(ParseError::UnexpectedEndOfInput));
    assert_eq!(parse("{\"a\":1"), Err(ParseError::UnexpectedEndOfInput));
    assert_eq!(parse("[1, 2"), Err(ParseError::UnexpectedEndOfInput));
}

#[test]
fn text_quoted_only_inside_containers() {
    let hi = text("hi");
    assert_eq!(as_string(&hi), "hi");
    let list = JsonValue::Array(vec![text("hi")]);
    assert_eq!(as_string(&list), "[\"hi\"]");
    assert_eq!(array_as_string(0, 2, &list), "[\"hi\"]");
    let obj = object(vec![("k", text("hi"))]);
    assert_eq!(as_string(&obj), "{\n  \"k\": \"hi\",\n}");
}

#[test]
fn rendering_twice_gives_same_text() {
    let v = parse("{\"a\":[1,\"x\",{\"b\":null}],\"c\":false}").unwrap();
    assert_eq!(as_string(&v), as_string(&v));
    assert_eq!(object_as_string(3, 4, &v), object_as_string(3, 4, &v));
    assert_eq!(array_as_string(1, 1, &v), array_as_string(1, 1, &v));
}

#[test]
fn render_then_parse_is_lossy() {
    // A text that looks like a number comes back as a number.
    let t = text("123");
    let back = parse(&as_string(&t)).unwrap();
    assert_eq!(back, num("123"));
    // Null renders capitalised, which does not start a value.
    assert_eq!(parse(&as_string(&JsonValue::Null)), Err(ParseError::UnexpectedCharacter));
    // The comma after the last entry leaves no key to read.
    let o = object(vec![("a", num("1"))]);
    assert_eq!(parse(&as_string(&o)), Err(ParseError::ExpectedStringKey));
}

#[test]
fn scalars_render_bare() {
    assert_eq!(as_string(&JsonValue::Null), "Null");
    assert_eq!(as_string(&JsonValue::Boolean(true)), "true");
    assert_eq!(as_string(&JsonValue::Boolean(false)), "false");
    assert_eq!(as_string(&num("95.5")), "95.5");
}

#[test]
fn list_renders_on_one_line() {
    let v = JsonValue::Array(vec![
        num("1"),
        text("x"),
        JsonValue::Array(vec![JsonValue::Boolean(true), JsonValue::Null]),
        JsonValue::Object(vec![]),
    ]);
    assert_eq!(as_string(&v), "[1, \"x\", [true, Null], {\n}]");
}

#[test]
fn nested_object_indentation() {
    let v = object(vec![("a", object(vec![("b", num("1"))]))]);
    assert_eq!(as_string(&v), "{\n  \"a\": {\n    \"b\": 1,\n  },\n}");
    assert_eq!(object_as_string(0, 2, &v), "{\n  \"a\": {\n    \"b\": 1,\n  },\n}");
}

#[test]
fn object_indent_below_one_step_is_raised() {
    let v = object(vec![("k", num("1"))]);
    assert_eq!(object_as_string(1, 4, &v), "{\n     \"k\": 1,\n }");
    assert_eq!(object_as_string(6, 2, &v), "{\n      \"k\": 1,\n    }");
}

#[test]
fn non_container_renders_as_empty_container() {
    assert_eq!(array_as_string(0, 2, &num("1")), "[]");
    assert_eq!(object_as_string(0, 2, &num("1")), "{\n}");
}

#[test]
fn numbers_are_canonical() {
    assert_eq!(parse("007.50").unwrap(), num("7.5"));
    assert_eq!(parse("0.50").unwrap(), num("0.5"));
    assert_eq!(parse("00").unwrap(), num("0"));
    assert_eq!(parse("5.").unwrap(), num("5"));
    assert_eq!(parse("0.0").unwrap(), num("0"));
    assert_eq!(parse("1.0").unwrap(), num("1"));
    assert_eq!(parse("10001").unwrap(), num("10001"));
}

#[test]
fn invalid_numbers() {
    assert_eq!(parse("1.2.3"), Err(ParseError::InvalidNumber));
    assert_eq!(parse("-5"), Err(ParseError::InvalidNumber));
    assert_eq!(parse("[1, 2..]"), Err(ParseError::InvalidNumber));
    assert_eq!(parse(".5"), Err(ParseError::UnexpectedCharacter));
}

#[test]
fn keywords_ignore_case() {
    assert_eq!(parse("TRUE").unwrap(), JsonValue::Boolean(true));
    assert_eq!(parse("False").unwrap(), JsonValue::Boolean(false));
    assert_eq!(parse("nULL").unwrap(), JsonValue::Null);
    assert_eq!(parse("Null"), Err(ParseError::UnexpectedCharacter));
}

#[test]
fn keyword_errors() {
    assert_eq!(parse("trux"), Err(ParseError::InvalidBoolean));
    assert_eq!(parse("fals3"), Err(ParseError::InvalidBoolean));
    assert_eq!(parse("nulx"), Err(ParseError::InvalidNull));
    assert_eq!(parse("tru"), Err(ParseError::UnexpectedEndOfInput));
    assert_eq!(parse("nul"), Err(ParseError::UnexpectedEndOfInput));
}

#[test]
fn unexpected_character_and_end() {
    assert_eq!(parse("@"), Err(ParseError::UnexpectedCharacter));
    assert_eq!(parse(""), Err(ParseError::UnexpectedEndOfInput));
    assert_eq!(parse("   \n\t"), Err(ParseError::UnexpectedEndOfInput));
    assert_eq!(parse("\"open"), Err(ParseError::UnexpectedEndOfInput));
    assert_eq!(parse("[1,]"), Err(ParseError::UnexpectedCharacter));
}

#[test]
fn separator_and_key_errors() {
    assert_eq!(parse("[1 2]"), Err(ParseError::ExpectedSeparatorOrClose));
    assert_eq!(parse("{\"a\" 1}"), Err(ParseError::ExpectedSeparatorOrClose));
    assert_eq!(parse("{\"a\":1 \"b\":2}"), Err(ParseError::ExpectedSeparatorOrClose));
    assert_eq!(parse("{1:2}"), Err(ParseError::ExpectedStringKey));
    assert_eq!(parse("{\"a\":1,}"), Err(ParseError::ExpectedStringKey));
    assert_eq!(parse("{\"a\""), Err(ParseError::UnexpectedEndOfInput));
}

#[test]
fn whitespace_between_tokens_and_trailing_text() {
    let v = parse(" \n{ 'k' :\t[ 1 , 'v' ] }\u{3000}").unwrap();
    assert_eq!(v, object(vec![("k", JsonValue::Array(vec![num("1"), text("v")]))]));
    assert_eq!(parse("1 2").unwrap(), num("1"));
    assert_eq!(parse("true]").unwrap(), JsonValue::Boolean(true));
}

#[test]
fn cursor_operations() {
    let mut parser = JsonParser::new();
    assert_eq!(parser.peek(0), None);
    assert_eq!(parser.parse_json("  7  x".to_string()), Ok(num("7")));
    assert_eq!(parser.peek(0), Some(' '));
    assert_eq!(parser.peek(-1), Some('7'));
    assert_eq!(parser.peek(-4), None);
    assert_eq!(parser.peek(10), None);
    parser.skip_whitespace();
    assert_eq!(parser.peek(0), Some('x'));
    assert!(!parser.consume('y'));
    assert!(parser.consume('x'));
    assert_eq!(parser.peek(0), None);
    assert!(!parser.consume('x'));
}

#[test]
fn start_of_boolean() {
    let parser = JsonParser::new();
    assert!(parser.is_start_of_boolean('t'));
    assert!(parser.is_start_of_boolean('T'));
    assert!(parser.is_start_of_boolean('f'));
    assert!(parser.is_start_of_boolean('F'));
    assert!(!parser.is_start_of_boolean('n'));
    assert!(!parser.is_start_of_boolean('4'));
}

#[test]
fn insert_replaces_or_appends() {
    let mut entries = Vec::new();
    object_insert(&mut entries, "a".to_string(), num("1"));
    object_insert(&mut entries, "b".to_string(), num("2"));
    object_insert(&mut entries, "a".to_string(), text("x"));
    assert_eq!(
        entries,
        vec![("a".to_string(), text("x")), ("b".to_string(), num("2"))]
    );
}

#[test]
fn sample_document() {
    let doc = "\n    {\n        \"user\": {\n            \"name\": \"John Doe\",\n            \"age\": 30,\n            \"active\": true,\n            \"skills\": [\"Rust\", \"Python\"]\n        }\n    }";
    let v = parse(doc).unwrap();
    let user = object(vec![
        ("name", text("John Doe")),
        ("age", num("30")),
        ("active", JsonValue::Boolean(true)),
        ("skills", JsonValue::Array(vec![text("Rust"), text("Python")])),
    ]);
    assert_eq!(v, object(vec![("user", user)]));
    assert_eq!(
        as_string(&v),
        "{\n  \"user\": {\n    \"name\": \"John Doe\",\n    \"age\": 30,\n    \"active\": true,\n    \"skills\": [\"Rust\", \"Python\"],\n  },\n}"
    );
}

const FLOAT_LIMIT: &str = "179769313486231580793728971405303415079934132710037826936173778980444968292764750946649017977587207096330286416692887910946555547851940402630657488671505820681908902000708383676273854845817711531764475730270069855571366959622842914819860834936475292719074168444365510704342711559699508093042880177904174497792";
const BELOW_FLOAT_LIMIT: &str = "179769313486231580793728971405303415079934132710037826936173778980444968292764750946649017977587207096330286416692887910946555547851940402630657488671505820681908902000708383676273854845817711531764475730270069855571366959622842914819860834936475292719074168444365510704342711559699508093042880177904174497791";

#[test]
fn numbers_beyond_float_range_fail() {
    let huge = format!("1{}", "0".repeat(400));
    assert_eq!(parse(&huge), Err(ParseError::InvalidNumber));
    assert_eq!(parse(FLOAT_LIMIT), Err(ParseError::InvalidNumber));
    assert_eq!(parse(&format!("{}.5", FLOAT_LIMIT)), Err(ParseError::InvalidNumber));
    assert_eq!(parse(&format!("[{}]", huge)), Err(ParseError::InvalidNumber));
}

#[test]
fn numbers_just_below_float_range_pass() {
    assert_eq!(parse(BELOW_FLOAT_LIMIT).unwrap(), num(BELOW_FLOAT_LIMIT));
    let with_fraction = format!("{}.99", BELOW_FLOAT_LIMIT);
    assert_eq!(parse(&with_fraction).unwrap(), num(&with_fraction));
    let padded = format!("000{}", BELOW_FLOAT_LIMIT);
    assert_eq!(parse(&padded).unwrap(), num(BELOW_FLOAT_LIMIT));
    let tiny = format!("0.{}1", "0".repeat(400));
    assert_eq!(parse(&tiny).unwrap(), num(&tiny));
}

#[test]
fn clone_keeps_the_value() {
    let v = parse("{\"a\":[1,'x',{\"b\":null}],\"c\":true}").unwrap();
    let c = v.clone();
    assert_eq!(c, v);
    assert_eq!(as_string(&c), as_string(&v));
}
