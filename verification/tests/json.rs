use rune_interpreter::json::{escape_json, json_parse, json_stringify, JsonParseError, JsonValue};
use rune_interpreter::json::{json_stringify_input, StringifyInput};

fn chars(s: &str) -> Vec<char> {
    s.chars().collect()
}

fn text(v: &[char]) -> String {
    v.iter().collect()
}

fn parse(s: &str) -> Option<JsonValue> {
    json_parse(&chars(s)).ok()
}

fn stringify(v: &JsonValue) -> String {
    text(&json_stringify(v))
}

#[test]
fn parse_scalars() {
    assert!(matches!(parse("null"), Some(JsonValue::Null)));
    assert!(matches!(parse(" true"), Some(JsonValue::Bool(true))));
    assert!(matches!(parse("false"), Some(JsonValue::Bool(false))));
    assert!(matches!(parse("42"), Some(JsonValue::Int(42))));
    assert!(matches!(parse("-7"), Some(JsonValue::Int(-7))));
    assert!(matches!(parse("-2147483648"), Some(JsonValue::Int(i32::MIN))));
    match parse("2147483648") {
        Some(JsonValue::Number(t)) => assert_eq!(text(&t), "2147483648"),
        _ => panic!("expected a number text"),
    }
    match parse("1.5e3") {
        Some(JsonValue::Number(t)) => assert_eq!(text(&t), "1.5e3"),
        _ => panic!("expected a number text"),
    }
    match parse("\"a\\n\\u0041\\\"\"") {
        Some(JsonValue::Str(s)) => assert_eq!(text(&s), "a\nA\""),
        _ => panic!("expected a string"),
    }
}

#[test]
fn parse_rejects_malformed_text() {
    for bad in ["", "nul", "[1,]", "[1", "{\"a\" 1}", "{a:1}", "\"open", "-", "1e", "+1", "\"\\x\""] {
        assert!(parse(bad).is_none(), "{:?} should not parse", bad);
    }
}

#[test]
fn parse_containers() {
    assert!(parse(" [1, [true], {\"k\": null}] trailing").is_none());
    match parse(" [1, [true], {\"k\": null}]\t ") {
        Some(JsonValue::Array(items)) => {
            assert_eq!(items.len(), 3);
            assert!(matches!(items[0], JsonValue::Int(1)));
            match &items[1] {
                JsonValue::Array(inner) => assert!(matches!(inner[0], JsonValue::Bool(true))),
                _ => panic!("expected an array"),
            }
            match &items[2] {
                JsonValue::Object(ms) => {
                    assert_eq!(text(&ms[0].0), "k");
                    assert!(matches!(ms[0].1, JsonValue::Null));
                }
                _ => panic!("expected an object"),
            }
        }
        _ => panic!("expected an array"),
    }
    assert!(matches!(parse("[]"), Some(JsonValue::Array(v)) if v.is_empty()));
    assert!(matches!(parse("{ }"), Some(JsonValue::Object(v)) if v.is_empty()));
}

#[test]
fn unicode_escapes() {
    // A surrogate code cannot stand alone: the escape contributes nothing.
    match parse("\"x\\ud800y\"") {
        Some(JsonValue::Str(s)) => assert_eq!(text(&s), "xy"),
        _ => panic!("expected a string"),
    }
    match parse("\"\\u0041\\u00e9\"") {
        Some(JsonValue::Str(s)) => assert_eq!(text(&s), "A\u{e9}"),
        _ => panic!("expected a string"),
    }
    // Exactly four hexadecimal digits follow `\u`.
    assert!(parse("\"\\u+041\"").is_none());
    assert!(parse("\"\\u00g1\"").is_none());
    assert!(parse("\"\\u00\"").is_none());
}

#[test]
fn json_whitespace_is_strict() {
    // Space, tab, line feed and carriage return surround a value.
    assert!(matches!(parse(" \t\r\n1 \n"), Some(JsonValue::Int(1))));
    // Form feed is no JSON whitespace.
    assert!(parse("\u{c}1").is_none());
    assert!(parse("[1,\u{c}2]").is_none());
}

#[test]
fn stringify_values() {
    let v = JsonValue::Array(vec![
        JsonValue::Int(-12),
        JsonValue::Null,
        JsonValue::Bool(false),
        JsonValue::Str(chars("q\"\\\u{1}\u{7f}é")),
        JsonValue::Number(chars("1.25")),
        JsonValue::Object(vec![(chars("a b"), JsonValue::Array(vec![]))]),
    ]);
    assert_eq!(
        stringify(&v),
        "[-12,null,false,\"q\\\"\\\\\\u0001\\u007fé\",1.25,{\"a b\":[]}]"
    );
    assert_eq!(stringify(&JsonValue::Int(i32::MIN)), "-2147483648");
    assert_eq!(stringify(&JsonValue::Object(vec![])), "{}");
}

#[test]
fn escape_controls() {
    let mut out = Vec::new();
    escape_json(&mut out, &chars("\u{8}\u{c}\n\r\t\u{1f}\u{80}/"));
    assert_eq!(text(&out), "\\b\\f\\n\\r\\t\\u001f\\u0080/");
}

#[test]
fn stringify_then_parse_gives_back_the_value() {
    let v = JsonValue::Object(vec![
        (chars("n"), JsonValue::Int(2147483647)),
        (chars("s"), JsonValue::Str(chars("line\nbreak \u{0} \"q\" \\"))),
        (chars("f"), JsonValue::Number(chars("-0.5e-3"))),
        (chars(""), JsonValue::Array(vec![JsonValue::Null, JsonValue::Bool(true)])),
    ]);
    let written = json_stringify(&v);
    let back = json_parse(&written).expect("written text parses");
    assert_eq!(stringify(&back), text(&written));
}

#[test]
fn parse_takes_the_whole_text() {
    assert!(matches!(parse(" [1] \n"), Some(JsonValue::Array(_))));
    assert!(parse("1 x").is_none());
    assert!(parse("{} {}").is_none());
    assert!(parse("").is_none());
    let err = match json_parse(&chars("[1,")) {
        Err(e) => e,
        Ok(_) => panic!("an unfinished array must be refused"),
    };
    assert_eq!(err, JsonParseError::UnexpectedEnd);
    assert_eq!(err.message(), "JSON.parse: unexpected end of JSON input");
}

#[test]
fn stringify_resolves_undefined() {
    assert!(json_stringify_input(&StringifyInput::Undefined).is_none());
    let arr = StringifyInput::Array(vec![StringifyInput::Int(1), StringifyInput::Undefined, StringifyInput::Null]);
    assert_eq!(text(&json_stringify_input(&arr).unwrap()), "[1,null,null]");
    let obj = StringifyInput::Object(vec![
        (chars("a"), StringifyInput::Undefined),
        (chars("b"), StringifyInput::Str(chars("x"))),
        (chars("c"), StringifyInput::Array(vec![StringifyInput::Undefined])),
        (chars("d"), StringifyInput::Undefined),
    ]);
    assert_eq!(text(&json_stringify_input(&obj).unwrap()), "{\"b\":\"x\",\"c\":[null]}");
    assert_eq!(text(&json_stringify_input(&StringifyInput::Object(vec![])).unwrap()), "{}");
    assert_eq!(text(&json_stringify_input(&StringifyInput::Number(chars("1.5"))).unwrap()), "1.5");
}
