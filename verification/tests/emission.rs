use sym_parser::convert::{
    escape_json_string, escape_key, escape_sym_string, looks_like_number, to_json_string,
    to_sym_string,
};
use sym_parser::number::{extract_number_str, try_parse_number};
use sym_parser::{parse, Object, Value};

#[test]
fn strings_that_would_be_misread_are_escaped() {
    assert_eq!(escape_sym_string("$x"), "\\$x");
    assert_eq!(escape_sym_string("{a"), "\\{a");
    assert_eq!(escape_sym_string("[a"), "\\[a");
    assert_eq!(escape_sym_string("\\a"), "\\\\a");
    assert_eq!(escape_sym_string("true"), "\\true");
    assert_eq!(escape_sym_string("false"), "\\false");
    assert_eq!(escape_sym_string("null"), "\\null");
    assert_eq!(escape_sym_string("inf"), "\\inf");
    assert_eq!(escape_sym_string("-inf"), "\\-inf");
    assert_eq!(escape_sym_string("nan"), "\\nan");
    assert_eq!(escape_sym_string("0x10"), "\\0x10");
    assert_eq!(escape_sym_string("-1.5e3"), "\\-1.5e3");
    assert_eq!(escape_sym_string(""), "");
    assert_eq!(escape_sym_string("truth"), "truth");
    assert_eq!(escape_sym_string("a:b"), "a:b");
    assert_eq!(escape_sym_string("two\nlines"), "two\nlines");
}

#[test]
fn what_looks_like_a_number() {
    assert!(looks_like_number("42"));
    assert!(looks_like_number("  42  "));
    assert!(looks_like_number("-17"));
    assert!(looks_like_number("3.14"));
    assert!(looks_like_number("1e10"));
    assert!(looks_like_number("1_000"));
    assert!(looks_like_number("0x"));
    assert!(looks_like_number("0Xff"));
    assert!(looks_like_number("0b2"));
    assert!(looks_like_number("0O7"));
    assert!(looks_like_number("1-2+3"));
    assert!(!looks_like_number(""));
    assert!(!looks_like_number("   "));
    assert!(!looks_like_number("-"));
    assert!(!looks_like_number("abc"));
    assert!(!looks_like_number("12a"));
    assert!(!looks_like_number(".5"));
    assert!(!looks_like_number("1 2"));
}

#[test]
fn keys_are_made_identifiers() {
    assert_eq!(escape_key("name"), "name");
    assert_eq!(escape_key("first name"), "first-name");
    assert_eq!(escape_key("9lives"), "_9lives");
    assert_eq!(escape_key("a.b/c"), "abc");
    assert_eq!(escape_key("  x  y"), "x--y");
    assert_eq!(escape_key("_under-score_"), "_under-score_");
    assert_eq!(escape_key("$var!"), "var");
    assert_eq!(escape_key(""), "_");
    assert_eq!(escape_key("!?"), "_");
    assert_eq!(escape_key("-dash"), "dash");
}

#[test]
fn json_strings_are_escaped() {
    assert_eq!(escape_json_string("plain"), "plain");
    assert_eq!(escape_json_string("say \"hi\""), "say \\\"hi\\\"");
    assert_eq!(escape_json_string("back\\slash"), "back\\\\slash");
    assert_eq!(escape_json_string("a\nb\rc\td"), "a\\nb\\rc\\td");
    assert_eq!(escape_json_string("\u{0}\u{1f}\u{7f}\u{9f}"), "\\u0000\\u001f\\u007f\\u009f");
    assert_eq!(escape_json_string("\u{a0}\u{e9}"), "\u{a0}\u{e9}");
}

#[test]
fn scalars_in_the_notation() {
    assert_eq!(to_sym_string(&Value::Null, 0), "null");
    assert_eq!(to_sym_string(&Value::Bool(true), 0), "true");
    assert_eq!(to_sym_string(&Value::Bool(false), 3), "false");
    assert_eq!(to_sym_string(&Value::Int(-42), 0), "-42");
    assert_eq!(to_sym_string(&Value::Int(0), 0), "0");
    assert_eq!(to_sym_string(&Value::Float("3.14".to_string()), 0), "3.14");
    assert_eq!(to_sym_string(&Value::String("hello".to_string()), 0), "hello");
    assert_eq!(to_sym_string(&Value::String("42".to_string()), 0), "\\42");
    assert_eq!(to_sym_string(&Value::Symbol("active".to_string()), 0), ":active");
    assert_eq!(to_sym_string(&Value::Ref("name".to_string()), 0), "$name");
    assert_eq!(to_sym_string(&Value::Array(vec![]), 2), "[]");
    assert_eq!(to_sym_string(&Value::Object(Object::new()), 2), "{}");
}

#[test]
fn containers_in_the_notation() {
    let value = parse("{ :name Alice\n, :tags [ a\n, b ]\n, :inner { :n 1 }\n}").unwrap();
    assert_eq!(
        to_sym_string(&value, 0),
        "{ :name Alice\n  , :tags [ a\n    , b\n  ]\n  , :inner { :n 1\n  }\n}"
    );
    let array = Value::Array(vec![Value::Int(1), Value::Int(2), Value::Int(3)]);
    assert_eq!(to_sym_string(&array, 0), "[ 1\n  , 2\n  , 3\n]");
    assert_eq!(to_sym_string(&array, 1), "[ 1\n    , 2\n    , 3\n  ]");
}

#[test]
fn written_values_are_read_back() {
    let inputs = [
        "{ :name Alice\n, :age 28\n}",
        "[ one\n, two\n, three\n]",
        "{ :poem\n    Roses are red\n    Violets are blue\n, :author Anonymous\n}",
        "{ :int 42\n, :hex 0xff\n, :binary 0b1010\n, :octal 0o755\n, :float 3.14\n}",
        "{ :status :active }",
        "{ :url https://example.com }",
        "{ :a [ [ 1\n, [ ] ]\n, { :b { :c [ x\n, \\42\n, \\true\n, null\n, nan ] } } ]\n, :d { }\n}",
        "{ :price \\$99.99\n, :num \\42\n, :colon \\:foo\n}",
        "[ inf\n, -inf\n, -2.5e-3\n, false ]",
    ];
    for input in inputs {
        let first = parse(input).unwrap();
        let written = to_sym_string(&first, 0);
        let second = parse(&written).unwrap();
        assert_eq!(second, first, "{}", written);
    }
}

#[test]
fn values_as_json() {
    let value = parse(
        "{ :name Alice\n, :tags [ a\n, :b\n, 2 ]\n, :none null\n, :bad nan\n, :pi 3.14\n, :e { }\n, :l [ ]\n}",
    )
    .unwrap();
    assert_eq!(
        to_json_string(&value, 0),
        "{\n  \"name\": \"Alice\",\n  \"tags\": [\n    \"a\",\n    \":b\",\n    2\n  ],\n  \"none\": null,\n  \"bad\": null,\n  \"pi\": 3.14,\n  \"e\": {},\n  \"l\": []\n}"
    );
    assert_eq!(to_json_string(&Value::String("a\"b".to_string()), 0), "\"a\\\"b\"");
    assert_eq!(to_json_string(&Value::Float("inf".to_string()), 0), "null");
    assert_eq!(to_json_string(&Value::Float("-inf".to_string()), 0), "null");
    assert_eq!(to_json_string(&Value::Bool(false), 0), "false");
    assert_eq!(to_json_string(&Value::Int(-3), 0), "-3");
    assert_eq!(to_json_string(&Value::Ref("v".to_string()), 0), "\"$v\"");
    assert_eq!(
        to_json_string(&Value::Array(vec![Value::Int(1)]), 1),
        "[\n    1\n  ]"
    );
}

#[test]
fn numbers_at_the_start_of_a_text() {
    assert_eq!(try_parse_number("42"), Some(Value::Int(42)));
    assert_eq!(try_parse_number("  42 rest"), Some(Value::Int(42)));
    assert_eq!(try_parse_number("-17,"), Some(Value::Int(-17)));
    assert_eq!(try_parse_number("0xff"), Some(Value::Int(255)));
    assert_eq!(try_parse_number("0B101"), Some(Value::Int(5)));
    assert_eq!(try_parse_number("0o17"), Some(Value::Int(15)));
    assert_eq!(try_parse_number("1_000.5_0e+3"), Some(Value::Float("1000.50e+3".to_string())));
    assert_eq!(try_parse_number("1.5.2"), Some(Value::Float("1.5".to_string())));
    assert_eq!(try_parse_number("abc"), None);
    assert_eq!(try_parse_number("-"), None);
    assert_eq!(try_parse_number("_1"), None);
    assert_eq!(try_parse_number("12ab"), None);
    assert_eq!(try_parse_number("1e"), None);
    assert_eq!(try_parse_number(""), None);
    assert_eq!(extract_number_str("42"), "42");
    assert_eq!(extract_number_str("  -17 rest"), "-17");
    assert_eq!(extract_number_str("0xFF_FF then"), "0xFF_FF");
    assert_eq!(extract_number_str("1_000.5e3,"), "1_000.5e3");
    assert_eq!(extract_number_str("1.x"), "1");
    assert_eq!(extract_number_str("abc"), "");
    assert_eq!(extract_number_str("12ab"), "");
}

#[test]
fn strings_that_are_not_plain_may_not_be_read_back() {
    let first = parse("x \\// y").unwrap();
    assert_eq!(first, Value::String("x // y".to_string()));
    let written = to_sym_string(&first, 0);
    assert_eq!(written, "x // y");
    assert_eq!(parse(&written).unwrap(), Value::String("x".to_string()));

    let first = parse("\\12 apples").unwrap();
    assert_eq!(first, Value::String("12 apples".to_string()));
    let written = to_sym_string(&first, 0);
    assert_eq!(written, "12 apples");
    assert_ne!(parse(&written).unwrap(), first);

    let first = parse("[ \\ ]").unwrap();
    assert_eq!(first, Value::Array(vec![Value::String("".to_string())]));
    assert_eq!(parse(&to_sym_string(&first, 0)).unwrap(), Value::Array(vec![]));
}

#[test]
fn plain_strings_over_several_lines_are_read_back() {
    let first = parse("{ :poem\n  Roses are red,\n  Violets are blue\n, :deep [ { :text one\n two\n  three } ]\n}").unwrap();
    let poem = first.as_object().unwrap().get("poem").unwrap();
    assert_eq!(poem.as_str(), Some("Roses are red,\nViolets are blue"));
    let written = to_sym_string(&first, 0);
    assert_eq!(
        written,
        "{ :poem Roses are red,\nViolets are blue\n  , :deep [ { :text one\ntwo\nthree\n    }\n  ]\n}"
    );
    assert_eq!(parse(&written).unwrap(), first);
}
