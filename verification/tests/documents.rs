use sym_parser::{parse, parse_with_vars, Object, Parser, SymError, Value};

fn text(value: &Value) -> &str {
    value.as_str().unwrap()
}

fn strings(value: &Value) -> Vec<String> {
    value.as_array().unwrap().iter().map(|item| text(item).to_string()).collect()
}

#[test]
fn empty_object_and_array() {
    let object = parse("{}").unwrap();
    assert!(object.is_object());
    assert_eq!(object.as_object().unwrap().len(), 0);
    assert!(object.as_object().unwrap().is_empty());
    let array = parse("[]").unwrap();
    assert!(array.is_array());
    assert_eq!(array.as_array().unwrap().len(), 0);
    let spaced = parse("{ \n }").unwrap();
    assert_eq!(spaced.as_object().unwrap().len(), 0);
}

#[test]
fn line_comment_at_line_start_is_not_part_of_a_string() {
    let value = parse("{ :a first\n// note\n, :b 2\n}").unwrap();
    let object = value.as_object().unwrap();
    assert_eq!(object.get("a").unwrap().as_str(), Some("first\n"));
    assert_eq!(object.get("b").unwrap().as_int(), Some(2));
    let value = parse("{ :a first\n// note\n  second\n}").unwrap();
    assert_eq!(value.as_object().unwrap().get("a").unwrap().as_str(), Some("first\n\nsecond"));
}

#[test]
fn block_comment_at_line_start_is_not_part_of_a_string() {
    let value = parse("{ :a first\n/* note\n more */ second\n}").unwrap();
    assert_eq!(value.as_object().unwrap().get("a").unwrap().as_str(), Some("first\nsecond"));
}

#[test]
fn url_is_not_a_comment() {
    let value = parse("[ https://x\n]").unwrap();
    assert_eq!(strings(&value), vec!["https://x"]);
    let value = parse("{ :url https://example.com }").unwrap();
    assert_eq!(
        value.as_object().unwrap().get("url").unwrap().as_str(),
        Some("https://example.com")
    );
}

#[test]
fn inline_comment_after_whitespace_ends_the_line() {
    let value = parse("[ one // first\n, two \t// second\n]").unwrap();
    assert_eq!(strings(&value), vec!["one", "two"]);
    let value = parse("[ a//b ]").unwrap();
    assert_eq!(strings(&value), vec!["a//b"]);
}

#[test]
fn escaped_values_are_strings() {
    assert_eq!(parse("\\42").unwrap(), Value::String("42".to_string()));
    assert_eq!(parse("\\true").unwrap(), Value::String("true".to_string()));
    assert_eq!(parse("\\$x").unwrap(), Value::String("$x".to_string()));
    assert_eq!(parse("\\:foo").unwrap(), Value::String(":foo".to_string()));
    assert_eq!(parse("\\{a").unwrap(), Value::String("{a".to_string()));
}

#[test]
fn escapes_inside_strings() {
    assert_eq!(parse("a\\}b").unwrap(), Value::String("a}b".to_string()));
    assert_eq!(parse("a\\\\b").unwrap(), Value::String("a\\b".to_string()));
    assert_eq!(parse("a\\,b").unwrap(), Value::String("a,b".to_string()));
    assert_eq!(parse("end\\").unwrap(), Value::String("end\\".to_string()));
    assert_eq!(parse("x \\// y").unwrap(), Value::String("x // y".to_string()));
}

#[test]
fn escaped_space_keeps_leading_whitespace_of_its_line() {
    let value = parse("[ first\n   \\ second  \n, third\n]").unwrap();
    assert_eq!(strings(&value), vec!["first\n second", "third"]);
    let value = parse("[ \\   first  \n, second\n]").unwrap();
    assert_eq!(strings(&value), vec!["first", "second"]);
    let value = parse("[ x\n\\ \\ y  \n]").unwrap();
    assert_eq!(strings(&value), vec!["x\n  y"]);
    let value = parse("[ a \\  b  \n]").unwrap();
    assert_eq!(strings(&value), vec!["a   b"]);
    let value = parse("[ first\n   second  \n]").unwrap();
    assert_eq!(strings(&value), vec!["first\nsecond"]);
}

#[test]
fn carriage_returns_are_dropped() {
    let value = parse("{ :a one\r\n, :b two\r\n}\r\n").unwrap();
    let object = value.as_object().unwrap();
    assert_eq!(object.get("a").unwrap().as_str(), Some("one"));
    assert_eq!(object.get("b").unwrap().as_str(), Some("two"));
}

#[test]
fn numeric_underscores() {
    assert_eq!(parse("1_000_000").unwrap(), Value::Int(1000000));
    assert_eq!(parse("0xFF_FF").unwrap(), Value::Int(65535));
    assert_eq!(parse("0b1010_1010").unwrap(), Value::Int(170));
    assert_eq!(parse("0o7_7").unwrap(), Value::Int(63));
    assert_eq!(parse("1_0.2_5").unwrap(), Value::Float("10.25".to_string()));
}

#[test]
fn radix_prefix_without_digits_is_a_string() {
    assert_eq!(parse("0b").unwrap(), Value::String("0b".to_string()));
    assert_eq!(parse("0x").unwrap(), Value::String("0x".to_string()));
    assert_eq!(parse("0o").unwrap(), Value::String("0o".to_string()));
    assert_eq!(parse("0x_").unwrap(), Value::String("0x_".to_string()));
    assert_eq!(parse("0xZZ").unwrap(), Value::String("0xZZ".to_string()));
}

#[test]
fn number_followed_by_a_letter_is_a_string() {
    assert_eq!(parse("42abc").unwrap(), Value::String("42abc".to_string()));
    assert_eq!(parse("42_").unwrap(), Value::Int(42));
    assert_eq!(parse("1e5_").unwrap(), Value::String("1e5_".to_string()));
    assert_eq!(parse("0xFFg").unwrap(), Value::String("0xFFg".to_string()));
    assert_eq!(parse("3.14rad").unwrap(), Value::String("3.14rad".to_string()));
}

#[test]
fn integers_at_the_limits() {
    assert_eq!(parse("9223372036854775807").unwrap(), Value::Int(i64::MAX));
    assert_eq!(parse("-9223372036854775808").unwrap(), Value::Int(i64::MIN));
    assert_eq!(
        parse("9223372036854775808").unwrap(),
        Value::String("9223372036854775808".to_string())
    );
    assert_eq!(
        parse("-9223372036854775809").unwrap(),
        Value::String("-9223372036854775809".to_string())
    );
    assert_eq!(parse("0x7fffffffffffffff").unwrap(), Value::Int(i64::MAX));
    assert_eq!(
        parse("0x8000000000000000").unwrap(),
        Value::String("0x8000000000000000".to_string())
    );
    assert_eq!(parse("-0").unwrap(), Value::Int(0));
    assert_eq!(parse("007").unwrap(), Value::Int(7));
}

#[test]
fn floats_are_held_as_their_text() {
    assert_eq!(parse("3.14").unwrap(), Value::Float("3.14".to_string()));
    assert_eq!(parse("-2.5e-3").unwrap(), Value::Float("-2.5e-3".to_string()));
    assert_eq!(parse("1E+10").unwrap(), Value::Float("1E+10".to_string()));
    assert_eq!(parse("1e10").unwrap().as_float().unwrap().parse::<f64>().unwrap(), 1e10);
    assert_eq!(parse("7").unwrap().as_float(), Some("7".to_string()));
    assert_eq!(parse("-7").unwrap().as_float(), Some("-7".to_string()));
    assert_eq!(parse("seven").unwrap().as_float(), None);
    assert_eq!(
        parse("[ 1. ]").unwrap_err(),
        SymError::ParseError { line: 1, col: 4, message: "Expected ',' separator".to_string() }
    );
    assert_eq!(parse("1e").unwrap(), Value::String("1e".to_string()));
    assert_eq!(parse("1e+").unwrap(), Value::String("1e+".to_string()));
}

#[test]
fn keyword_literals() {
    assert_eq!(parse("true").unwrap(), Value::Bool(true));
    assert_eq!(parse("false").unwrap(), Value::Bool(false));
    assert_eq!(parse("null").unwrap(), Value::Null);
    assert_eq!(parse("inf").unwrap(), Value::Float("inf".to_string()));
    assert_eq!(parse("-inf").unwrap(), Value::Float("-inf".to_string()));
    assert_eq!(parse("nan").unwrap(), Value::Float("nan".to_string()));
    assert_eq!(parse("truth").unwrap(), Value::String("truth".to_string()));
    assert_eq!(parse("true-ish").unwrap(), Value::String("true-ish".to_string()));
    assert_eq!(parse("null_").unwrap(), Value::String("null_".to_string()));
    assert_eq!(parse("nan1").unwrap(), Value::String("nan1".to_string()));
    assert_eq!(parse("[ true\n, false ]").unwrap(), Value::Array(vec![Value::Bool(true), Value::Bool(false)]));
}

#[test]
fn special_floats_are_emitted_and_read_back() {
    for name in ["nan", "inf", "-inf"] {
        let value = Value::Float(name.to_string());
        let written = sym_parser::convert::to_sym_string(&value, 0);
        assert_eq!(written, name);
        assert_eq!(parse(&written).unwrap(), value);
    }
    let nan = parse("nan").unwrap().as_float().unwrap().parse::<f64>().unwrap();
    assert!(nan.is_nan());
    let inf = parse("inf").unwrap().as_float().unwrap().parse::<f64>().unwrap();
    assert_eq!(inf, f64::INFINITY);
    let neg = parse("-inf").unwrap().as_float().unwrap().parse::<f64>().unwrap();
    assert_eq!(neg, f64::NEG_INFINITY);
}

#[test]
fn object_of_name_and_age() {
    let value = parse("{ :name Alice\n, :age 28\n}").unwrap();
    let object = value.as_object().unwrap();
    assert_eq!(object.len(), 2);
    assert_eq!(object.get("name"), Some(&Value::String("Alice".to_string())));
    assert_eq!(object.get("age"), Some(&Value::Int(28)));
}

#[test]
fn array_of_three_words() {
    let value = parse("[ one\n, two\n, three\n]").unwrap();
    assert_eq!(strings(&value), vec!["one", "two", "three"]);
}

#[test]
fn poem_over_two_lines() {
    let value = parse(
        "{ :poem\n    Roses are red\n    Violets are blue\n, :author Anonymous\n}",
    )
    .unwrap();
    let object = value.as_object().unwrap();
    assert_eq!(object.len(), 2);
    assert_eq!(object.get("poem").unwrap().as_str(), Some("Roses are red\nViolets are blue"));
    assert_eq!(object.get("author").unwrap().as_str(), Some("Anonymous"));
}

#[test]
fn variable_is_replaced_in_the_data() {
    let value = parse("{ $name Alice }\n{ :greeting Hello\n, :user $name\n}").unwrap();
    let object = value.as_object().unwrap();
    assert_eq!(object.len(), 2);
    assert_eq!(object.get("greeting").unwrap().as_str(), Some("Hello"));
    assert_eq!(object.get("user").unwrap().as_str(), Some("Alice"));
}

#[test]
fn numbers_in_four_radices() {
    let value =
        parse("{ :int 42\n, :hex 0xff\n, :binary 0b1010\n, :octal 0o755\n, :float 3.14\n}")
            .unwrap();
    let object = value.as_object().unwrap();
    assert_eq!(object.get("int"), Some(&Value::Int(42)));
    assert_eq!(object.get("hex"), Some(&Value::Int(255)));
    assert_eq!(object.get("binary"), Some(&Value::Int(10)));
    assert_eq!(object.get("octal"), Some(&Value::Int(493)));
    assert_eq!(object.get("float"), Some(&Value::Float("3.14".to_string())));
}

#[test]
fn symbol_as_a_value() {
    let value = parse("{ :status :active }").unwrap();
    let object = value.as_object().unwrap();
    assert_eq!(object.get("status"), Some(&Value::Symbol("active".to_string())));
}

#[test]
fn second_definition_is_refused() {
    let error = parse("{ $name Alice }\n{ $name Bob }\n{ :x $name }").unwrap_err();
    assert_eq!(error, SymError::DuplicateVariable("name".to_string()));
    assert_eq!(
        error.to_string(),
        "Duplicate variable without override: $name (use ${0}! to override)"
    );
}

#[test]
fn append_extends_an_array() {
    let value = parse("{ :tags [ a\n, b ]\n, :tags+ [ c ]\n}").unwrap();
    let object = value.as_object().unwrap();
    assert_eq!(object.len(), 1);
    assert_eq!(strings(object.get("tags").unwrap()), vec!["a", "b", "c"]);
}

#[test]
fn comma_within_a_line_is_text() {
    let value = parse("{ :tags [ a, b ]\n, :tags+ [ c ]\n}").unwrap();
    let object = value.as_object().unwrap();
    assert_eq!(strings(object.get("tags").unwrap()), vec!["a, b", "c"]);
    let value = parse("{ :a x , :b 2 }").unwrap();
    assert_eq!(value.as_object().unwrap().get("a").unwrap().as_str(), Some("x , :b 2"));
    let value = parse("{ :a 1 , :b 2 }").unwrap();
    assert_eq!(value.as_object().unwrap().get("a"), Some(&Value::Int(1)));
    assert_eq!(value.as_object().unwrap().get("b"), Some(&Value::Int(2)));
}

#[test]
fn append_to_a_new_key_and_to_a_non_array() {
    let value = parse("{ :tags+ [ a ] }").unwrap();
    assert_eq!(strings(value.as_object().unwrap().get("tags").unwrap()), vec!["a"]);
    let error = parse("{ :tags a\n, :tags+ [ b ]\n}").unwrap_err();
    assert_eq!(error, SymError::AppendToNonArray("tags".to_string()));
    assert_eq!(error.to_string(), "Cannot append to non-array: :tags");
    let error = parse("{ :tags [ a ]\n, :tags+ b\n}").unwrap_err();
    assert_eq!(error, SymError::AppendToNonArray("tags".to_string()));
}

#[test]
fn repeated_keys_merge_and_replace() {
    let value = parse("{ :a { :x 1\n, :y 2 }\n, :a { :y 3\n, :z 4 }\n}").unwrap();
    let a = value.as_object().unwrap().get("a").unwrap().as_object().unwrap();
    assert_eq!(a.len(), 3);
    assert_eq!(a.get("x"), Some(&Value::Int(1)));
    assert_eq!(a.get("y"), Some(&Value::Int(3)));
    assert_eq!(a.get("z"), Some(&Value::Int(4)));
    let value = parse("{ :a { :x 1 }\n, :a! { :z 4 }\n}").unwrap();
    let a = value.as_object().unwrap().get("a").unwrap().as_object().unwrap();
    assert_eq!(a.len(), 1);
    assert_eq!(a.get("z"), Some(&Value::Int(4)));
    let value = parse("{ :a { :x 1 }\n, :a 5\n}").unwrap();
    assert_eq!(value.as_object().unwrap().get("a"), Some(&Value::Int(5)));
}

#[test]
fn fields_without_values_are_empty_strings() {
    let value = parse("{ :a\n, :b   \n, :c }").unwrap();
    let object = value.as_object().unwrap();
    assert_eq!(object.len(), 3);
    assert_eq!(object.get("a").unwrap().as_str(), Some(""));
    assert_eq!(object.get("b").unwrap().as_str(), Some(""));
    assert_eq!(object.get("c").unwrap().as_str(), Some(""));
}

#[test]
fn trailing_separator_is_accepted() {
    let value = parse("[ 1\n, 2\n, ]").unwrap();
    assert_eq!(value, Value::Array(vec![Value::Int(1), Value::Int(2)]));
    let value = parse("{ :a 1\n, }").unwrap();
    assert_eq!(value.as_object().unwrap().len(), 1);
}

#[test]
fn nested_arrays_and_objects() {
    let value = parse("[ [ 1\n, 2 ]\n, { :k [ ] }\n, [ ]\n]").unwrap();
    let items = value.as_array().unwrap();
    assert_eq!(items.len(), 3);
    assert_eq!(items[0], Value::Array(vec![Value::Int(1), Value::Int(2)]));
    assert_eq!(items[1].as_object().unwrap().get("k"), Some(&Value::Array(vec![])));
    assert_eq!(items[2], Value::Array(vec![]));
}

#[test]
fn syntax_errors_carry_line_and_column() {
    assert_eq!(
        parse("").unwrap_err(),
        SymError::ParseError { line: 1, col: 1, message: "Empty document".to_string() }
    );
    assert_eq!(
        parse("// only a comment\n").unwrap_err(),
        SymError::ParseError { line: 2, col: 1, message: "Empty document".to_string() }
    );
    assert_eq!(
        parse("{ :a 1").unwrap_err(),
        SymError::ParseError { line: 1, col: 7, message: "Unclosed object".to_string() }
    );
    assert_eq!(
        parse("[ 1\n").unwrap_err(),
        SymError::ParseError { line: 2, col: 1, message: "Unclosed array".to_string() }
    );
    assert_eq!(
        parse("{ :a 1\n  :b 2 }").unwrap_err(),
        SymError::ParseError { line: 2, col: 3, message: "Expected ',' separator".to_string() }
    );
    assert_eq!(
        parse("[ 1\n 2 ]").unwrap_err(),
        SymError::ParseError { line: 2, col: 2, message: "Expected ',' separator".to_string() }
    );
    assert_eq!(
        parse("{ a 1 }").unwrap_err(),
        SymError::ParseError {
            line: 1,
            col: 3,
            message: "Expected ':' or '$' at start of field".to_string()
        }
    );
    assert_eq!(
        parse("{ :1a x }").unwrap_err(),
        SymError::ParseError { line: 1, col: 4, message: "Expected identifier".to_string() }
    );
    assert_eq!(
        parse("[ $ ]").unwrap_err(),
        SymError::ParseError { line: 1, col: 4, message: "Expected identifier".to_string() }
    );
    assert_eq!(
        parse("[").unwrap_err(),
        SymError::ParseError { line: 1, col: 2, message: "Unexpected end of input".to_string() }
    );
    assert_eq!(
        parse("}").unwrap_err(),
        SymError::ParseError { line: 1, col: 1, message: "Unexpected character".to_string() }
    );
    assert_eq!(
        parse("{ :a 1 }\n]").unwrap_err(),
        SymError::ParseError { line: 2, col: 1, message: "Unexpected character".to_string() }
    );
}

#[test]
fn error_texts() {
    let error = SymError::ParseError { line: 3, col: 14, message: "Unclosed array".to_string() };
    assert_eq!(error.to_string(), "Parse error at line 3, column 14: Unclosed array");
    assert_eq!(
        SymError::UndefinedVariable("x".to_string()).to_string(),
        "Undefined variable: $x"
    );
    assert_eq!(
        SymError::DuplicateKey("k".to_string()).to_string(),
        "Duplicate key without override: :k (use :k! to override)"
    );
    assert_eq!(SymError::IoError("gone".to_string()).to_string(), "IO error: gone");
}

#[test]
fn undefined_variable() {
    let error = parse("{ :x $missing }").unwrap_err();
    assert_eq!(error, SymError::UndefinedVariable("missing".to_string()));
    let error = parse("{ $a 1 }\n[ $a\n, $b\n, $c ]").unwrap_err();
    assert_eq!(error, SymError::UndefinedVariable("b".to_string()));
}

#[test]
fn variables_are_copied_into_every_reference() {
    let value = parse("{ $list [ 1\n, 2 ]\n, $who me }\n{ :a $list\n, :b [ $list\n, $who ]\n}").unwrap();
    let object = value.as_object().unwrap();
    let list = Value::Array(vec![Value::Int(1), Value::Int(2)]);
    assert_eq!(object.get("a"), Some(&list));
    assert_eq!(
        object.get("b"),
        Some(&Value::Array(vec![list.deep_copy(), Value::String("me".to_string())]))
    );
}

#[test]
fn override_redefines_a_variable() {
    let value = parse("{ $name Alice }\n{ $name! Bob }\n{ :x $name }").unwrap();
    assert_eq!(value.as_object().unwrap().get("x").unwrap().as_str(), Some("Bob"));
    let value = parse("{ $name! Carol }\n$name").unwrap();
    assert_eq!(value.as_str(), Some("Carol"));
}

#[test]
fn last_block_is_data_even_if_it_defines() {
    let value = parse("{ $a 1 }").unwrap();
    let object = value.as_object().unwrap();
    assert_eq!(object.get("$a"), Some(&Value::Int(1)));
    let value = parse("{ $a! 1 }").unwrap();
    assert_eq!(value.as_object().unwrap().get("$a!"), Some(&Value::Int(1)));
}

#[test]
fn blocks_that_define_nothing_are_passed_over() {
    let value = parse("{ :a 1 }\n[ 2 ]\nthree").unwrap();
    assert_eq!(value.as_str(), Some("three"));
    let value = parse("{ $a 1\n, :b 2 }\n{ :x 3 }").unwrap();
    assert_eq!(value.as_object().unwrap().get("x"), Some(&Value::Int(3)));
    let error = parse("{ $a 1\n, :b 2 }\n{ :x $a }").unwrap_err();
    assert_eq!(error, SymError::UndefinedVariable("a".to_string()));
}

#[test]
fn reference_in_a_definition_is_taken_literally() {
    let value = parse("{ $b 1 }\n{ $a $b }\n{ :x $a }").unwrap();
    assert_eq!(value.as_object().unwrap().get("x").unwrap().as_str(), Some("$b"));
}

#[test]
fn parse_with_seeded_variables() {
    let mut vars = Object::new();
    vars.insert("host".to_string(), Value::String("example.org".to_string()));
    vars.insert("size".to_string(), Value::Int(8080));
    let value = parse_with_vars("{ :host $host\n, :size $size\n}", vars).unwrap();
    let object = value.as_object().unwrap();
    assert_eq!(object.get("host").unwrap().as_str(), Some("example.org"));
    assert_eq!(object.get("size"), Some(&Value::Int(8080)));

    let mut vars = Object::new();
    vars.insert("host".to_string(), Value::Null);
    let error = parse_with_vars("{ $host other }\n$host", vars).unwrap_err();
    assert_eq!(error, SymError::DuplicateVariable("host".to_string()));
}

#[test]
fn imports_are_collected_in_order() {
    let mut parser = Parser::new("@import  base.sym  \n// note\n@import other/file.sym\n{ :a 1 }");
    let value = parser.parse().unwrap();
    assert_eq!(value.as_object().unwrap().get("a"), Some(&Value::Int(1)));
    assert_eq!(parser.imports(), &vec!["base.sym".to_string(), "other/file.sym".to_string()]);
    assert_eq!(
        parser.parse().unwrap_err(),
        SymError::ParseError { line: 4, col: 9, message: "Empty document".to_string() }
    );
}

#[test]
fn failed_parse_leaves_the_parser_as_it_was() {
    let mut parser = Parser::new("@import a\n{ $v 1 }\n{ :x $w }");
    assert_eq!(parser.parse().unwrap_err(), SymError::UndefinedVariable("w".to_string()));
    assert!(parser.imports().is_empty());
    assert!(parser.variables().is_empty());
    assert_eq!(parser.parse().unwrap_err(), SymError::UndefinedVariable("w".to_string()));
}

#[test]
fn successful_parse_keeps_the_definitions() {
    let mut parser = Parser::new("{ $v 1 }\n{ :x $v }");
    parser.parse().unwrap();
    assert_eq!(parser.variables().get("v"), Some(&Value::Int(1)));
}

#[test]
fn whitespace_is_what_the_standard_library_says() {
    let mut code: u32 = 0;
    while code <= 0x10ffff {
        if let Some(c) = char::from_u32(code) {
            assert_eq!(sym_parser::text::whitespace(c), c.is_whitespace(), "U+{:04X}", code);
            assert_eq!(sym_parser::text::control(c), c.is_control(), "U+{:04X}", code);
        }
        code += 1;
    }
}

#[test]
fn unicode_whitespace_separates_tokens() {
    let value = parse("[\u{a0}1\u{2003}\n,\u{3000}2 ]").unwrap();
    assert_eq!(value, Value::Array(vec![Value::Int(1), Value::Int(2)]));
}

#[test]
fn unclosed_block_comment_ends_with_the_input() {
    let value = parse("{ :a 1 } /* never closed").unwrap();
    assert_eq!(value.as_object().unwrap().get("a"), Some(&Value::Int(1)));
    let value = parse("/* a /* b */ 7").unwrap();
    assert_eq!(value, Value::Int(7));
}

#[test]
fn deep_merge_of_values() {
    let mut base = parse("{ :a { :x 1\n, :y 2 }\n, :b keep }").unwrap();
    let overlay = parse("{ :a { :y 3\n, :z 4 }\n, :c new }").unwrap();
    base.deep_merge(overlay);
    let expected = parse("{ :a { :x 1\n, :y 3\n, :z 4 }\n, :b keep\n, :c new }").unwrap();
    assert_eq!(base, expected);

    let mut scalar = Value::Int(1);
    scalar.deep_merge(Value::String("two".to_string()));
    assert_eq!(scalar, Value::String("two".to_string()));

    let mut object = parse("{ :a 1 }").unwrap();
    object.deep_merge(Value::Array(vec![]));
    assert_eq!(object, Value::Array(vec![]));
}

#[test]
fn value_predicates_and_accessors() {
    assert!(Value::Null.is_null());
    assert!(Value::Bool(true).is_bool());
    assert!(Value::Int(1).is_int());
    assert!(Value::Float("1.5".to_string()).is_float());
    assert!(Value::String("s".to_string()).is_string());
    assert!(Value::Symbol("s".to_string()).is_symbol());
    assert!(Value::Array(vec![]).is_array());
    assert!(Value::Object(Object::new()).is_object());
    assert!(!Value::Int(1).is_float());
    assert_eq!(Value::Bool(true).as_bool(), Some(true));
    assert_eq!(Value::Int(5).as_bool(), None);
    assert_eq!(Value::Int(5).as_int(), Some(5));
    assert_eq!(Value::Symbol("s".to_string()).as_str(), None);
    assert_eq!(Value::Symbol("s".to_string()).as_symbol(), Some("s"));
    assert_eq!(Value::Null.as_array(), None);
    assert!(Value::Null.as_object().is_none());
}

#[test]
fn one_line_text_of_values() {
    let value = parse("{ :a [ 1\n, two\n, :three ]\n, :b { :c null\n, :d 1.5 }\n, :e true }").unwrap();
    assert_eq!(value.to_string(), "{:a [1, two, :three], :b {:c null, :d 1.5}, :e true}");
    assert_eq!(Value::Array(vec![]).to_string(), "[]");
    assert_eq!(Value::Object(Object::new()).to_string(), "{}");
    assert_eq!(Value::Int(-12).to_string(), "-12");
    assert_eq!(Value::Int(i64::MIN).to_string(), "-9223372036854775808");
    assert_eq!(Value::Float("nan".to_string()).to_string(), "nan");
}
