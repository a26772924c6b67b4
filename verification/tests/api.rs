use sym_parser::cursor::{
    error_at, skip_block_comment, skip_horizontal_whitespace, skip_line_comment, skip_whitespace,
    skip_whitespace_and_comments,
};
use sym_parser::document::{parse_import, substitute_variables};
use sym_parser::scalar::{parse_identifier, parse_string_content};
use sym_parser::structure::{apply_field, parse_field, parse_key_modifier, parse_value};
use sym_parser::text::{chars_of, string_of, trimmed_bounds};
use sym_parser::{Entry, KeyModifier, Object, SymError, Value};

fn chars(text: &str) -> Vec<char> {
    text.chars().collect()
}

#[test]
fn objects_keep_each_key_once_in_order() {
    let mut object = Object::new();
    assert!(object.is_empty());
    object.insert("b".to_string(), Value::Int(1));
    object.insert("a".to_string(), Value::Int(2));
    object.insert("b".to_string(), Value::Int(3));
    assert_eq!(object.len(), 2);
    assert_eq!(object.find("b"), Some(0));
    assert_eq!(object.find("a"), Some(1));
    assert_eq!(object.find("c"), None);
    assert!(object.contains_key("a"));
    assert!(!object.contains_key("c"));
    assert_eq!(object.get("b"), Some(&Value::Int(3)));
    assert_eq!(object.get("c"), None);
    assert_eq!(object.entry(0).key(), "b");
    assert_eq!(object.entry(1).value(), &Value::Int(2));
    let copy = object.clone();
    assert_eq!(copy, object);
    let entry = Entry::new("k".to_string(), Value::Null);
    assert_eq!(entry.clone(), entry);
}

#[test]
fn merging_an_entry_and_extending_an_array() {
    let mut object = Object::new();
    object.merge_entry("list".to_string(), Value::Array(vec![Value::Int(1)]));
    object.extend_array(0, vec![Value::Int(2), Value::Int(3)]);
    assert_eq!(
        object.get("list"),
        Some(&Value::Array(vec![Value::Int(1), Value::Int(2), Value::Int(3)]))
    );
    let mut inner = Object::new();
    inner.insert("x".to_string(), Value::Int(1));
    object.merge_entry("o".to_string(), Value::Object(inner));
    let mut more = Object::new();
    more.insert("y".to_string(), Value::Int(2));
    object.merge_entry("o".to_string(), Value::Object(more));
    let merged = object.get("o").unwrap().as_object().unwrap();
    assert_eq!(merged.get("x"), Some(&Value::Int(1)));
    assert_eq!(merged.get("y"), Some(&Value::Int(2)));
    let mut other = Object::new();
    other.insert("list".to_string(), Value::Null);
    object.merge_from(other);
    assert_eq!(object.get("list"), Some(&Value::Null));
    assert_eq!(object.len(), 2);
}

#[test]
fn fields_are_applied_by_their_modifier() {
    let mut object = Object::new();
    let array = |items: &[i64]| Value::Array(items.iter().map(|i| Value::Int(*i)).collect());
    assert_eq!(apply_field(&mut object, "a".to_string(), KeyModifier::Merge, array(&[1])), Ok(()));
    assert_eq!(apply_field(&mut object, "a".to_string(), KeyModifier::Append, array(&[2])), Ok(()));
    assert_eq!(object.get("a"), Some(&array(&[1, 2])));
    assert_eq!(
        apply_field(&mut object, "a".to_string(), KeyModifier::Append, Value::Int(3)),
        Err(SymError::AppendToNonArray("a".to_string()))
    );
    assert_eq!(object.get("a"), Some(&array(&[1, 2])));
    assert_eq!(apply_field(&mut object, "a".to_string(), KeyModifier::Replace, Value::Int(3)), Ok(()));
    assert_eq!(object.get("a"), Some(&Value::Int(3)));
    assert_eq!(apply_field(&mut object, "a".to_string(), KeyModifier::Merge, Value::Int(4)), Ok(()));
    assert_eq!(object.get("a"), Some(&Value::Int(4)));
    assert_eq!(object.len(), 1);
}

#[test]
fn values_are_cloned_deeply() {
    let value = sym_parser::parse("{ :a [ 1\n, { :b x } ]\n, :c :sym }").unwrap();
    let copy = value.clone();
    assert_eq!(copy, value);
    assert_eq!(value.deep_copy(), value);
}

#[test]
fn trivia_is_skipped() {
    let input = chars("  \t\n x // c\n/* b */ y");
    assert_eq!(skip_horizontal_whitespace(&input, 0), 3);
    assert_eq!(skip_whitespace(&input, 0), 5);
    assert_eq!(skip_whitespace_and_comments(&input, 0), 5);
    assert_eq!(skip_line_comment(&input, 7), 11);
    assert_eq!(skip_block_comment(&input, 12), 19);
    assert_eq!(skip_whitespace_and_comments(&input, 6), 20);
    let open = chars("/* *");
    assert_eq!(skip_block_comment(&open, 0), 4);
    let star = chars("/***/x");
    assert_eq!(skip_block_comment(&star, 0), 5);
}

#[test]
fn errors_are_placed_by_line_and_column() {
    let input = chars("ab\ncd\n\nefg");
    let at = |offset: usize| match error_at(&input, offset, "m") {
        SymError::ParseError { line, col, .. } => (line, col),
        _ => unreachable!(),
    };
    assert_eq!(at(0), (1, 1));
    assert_eq!(at(2), (1, 3));
    assert_eq!(at(3), (2, 1));
    assert_eq!(at(6), (3, 1));
    assert_eq!(at(7), (4, 1));
    assert_eq!(at(10), (4, 4));
    let wide = chars("\u{e9}\u{4e2d}x");
    match error_at(&wide, 2, "m") {
        SymError::ParseError { line, col, message } => {
            assert_eq!((line, col), (1, 3));
            assert_eq!(message, "m");
        }
        _ => unreachable!(),
    }
}

#[test]
fn pieces_of_the_grammar() {
    let input = chars("name-1_x! rest");
    assert_eq!(parse_identifier(&input, 0), Ok(("name-1_x".to_string(), 8)));
    assert_eq!(parse_key_modifier(&input, 8), (KeyModifier::Replace, 9));
    assert_eq!(parse_key_modifier(&input, 0), (KeyModifier::Merge, 0));
    let plus = chars("+");
    assert_eq!(parse_key_modifier(&plus, 0), (KeyModifier::Append, 1));
    let field = chars(":key+ [ 1 ]");
    assert_eq!(
        parse_field(&field, 0),
        Ok(("key".to_string(), KeyModifier::Append, Value::Array(vec![Value::Int(1)]), 11))
    );
    let definition = chars("$name! Bob\n}");
    assert_eq!(
        parse_field(&definition, 0),
        Ok(("$name!".to_string(), KeyModifier::Replace, Value::String("Bob".to_string()), 11))
    );
    let value = chars("  /* c */ :sym rest");
    assert_eq!(parse_value(&value, 0), Ok((Value::Symbol("sym".to_string()), 14)));
    let text = chars("two words \n  , next");
    assert_eq!(parse_string_content(&text, 0), ("two words".to_string(), 13));
    let import = chars("@import   a/b.sym  \nrest");
    assert_eq!(parse_import(&import, 0), ("a/b.sym".to_string(), 19));
}

#[test]
fn references_are_replaced_from_a_scope() {
    let mut scope = Object::new();
    scope.insert("a".to_string(), Value::Int(1));
    let tree = Value::Array(vec![Value::Ref("a".to_string()), Value::String("$a".to_string())]);
    assert_eq!(
        substitute_variables(tree, &scope),
        Ok(Value::Array(vec![Value::Int(1), Value::String("$a".to_string())]))
    );
    assert_eq!(
        substitute_variables(Value::Ref("b".to_string()), &scope),
        Err(SymError::UndefinedVariable("b".to_string()))
    );
}

#[test]
fn characters_and_trimming() {
    let text = chars_of("  h\u{e9}llo \u{3000}");
    assert_eq!(text.len(), 9);
    assert_eq!(string_of(&text, 2, 7), "h\u{e9}llo");
    assert_eq!(trimmed_bounds(&text, 0, text.len(), false), (2, 7));
    assert_eq!(trimmed_bounds(&text, 0, text.len(), true), (0, 7));
    let blank = chars_of(" \t ");
    assert_eq!(trimmed_bounds(&blank, 0, 3, false), (3, 3));
    assert_eq!(trimmed_bounds(&blank, 0, 3, true), (0, 0));
}
