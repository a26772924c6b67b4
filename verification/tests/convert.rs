use sym_parser::convert::{
    escape_sym_string, from_json, from_toml, from_yaml, parse_json, parse_toml, parse_yaml, Foreign,
};
use sym_parser::Value;

#[test]
fn test_json_to_sym() {
    let json = r#"{"name": "Alice", "age": 30}"#;
    let value = parse_json(json).unwrap();
    assert!(value.is_object());
}

#[test]
fn test_yaml_to_sym() {
    let yaml = "name: Alice\nage: 30";
    let value = parse_yaml(yaml).unwrap();
    assert!(value.is_object());
}

#[test]
fn test_toml_to_sym() {
    let toml = "name = \"Alice\"\nage = 30";
    let value = parse_toml(toml).unwrap();
    assert!(value.is_object());
}

#[test]
fn test_escape_number_string() {
    assert_eq!(escape_sym_string("42"), "\\42");
    assert_eq!(escape_sym_string("hello"), "hello");
    assert_eq!(escape_sym_string(":foo"), "\\:foo");
}

fn field<'a>(value: &'a Value, key: &str) -> &'a Value {
    value.as_object().unwrap().get(key).unwrap()
}

#[test]
fn json_values_map_one_to_one() {
    let value = parse_json(
        r#"{"s": "text", "i": -7, "big": 18446744073709551615, "f": 2.5, "b": true, "n": null, "a": [1, "two", [3]], "o": {"k": "v"}}"#,
    )
    .unwrap();
    assert_eq!(field(&value, "s").as_str(), Some("text"));
    assert_eq!(field(&value, "i").as_int(), Some(-7));
    assert!(field(&value, "big").is_float());
    assert_eq!(
        field(&value, "big").as_float().unwrap().parse::<f64>().unwrap(),
        18446744073709551615.0
    );
    assert_eq!(field(&value, "f").as_float().unwrap().parse::<f64>().unwrap(), 2.5);
    assert_eq!(field(&value, "b").as_bool(), Some(true));
    assert!(field(&value, "n").is_null());
    let items = field(&value, "a").as_array().unwrap();
    assert_eq!(items.len(), 3);
    assert_eq!(items[0].as_int(), Some(1));
    assert_eq!(items[1].as_str(), Some("two"));
    assert_eq!(items[2].as_array().unwrap()[0].as_int(), Some(3));
    assert_eq!(field(field(&value, "o"), "k").as_str(), Some("v"));
}

#[test]
fn json_error_is_reported_with_its_format() {
    let error = parse_json("{\"a\": ").unwrap_err();
    assert!(error.starts_with("JSON parse error: "), "{}", error);
    assert!(error.len() > "JSON parse error: ".len());
}

#[test]
fn yaml_values_and_keys() {
    let value = parse_yaml(
        "name: Alice\n7: seven\ntrue: yes\n? [1, 2]\n: dropped\nnot: .nan\nup: .inf\ndown: -.inf\nhalf: 0.5\ntagged: !thing 12\nlist:\n  - a\n  - 2\n",
    )
    .unwrap();
    let object = value.as_object().unwrap();
    assert_eq!(object.len(), 9);
    assert_eq!(field(&value, "name").as_str(), Some("Alice"));
    assert_eq!(field(&value, "7").as_str(), Some("seven"));
    assert_eq!(field(&value, "true").as_str(), Some("yes"));
    assert_eq!(field(&value, "not").as_float(), Some("nan".to_string()));
    assert_eq!(field(&value, "up").as_float(), Some("inf".to_string()));
    assert_eq!(field(&value, "down").as_float(), Some("-inf".to_string()));
    assert_eq!(field(&value, "half").as_float().unwrap().parse::<f64>().unwrap(), 0.5);
    assert_eq!(field(&value, "tagged").as_int(), Some(12));
    let items = field(&value, "list").as_array().unwrap();
    assert_eq!(items[0].as_str(), Some("a"));
    assert_eq!(items[1].as_int(), Some(2));
}

#[test]
fn yaml_error_is_reported_with_its_format() {
    let error = parse_yaml("a: [1, 2").unwrap_err();
    assert!(error.starts_with("YAML parse error: "), "{}", error);
}

#[test]
fn toml_values_and_datetimes() {
    let value = parse_toml(
        "title = \"Doc\"\ncount = 3\nratio = 0.25\non = true\nwhen = 1979-05-27T07:32:00Z\nlist = [1, 2]\n\n[owner]\nname = \"Lisa\"\n",
    )
    .unwrap();
    assert_eq!(field(&value, "title").as_str(), Some("Doc"));
    assert_eq!(field(&value, "count").as_int(), Some(3));
    assert_eq!(field(&value, "ratio").as_float().unwrap().parse::<f64>().unwrap(), 0.25);
    assert_eq!(field(&value, "on").as_bool(), Some(true));
    assert_eq!(field(&value, "when").as_str(), Some("1979-05-27T07:32:00Z"));
    assert_eq!(field(&value, "list").as_array().unwrap().len(), 2);
    assert_eq!(field(field(&value, "owner"), "name").as_str(), Some("Lisa"));
}

#[test]
fn toml_error_is_reported_with_its_format() {
    let error = parse_toml("a = ").unwrap_err();
    assert!(error.starts_with("TOML parse error: "), "{}", error);
}

#[test]
fn foreign_trees_become_values() {
    let tree = Foreign::Mapping(vec![
        (Foreign::Text("a".to_string()), Foreign::Number(Some(1), true, "1".to_string())),
        (Foreign::Number(Some(2), true, "2".to_string()), Foreign::Bool(false)),
        (Foreign::Bool(true), Foreign::Null),
        (Foreign::Null, Foreign::Text("dropped".to_string())),
        (Foreign::Sequence(vec![]), Foreign::Text("dropped".to_string())),
        (Foreign::Text("a".to_string()), Foreign::Number(None, true, "1.5".to_string())),
        (Foreign::Text("t".to_string()), Foreign::Tagged(Box::new(Foreign::Text("in".to_string())))),
        (Foreign::Text("d".to_string()), Foreign::Datetime("1979-05-27".to_string())),
        (Foreign::Text("n".to_string()), Foreign::Number(None, false, "1e999".to_string())),
        (
            Foreign::Text("s".to_string()),
            Foreign::Sequence(vec![Foreign::Number(None, true, ".inf".to_string())]),
        ),
    ]);
    let value = from_yaml(&tree);
    let object = value.as_object().unwrap();
    assert_eq!(object.len(), 7);
    assert_eq!(object.get("a"), Some(&Value::Float("1.5".to_string())));
    assert_eq!(object.get("2"), Some(&Value::Bool(false)));
    assert_eq!(object.get("true"), Some(&Value::Null));
    assert_eq!(object.get("t"), Some(&Value::String("in".to_string())));
    assert_eq!(object.get("d"), Some(&Value::String("1979-05-27".to_string())));
    assert_eq!(object.get("n"), Some(&Value::String("1e999".to_string())));
    assert_eq!(object.get("s"), Some(&Value::Array(vec![Value::Float("inf".to_string())])));
    assert_eq!(from_json(&tree), value);
    assert_eq!(from_toml(&tree), value);
}
