use sym_parser::parse;

#[test]
fn test_simple_object() {
    let input = r#"{ :name Alice
, :age 28
}"#;
    let result = parse(input).unwrap();
    assert!(result.is_object());
    let obj = result.as_object().unwrap();
    assert_eq!(obj.get("name").unwrap().as_str(), Some("Alice"));
    assert_eq!(obj.get("age").unwrap().as_int(), Some(28));
}

#[test]
fn test_array() {
    let input = r#"[ one
, two
, three
]"#;
    let result = parse(input).unwrap();
    assert!(result.is_array());
    let arr = result.as_array().unwrap();
    assert_eq!(arr.len(), 3);
    assert_eq!(arr[0].as_str(), Some("one"));
}

#[test]
fn test_symbols() {
    let input = r#"{ :status :active
, :level :info
}"#;
    let result = parse(input).unwrap();
    let obj = result.as_object().unwrap();
    assert_eq!(obj.get("status").unwrap().as_symbol(), Some("active"));
    assert_eq!(obj.get("level").unwrap().as_symbol(), Some("info"));
}

#[test]
fn test_variables() {
    let input = r#"{ $name Alice }
{ :greeting Hello
, :user $name
}"#;
    let result = parse(input).unwrap();
    let obj = result.as_object().unwrap();
    assert_eq!(obj.get("user").unwrap().as_str(), Some("Alice"));
}

#[test]
fn test_numbers() {
    let input = r#"{ :int 42
, :negative -17
, :hex 0xff
, :binary 0b1010
, :octal 0o755
, :float 3.14
, :scientific 1e10
}"#;
    let result = parse(input).unwrap();
    let obj = result.as_object().unwrap();
    assert_eq!(obj.get("int").unwrap().as_int(), Some(42));
    assert_eq!(obj.get("negative").unwrap().as_int(), Some(-17));
    assert_eq!(obj.get("hex").unwrap().as_int(), Some(255));
    assert_eq!(obj.get("binary").unwrap().as_int(), Some(10));
    assert_eq!(obj.get("octal").unwrap().as_int(), Some(493));
    let float = obj.get("float").unwrap().as_float().map(|text| text.parse::<f64>().unwrap());
    assert_eq!(float, Some(3.14));
}

#[test]
fn test_multiline_string() {
    let input = r#"{ :poem
    Roses are red
    Violets are blue
, :author Anonymous
}"#;
    let result = parse(input).unwrap();
    let obj = result.as_object().unwrap();
    let poem = obj.get("poem").unwrap().as_str().unwrap();
    assert!(poem.contains("Roses are red"));
    assert!(poem.contains("Violets are blue"));
}

#[test]
fn test_inline_comma() {
    let input = r#"{ :greeting Hello, world
}"#;
    let result = parse(input).unwrap();
    let obj = result.as_object().unwrap();
    assert_eq!(obj.get("greeting").unwrap().as_str(), Some("Hello, world"));
}

#[test]
fn test_nested_object() {
    let input = r#"{ :server
  { :host localhost
  , :port 8080
  }
}"#;
    let result = parse(input).unwrap();
    let obj = result.as_object().unwrap();
    let server = obj.get("server").unwrap().as_object().unwrap();
    assert_eq!(server.get("host").unwrap().as_str(), Some("localhost"));
    assert_eq!(server.get("port").unwrap().as_int(), Some(8080));
}

#[test]
fn test_escaping() {
    let input = r#"{ :price \$99.99
, :num \42
, :bool \true
}"#;
    let result = parse(input).unwrap();
    let obj = result.as_object().unwrap();
    assert_eq!(obj.get("price").unwrap().as_str(), Some("$99.99"));
    assert_eq!(obj.get("num").unwrap().as_str(), Some("42"));
    assert_eq!(obj.get("bool").unwrap().as_str(), Some("true"));
}

#[test]
fn test_comments() {
    let input = r#"// This is a comment
{ :name Alice  // inline comment
, :age 28
/* block
   comment */
}"#;
    let result = parse(input).unwrap();
    let obj = result.as_object().unwrap();
    assert_eq!(obj.get("name").unwrap().as_str(), Some("Alice"));
    assert_eq!(obj.get("age").unwrap().as_int(), Some(28));
}

#[test]
fn test_url_not_comment() {
    let input = r#"{ :url https://example.com
}"#;
    let result = parse(input).unwrap();
    let obj = result.as_object().unwrap();
    assert_eq!(
        obj.get("url").unwrap().as_str(),
        Some("https://example.com")
    );
}
