use jsdu::minify::minify;
use jsdu::prettify::prettify;
use jsdu::size::{JsonKey, JsonSize, JsonValueKind, Span};

fn parse(json: &str) -> JsonSize {
    JsonSize::new(json.as_bytes()).unwrap()
}

#[test]
fn test_single_string_size() {
    let json = r#""19 character string""#;
    let js = parse(json);
    assert_eq!(js.control_chars, 2);
    // Only counts whitespace outside of string
    assert_eq!(js.whitespace, 0);
    assert_eq!(js.data_size, 19);
    assert_eq!(js.value_kind, JsonValueKind::String);
    assert!(js.children.is_empty());
}

#[test]
fn test_empty_string_size() {
    let json = r#""""#;
    let js = parse(json);
    assert_eq!(js.control_chars, 2);
    assert_eq!(js.whitespace, 0);
    assert_eq!(js.data_size, 0);
    assert_eq!(js.value_kind, JsonValueKind::String);
    assert!(js.children.is_empty());
}

#[test]
fn test_bool_size() {
    let json = r#"false"#;
    let js = parse(json);
    assert_eq!(js.control_chars, 0);
    assert_eq!(js.whitespace, 0);
    assert_eq!(js.data_size, 5);
    assert_eq!(js.value_kind, JsonValueKind::Boolean);
    assert!(js.children.is_empty());
}

fn assert_number_size(json: &str, size: usize) {
    let js = parse(json);
    assert_eq!(js.control_chars, 0);
    assert_eq!(js.whitespace, 0);
    assert_eq!(js.data_size, size);
    assert_eq!(js.value_kind, JsonValueKind::Number);
    assert!(js.children.is_empty());
}

#[test]
fn test_number_size() {
    assert_number_size("1", 1);
    assert_number_size("12", 2);
    assert_number_size("123", 3);
    assert_number_size("1234", 4);
    assert_number_size("1234.6", 6);
    assert_number_size("1234.67", 7);
    assert_number_size("1234.67e9", 9);
    assert_number_size("1234.67E9", 9);
    assert_number_size("1234567E9", 9);
    assert_number_size("1234567e9", 9);
    assert_number_size("1234567e+11", 11);
    assert_number_size("1234567e-11", 11);
    assert_number_size("-2", 2);
    assert_number_size("-234.67e9", 9);
}

#[test]
fn test_array() {
    let json = r#"["19 character string"]"#;
    let js = parse(json);
    assert_eq!(js.control_chars, 4);
    // Only counts whitespace outside of string
    assert_eq!(js.whitespace, 0);
    assert_eq!(js.data_size, 19);
    assert_eq!(js.value_kind, JsonValueKind::Array);
    assert_eq!(js.children.len(), 1);
}

#[test]
fn test_array_3() {
    let json = r#"["19 character string", -234.67e9, null]"#;
    let js = parse(json);
    assert_eq!(js.control_chars, 6);
    // Only counts whitespace outside of string
    assert_eq!(js.whitespace, 2);
    assert_eq!(js.data_size, 19 + 9 + 4);
    assert_eq!(js.value_kind, JsonValueKind::Array);
    assert_eq!(js.children.len(), 3);
}

#[test]
fn test_array_num() {
    let json = r#"[-234.67e9, 0]"#;
    let js = parse(json);
    assert_eq!(js.control_chars, 3);
    // Only counts whitespace outside of string
    assert_eq!(js.whitespace, 1);
    assert_eq!(js.data_size, 9 + 1);
    assert_eq!(js.value_kind, JsonValueKind::Array);
    assert_eq!(js.children.len(), 2);
}

#[test]
fn test_empty_array() {
    let json = r#"[]"#;
    let js = parse(json);
    assert_eq!(js.control_chars, 2);
    // Only counts whitespace outside of string
    assert_eq!(js.whitespace, 0);
    assert_eq!(js.data_size, 0);
    assert_eq!(js.value_kind, JsonValueKind::Array);
    assert_eq!(js.children.len(), 0);
}

#[test]
fn test_empty_whitespace() {
    let json = r#"  [   ]    "#;
    let js = parse(json);
    assert_eq!(js.control_chars, 2);
    // Only counts whitespace outside of string
    assert_eq!(js.whitespace, 2 + 3 + 4);
    assert_eq!(js.data_size, 0);
    assert_eq!(js.value_kind, JsonValueKind::Array);
    assert_eq!(js.children.len(), 0);
}

#[test]
fn test_object() {
    let json = r#"{"s": "19 character string"}"#;
    let js = parse(json);
    assert_eq!(js.control_chars, 2 + 2 + 2 + 1);
    // Only counts whitespace outside of string
    assert_eq!(js.whitespace, 1);
    assert_eq!(js.data_size, 19 + 1);
    assert_eq!(js.value_kind, JsonValueKind::Object);
    assert_eq!(js.children.len(), 1);
}

#[test]
fn test_object_3() {
    let json = r#"{"s": "19 character string", "n": -234.67e9, "boolean": true}"#;
    let js = parse(json);
    assert_eq!(js.control_chars, 2 + 3 + 3 + 3 + 1 + 3);
    // Only counts whitespace outside of string
    assert_eq!(js.whitespace, 5);
    assert_eq!(js.data_size, 19 + 9 + 4 + 1 + 1 + 7);
    assert_eq!(js.value_kind, JsonValueKind::Object);
    assert_eq!(js.children.len(), 3);
}

#[test]
fn test_empty_object() {
    let js = parse("{}");
    assert_eq!(js.control_chars, 2);
    assert_eq!(js.whitespace, 0);
    assert_eq!(js.data_size, 0);
    assert_eq!(js.value_kind, JsonValueKind::Object);
    assert_eq!(js.children.len(), 0);
}

#[test]
fn byte_conservation_holds_on_a_mixed_document() {
    let json = r#"  {"s": "a \"quoted\" string", "list": [1, -2.5e-3, null, true], "o": { "k": [] }}  "#;
    let js = parse(json);
    assert_eq!(js.whitespace + js.control_chars + js.data_size, json.len());
}

#[test]
fn deeply_nested_arrays_keep_the_invariant() {
    let mut json = String::new();
    for _ in 0..1000 {
        json.push('[');
    }
    json.push('1');
    for _ in 0..1000 {
        json.push(']');
    }
    let js = JsonSize::new(json.as_bytes()).unwrap();
    assert_eq!(js.whitespace + js.control_chars + js.data_size, json.len());
    assert_eq!(js.control_chars, 2000);
    assert_eq!(js.data_size, 1);
    assert_eq!(js.value_kind, JsonValueKind::Array);

    let pretty = prettify(json.as_bytes(), 4);
    assert_eq!(minify(&pretty), json.as_bytes().to_vec());
}

#[test]
fn malformed_documents_are_rejected() {
    assert!(JsonSize::new(b"[1").is_none());
    assert!(JsonSize::new(b"}").is_none());
    assert!(JsonSize::new(b",").is_none());
    assert!(JsonSize::new(b"tru").is_none());
    assert!(JsonSize::new(b"truthy").is_none());
    assert!(JsonSize::new(b"\"abc").is_none());
    assert!(JsonSize::new(b"1e").is_none());
    assert!(JsonSize::new(b"[1 2]").is_none());
    assert!(JsonSize::new(b"{\"a\":}").is_none());
    assert!(JsonSize::new(b"{\"a\" 1}").is_none());
    assert!(JsonSize::new(b"[1}").is_none());
    assert!(JsonSize::new(b"x").is_none());
    assert!(JsonSize::new(b"[1] 2").is_none());
}

#[test]
fn display_list_for_a_childless_node_is_one_line() {
    let json = r#""19 character string""#;
    let js = parse(json);
    let lines = js.display_list(json.as_bytes());
    assert_eq!(lines.len(), 1);
    let head = String::from_utf8(lines[0].clone()).unwrap();
    assert_eq!(head, format!("{:12} {} {}", json.len(), "[##########]", "Total"));
}

#[test]
fn display_list_shows_children_with_bars_and_keys() {
    let json = r#"{"s": "19 character string", "n": -234.67e9, "boolean": true}"#;
    let js = parse(json);
    let lines: Vec<String> = js
        .display_list(json.as_bytes())
        .into_iter()
        .map(|l| String::from_utf8(l).unwrap())
        .collect();
    assert_eq!(lines.len(), 4);
    assert_eq!(lines[0], format!("{:12} {} {}", json.len(), "[##########]", "Total"));
    // 61 bytes in all; the children weigh 22, 10 and 5 bytes.
    assert_eq!(lines[1], format!("{:12} [{}] {}", 22, "####      ", "\"s\""));
    assert_eq!(lines[2], format!("{:12} [{}] {}", 10, "##        ", "\"n\""));
    assert_eq!(lines[3], format!("{:12} [{}] {}", 5, "#         ", "\"boolean\""));
}

#[test]
fn display_list_labels_array_members_by_index() {
    let json = r#"[-234.67e9, 0]"#;
    let js = parse(json);
    let lines: Vec<String> = js
        .display_list(json.as_bytes())
        .into_iter()
        .map(|l| String::from_utf8(l).unwrap())
        .collect();
    assert_eq!(lines.len(), 3);
    assert_eq!(lines[1], format!("{:12} [{}] {}", 9, "#######   ", "0"));
    assert_eq!(lines[2], format!("{:12} [{}] {}", 2, "##        ", "1"));
}

#[test]
fn keys_resolve_lazily_and_keep_their_escapes() {
    let json = r#"{"a\"b\\c": 1}"#;
    let js = parse(json);
    assert_eq!(js.children.len(), 1);
    let label = js.children[0].key.to_display(json.as_bytes());
    assert_eq!(String::from_utf8(label).unwrap(), r#""a\"b\\c""#);

    let positional = JsonKey { index: 42, key_ptr: None };
    assert_eq!(positional.to_display(json.as_bytes()), b"42".to_vec());

    let spanned = JsonKey { index: 0, key_ptr: Some(Span { start: 2 }) };
    assert_eq!(
        String::from_utf8(spanned.to_display(json.as_bytes())).unwrap(),
        r#""a\"b\\c""#
    );
}
