use jsdu::minify::minify;

fn minify_str(json: &str) -> String {
    String::from_utf8(minify(json.as_bytes())).unwrap()
}

#[test]
fn it_minifies_json() {
    let json = r#"{
            "key": "value",
            "array": [1, 2, 3]
        }"#;

    let minified = minify_str(json);

    assert_eq!(minified, r#"{"key":"value","array":[1,2,3]}"#);
}

#[test]
fn it_handles_escaped_characters_in_string() {
    let json = r#"{"escaped": "Contains \\\"escaped\\\" characters and \"whitespace inside quotes\""}"#;

    let minified = minify_str(json);

    assert_eq!(
        minified,
        r#"{"escaped":"Contains \\\"escaped\\\" characters and \"whitespace inside quotes\""}"#
    );
}

#[test]
fn minifying_twice_changes_nothing() {
    let json = " { \"a\" : [ 1 ,\t2 ,\n{ \"b\" : \"c d\" } ] } ";
    let once = minify(json.as_bytes());
    let twice = minify(&once);
    assert_eq!(once, twice);
}

#[test]
fn minified_text_parses_to_the_same_value() {
    let json = r#"{
        "s": "19 character string",
        "n": -234.67e9,
        "boolean": true,
        "list": [1, 2.5, null, "x\n\"y"],
        "empty_object": {},
        "empty_array": []
    }"#;
    let before: serde_json::Value = serde_json::from_str(json).unwrap();
    let minified = minify_str(json);
    assert_ne!(minified, json);
    let after: serde_json::Value = serde_json::from_str(&minified).unwrap();
    assert_eq!(before, after);
}

#[test]
fn whitespace_only_input_minifies_to_nothing() {
    assert_eq!(minify(b" \t\r\n "), Vec::<u8>::new());
}

#[test]
fn multibyte_string_contents_pass_through_unchanged() {
    let json = "{ \"k\": \"héllo ☃ wörld\" }";
    assert_eq!(minify_str(json), "{\"k\":\"héllo ☃ wörld\"}");
}

#[test]
fn the_iterator_yields_the_same_bytes_as_minify() {
    let json = br#" [ "a b" , 2 ] "#;
    let mut it = jsdu::minify::MinifyIter::new(json);
    let mut streamed: Vec<u8> = Vec::new();
    while let Some(c) = it.next() {
        streamed.push(c);
    }
    assert_eq!(streamed, minify(json));
    assert_eq!(streamed, b"[\"a b\",2]".to_vec());
}
