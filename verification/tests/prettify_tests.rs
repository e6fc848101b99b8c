use jsdu::minify::minify;
use jsdu::prettify::prettify;

fn prettify_str(json: &str, indent: usize) -> String {
    String::from_utf8(prettify(json.as_bytes(), indent)).unwrap()
}

#[test]
fn it_prettifies_json() {
    let json = r#"{"key":"value","array":[1,2,3]}"#;
    let prettified = prettify_str(json, 4);

    assert_eq!(
        prettified,
        r#"{
    "key": "value",
    "array": [
        1,
        2,
        3
    ]
}"#
    );
}

#[test]
fn it_handles_strings_with_escape_characters() {
    let json = r#"{"escaped": "Contains \\\"escaped\\\" characters and \"whitespace inside quotes\""}"#;
    let prettified = prettify_str(json, 4);

    assert_eq!(
        prettified,
        r#"{
    "escaped": "Contains \\\"escaped\\\" characters and \"whitespace inside quotes\""
}"#
    );
}

#[test]
fn it_handles_very_nested_objects_and_arrays() {
    let json = r#"[[[[[[[[[{"a":"b","c":["d"]}]]]]]]]]]"#;
    let prettified = prettify_str(json, 4);

    assert_eq!(
        prettified,
        r#"[
    [
        [
            [
                [
                    [
                        [
                            [
                                [
                                    {
                                        "a": "b",
                                        "c": [
                                            "d"
                                        ]
                                    }
                                ]
                            ]
                        ]
                    ]
                ]
            ]
        ]
    ]
]"#
    );
}

#[test]
fn prettified_text_parses_to_the_same_value() {
    let json = r#"{"s": "19 character string", "n": -234.67e9, "b": [true, null, {}], "e": []}"#;
    let before: serde_json::Value = serde_json::from_str(json).unwrap();
    for indent in [0usize, 1, 2, 4, 8] {
        let pretty = prettify_str(json, indent);
        let after: serde_json::Value = serde_json::from_str(&pretty).unwrap();
        assert_eq!(before, after);
    }
}

#[test]
fn prettify_then_minify_returns_the_minified_original() {
    let json = " { \"a b\" : [ 1 , {\"c\": []} ] } ";
    let pretty = prettify(json.as_bytes(), 4);
    assert_eq!(minify(&pretty), minify(json.as_bytes()));
}

#[test]
fn the_iterator_yields_the_same_bytes_as_prettify() {
    let json = br#"{"a":1}"#;
    let mut it = jsdu::prettify::PrettifyIter::new(json, 2);
    let mut streamed: Vec<u8> = Vec::new();
    while let Some(c) = it.next() {
        streamed.push(c);
    }
    assert_eq!(streamed, prettify(json, 2));
    assert_eq!(String::from_utf8(streamed).unwrap(), "{\n  \"a\": 1\n}");
}

#[test]
fn indent_width_zero_collapses_to_minified_with_newlines() {
    let json = r#"{"a":[1,2]}"#;
    assert_eq!(prettify_str(json, 0), "{\n\"a\": [\n1,\n2\n]\n}");
}
