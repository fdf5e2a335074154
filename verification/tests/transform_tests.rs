use secret_decoder::transform::TransformError;
use secret_decoder::transform::parse_input;
use secret_decoder::value::Value;

fn text(s: &str) -> Value {
    Value::Text(s.to_string())
}

fn obj(fields: Vec<(&str, Value)>) -> Value {
    Value::Object(fields.into_iter().map(|(k, v)| (k.to_string(), v)).collect())
}

fn dup(v: &Value) -> Value {
    match v {
        Value::Null => Value::Null,
        Value::Bool(b) => Value::Bool(*b),
        Value::Number(s) => Value::Number(s.clone()),
        Value::Text(s) => Value::Text(s.clone()),
        Value::Array(elems) => Value::Array(elems.iter().map(dup).collect()),
        Value::Object(fields) => {
            Value::Object(fields.iter().map(|(k, v)| (k.clone(), dup(v))).collect())
        }
    }
}

fn get<'a>(v: &'a Value, key: &str) -> Option<&'a Value> {
    match v {
        Value::Object(fields) => fields.iter().find(|p| p.0 == key).map(|p| &p.1),
        _ => None,
    }
}

fn get_str<'a>(v: &'a Value, key: &str) -> &'a str {
    match get(v, key).expect("key missing") {
        Value::Text(s) => s.as_str(),
        _ => panic!("value is not a string"),
    }
}

#[test]
fn test_parse_input() {
    let input = obj(vec![("foo", text("bar"))]);

    let output = parse_input(input).unwrap();

    assert_eq!(get_str(&output, "foo"), "bar");
}

#[test]
fn test_decode_secret() {
    let input = obj(vec![
        ("kind", text("Secret")),
        ("apiVersion", text("v1")),
        (
            "metadata",
            obj(vec![("name", text("example")), ("creationTimestamp", Value::Null)]),
        ),
        ("data", obj(vec![("key", text("dmFsdWU="))])),
    ]);

    let output = parse_input(input).unwrap();
    let string_data = get(&output, "stringData").unwrap();

    assert_eq!(get_str(string_data, "key"), "value");
}

#[test]
fn test_string_data_already_exists() {
    let input = obj(vec![
        ("kind", text("Secret")),
        ("apiVersion", text("v1")),
        (
            "metadata",
            obj(vec![("name", text("example")), ("creationTimestamp", Value::Null)]),
        ),
        ("data", obj(vec![("key", text("dmFsdWU="))])),
        ("stringData", obj(vec![("hello", text("world"))])),
    ]);

    let output = parse_input(input).unwrap();
    let string_data = get(&output, "stringData").unwrap();

    assert_eq!(get_str(string_data, "hello"), "world");
}

#[test]
fn test_decode_secret_list() {
    let input = obj(vec![
        ("kind", text("List")),
        ("metadata", obj(vec![])),
        (
            "items",
            Value::Array(vec![
                obj(vec![
                    ("apiVersion", text("v1")),
                    ("data", obj(vec![("key", text("dmFsdWU="))])),
                    ("kind", text("Secret")),
                    (
                        "metadata",
                        obj(vec![
                            ("creationTimestamp", Value::Null),
                            ("name", text("example")),
                        ]),
                    ),
                ]),
                obj(vec![
                    ("apiVersion", text("v1")),
                    ("data", obj(vec![("key", text("dmFsdWU="))])),
                    ("kind", text("Pod")),
                    ("metadata", obj(vec![("name", text("example"))])),
                ]),
            ]),
        ),
    ]);

    let output = parse_input(input).unwrap();
    let items = match get(&output, "items").unwrap() {
        Value::Array(items) => items,
        _ => panic!("items is not an array"),
    };
    let string_data = get(&items[0], "stringData").unwrap();

    assert_eq!(get_str(string_data, "key"), "value");
}

#[test]
fn merge_precedence_data_wins_and_order() {
    let input = obj(vec![
        ("kind", text("Secret")),
        ("stringData", obj(vec![("hello", text("world"))])),
        ("data", obj(vec![("key", text("dmFsdWU="))])),
    ]);

    let output = parse_input(input).unwrap();

    let expected = obj(vec![
        ("kind", text("Secret")),
        (
            "stringData",
            obj(vec![("hello", text("world")), ("key", text("value"))]),
        ),
    ]);
    assert_eq!(output, expected);
}

#[test]
fn merge_precedence_colliding_key() {
    let input = obj(vec![
        ("kind", text("Secret")),
        ("stringData", obj(vec![("key", text("old"))])),
        ("data", obj(vec![("key", text("dmFsdWU="))])),
    ]);

    let output = parse_input(input).unwrap();
    let string_data = get(&output, "stringData").unwrap();

    assert_eq!(string_data, &obj(vec![("key", text("value"))]));
}

#[test]
fn transformed_secret_has_no_data_key() {
    let input = obj(vec![
        ("kind", text("Secret")),
        ("data", obj(vec![("key", text("dmFsdWU="))])),
    ]);

    let output = parse_input(input).unwrap();

    assert!(get(&output, "data").is_none());
    assert_eq!(get_str(get(&output, "stringData").unwrap(), "key"), "value");
}

#[test]
fn secret_without_data_is_unchanged() {
    let input = obj(vec![
        ("kind", text("Secret")),
        ("stringData", obj(vec![("hello", text("world"))])),
        ("other", text("field")),
    ]);

    let output = parse_input(dup(&input)).unwrap();

    assert_eq!(output, input);
}

#[test]
fn non_resource_object_is_unchanged() {
    let input = obj(vec![
        ("kind", text("Pod")),
        ("data", obj(vec![("key", text("not base64 at all!"))])),
    ]);

    let output = parse_input(dup(&input)).unwrap();

    assert_eq!(output, input);
}

#[test]
fn scalars_are_unchanged() {
    assert_eq!(parse_input(Value::Null).unwrap(), Value::Null);
    assert_eq!(parse_input(Value::Bool(true)).unwrap(), Value::Bool(true));
    assert_eq!(
        parse_input(Value::Number("42".to_string())).unwrap(),
        Value::Number("42".to_string())
    );
    assert_eq!(parse_input(text("plain")).unwrap(), text("plain"));
    assert_eq!(
        parse_input(Value::Array(vec![text("a")])).unwrap(),
        Value::Array(vec![text("a")])
    );
}

#[test]
fn list_keeps_length_order_and_non_secret_items() {
    let pod = obj(vec![
        ("kind", text("Pod")),
        ("data", obj(vec![("key", text("dmFsdWU="))])),
    ]);
    let secret = obj(vec![
        ("kind", text("Secret")),
        ("data", obj(vec![("key", text("dmFsdWU="))])),
    ]);
    let input = obj(vec![
        ("kind", text("List")),
        (
            "items",
            Value::Array(vec![secret, dup(&pod)]),
        ),
    ]);

    let output = parse_input(input).unwrap();
    let items = match get(&output, "items").unwrap() {
        Value::Array(items) => items,
        _ => panic!("items is not an array"),
    };

    assert_eq!(items.len(), 2);
    assert!(get(&items[0], "data").is_none());
    assert_eq!(get_str(get(&items[0], "stringData").unwrap(), "key"), "value");
    assert_eq!(items[1], pod);
}

#[test]
fn nested_lists_recurse() {
    let inner = obj(vec![
        ("kind", text("List")),
        (
            "items",
            Value::Array(vec![obj(vec![
                ("kind", text("Secret")),
                ("data", obj(vec![("key", text("aGk="))])),
            ])]),
        ),
    ]);
    let input = obj(vec![("kind", text("List")), ("items", Value::Array(vec![inner]))]);

    let output = parse_input(input).unwrap();
    let outer_items = match get(&output, "items").unwrap() {
        Value::Array(items) => items,
        _ => panic!("items is not an array"),
    };
    let inner_items = match get(&outer_items[0], "items").unwrap() {
        Value::Array(items) => items,
        _ => panic!("items is not an array"),
    };

    assert_eq!(
        get_str(get(&inner_items[0], "stringData").unwrap(), "key"),
        "hi"
    );
}

#[test]
fn list_with_non_array_items_is_unchanged() {
    let input = obj(vec![("kind", text("List")), ("items", text("not an array"))]);

    let output = parse_input(dup(&input)).unwrap();

    assert_eq!(output, input);
}

#[test]
fn list_without_items_is_unchanged() {
    let input = obj(vec![("kind", text("List")), ("metadata", obj(vec![]))]);

    let output = parse_input(dup(&input)).unwrap();

    assert_eq!(output, input);
}

#[test]
fn empty_data_becomes_empty_string_data() {
    let input = obj(vec![("kind", text("Secret")), ("data", obj(vec![]))]);

    let output = parse_input(input).unwrap();

    let expected = obj(vec![("kind", text("Secret")), ("stringData", obj(vec![]))]);
    assert_eq!(output, expected);
}

#[test]
fn invalid_base64_fails_with_decode_error() {
    let input = obj(vec![
        ("kind", text("Secret")),
        ("data", obj(vec![("key", text("%%% not base64 %%%"))])),
    ]);

    assert_eq!(parse_input(input), Err(TransformError::DecodeError));
}

#[test]
fn invalid_utf8_fails_with_encoding_error() {
    // "/w==" is the base64 encoding of the single byte 0xff, which is not
    // valid UTF-8.
    let input = obj(vec![
        ("kind", text("Secret")),
        ("data", obj(vec![("key", text("/w=="))])),
    ]);

    assert_eq!(parse_input(input), Err(TransformError::EncodingError));
}

#[test]
fn non_string_data_entry_fails_with_type_error() {
    let input = obj(vec![
        ("kind", text("Secret")),
        ("data", obj(vec![("key", Value::Bool(true))])),
    ]);

    assert_eq!(parse_input(input), Err(TransformError::TypeError));
}

#[test]
fn non_object_data_fails_with_type_error() {
    let input = obj(vec![("kind", text("Secret")), ("data", text("dmFsdWU="))]);

    assert_eq!(parse_input(input), Err(TransformError::TypeError));
}

#[test]
fn non_object_string_data_fails_with_type_error() {
    let input = obj(vec![
        ("kind", text("Secret")),
        ("data", obj(vec![("key", text("dmFsdWU="))])),
        ("stringData", text("oops")),
    ]);

    assert_eq!(parse_input(input), Err(TransformError::TypeError));
}

#[test]
fn transform_is_idempotent_on_secrets() {
    let input = obj(vec![
        ("kind", text("Secret")),
        ("data", obj(vec![("key", text("dmFsdWU="))])),
        ("stringData", obj(vec![("hello", text("world"))])),
    ]);

    let once = parse_input(input).unwrap();
    let twice = parse_input(dup(&once)).unwrap();

    assert_eq!(twice, once);
}
