use sqlite2dir::codec::{encode_row, UnsupportedInput, Value};

fn enc(row: Vec<Value>) -> String {
    encode_row(&row).expect("row should encode")
}

#[test]
fn encodes_empty_row() {
    assert_eq!(enc(vec![]), "[]\n");
}

#[test]
fn encodes_null_integer_text() {
    let line = enc(vec![
        Value::Null,
        Value::Integer(1),
        Value::Text(String::from("a")),
    ]);
    assert_eq!(line, "[null,1,\"a\"]\n");
}

#[test]
fn encodes_negative_and_extreme_integers() {
    assert_eq!(enc(vec![Value::Integer(0)]), "[0]\n");
    assert_eq!(enc(vec![Value::Integer(-7)]), "[-7]\n");
    assert_eq!(
        enc(vec![Value::Integer(i64::MAX)]),
        "[9223372036854775807]\n"
    );
    assert_eq!(
        enc(vec![Value::Integer(i64::MIN)]),
        "[-9223372036854775808]\n"
    );
}

#[test]
fn encodes_real_text_verbatim() {
    let line = enc(vec![Value::Real(String::from("1.5")), Value::Real(String::from("-2.0e10"))]);
    assert_eq!(line, "[1.5,-2.0e10]\n");
}

#[test]
fn escapes_text() {
    let line = enc(vec![Value::Text(String::from("a\"b\\c\nd\te\u{1}f"))]);
    assert_eq!(line, "[\"a\\\"b\\\\c\\nd\\te\\u0001f\"]\n");
}

#[test]
fn escapes_all_short_controls() {
    let line = enc(vec![Value::Text(String::from("\u{8}\u{c}\r"))]);
    assert_eq!(line, "[\"\\b\\f\\r\"]\n");
}

#[test]
fn keeps_unicode_text() {
    let line = enc(vec![Value::Text(String::from("héllo✓"))]);
    assert_eq!(line, "[\"héllo✓\"]\n");
}

#[test]
fn blob_fails_whole_row() {
    let r = encode_row(&vec![Value::Integer(1), Value::Blob]);
    match r {
        Err(e) => {
            assert!(matches!(e, UnsupportedInput::Blob));
            assert_eq!(e.message(), "blobs not yet supported");
        }
        Ok(_) => panic!("blob row must not encode"),
    }
}

#[test]
fn round_trips_through_json_parser() {
    let row = vec![
        Value::Null,
        Value::Integer(-42),
        Value::Real(String::from("3.25")),
        Value::Text(String::from("line\nbreak \"quoted\" \\slash ünïcode")),
    ];
    let line = enc(row);
    let parsed: serde_json::Value = serde_json::from_str(line.trim_end()).expect("valid json");
    let arr = parsed.as_array().expect("an array");
    assert_eq!(arr.len(), 4);
    assert!(arr[0].is_null());
    assert_eq!(arr[1].as_i64(), Some(-42));
    assert_eq!(arr[2].as_f64(), Some(3.25));
    assert_eq!(
        arr[3].as_str(),
        Some("line\nbreak \"quoted\" \\slash ünïcode")
    );
}

#[test]
fn round_trips_extreme_integers_exactly() {
    for n in [i64::MIN, -1, 0, 1, i64::MAX] {
        let line = enc(vec![Value::Integer(n)]);
        let parsed: serde_json::Value = serde_json::from_str(line.trim_end()).unwrap();
        assert_eq!(parsed.as_array().unwrap()[0].as_i64(), Some(n));
    }
}
