use watchman::json::{decode, encode, try_decode, JsonError, Word};
use watchman::numbers::Numbers;
use watchman::text::IntegerFault;
use watchman::value::Value;

fn plain(v: &Value) -> String {
    encode(v, &Numbers::new()).unwrap()
}

fn read(s: &str) -> Result<Value, JsonError> {
    try_decode(s, &Numbers::new())
}

fn words(s: &str) -> String {
    read(s).unwrap_err().message()
}

#[test]
fn roundtrip() {
    let v = Value::obj()
        .set("a", 1i64)
        .set("b", "hi")
        .set("c", vec![Value::Bool(true), Value::Null])
        .build();
    let s = encode(&v, &Numbers::new()).unwrap();
    let back = decode(&s, &Numbers::new()).unwrap();
    assert_eq!(v, back);
}

#[test]
fn values_are_printed_compactly() {
    let v = Value::obj()
        .set("a", 1i64)
        .set("b", "hi")
        .set("c", vec![Value::Bool(true), Value::Null, Value::Int(-12)])
        .set("d", Vec::<Value>::new())
        .set_value("e", Value::Object(vec![]))
        .build();
    assert_eq!(
        plain(&v),
        r#"{"a":1,"b":"hi","c":[true,null,-12],"d":[],"e":{}}"#
    );
}

#[test]
fn strings_are_escaped() {
    assert_eq!(
        plain(&Value::Str("\"\\\n\r\t\u{1}\u{1f}\u{7f}é/".into())),
        "\"\\\"\\\\\\n\\r\\t\\u0001\\u001f\u{7f}é/\""
    );
}

#[test]
fn strings_come_back() {
    for s in ["", "a\"b\\c\nd\re\tf\u{0}\u{1f}", "é€😀", "\\u0041"] {
        let v = Value::Str(s.into());
        assert_eq!(read(&plain(&v)).unwrap(), v);
    }
}

#[test]
fn white_space_and_what_follows_are_passed_over() {
    assert_eq!(
        read(" \t\r\n[ 1 , 2 ] trailing").unwrap(),
        Value::Array(vec![Value::Int(1), Value::Int(2)])
    );
    assert_eq!(
        read("{ \"k\" : null }").unwrap(),
        Value::Object(vec![("k".into(), Value::Null)])
    );
    assert_eq!(read("{ }").unwrap(), Value::Object(vec![]));
    assert_eq!(read("[ ]").unwrap(), Value::Array(vec![]));
}

#[test]
fn escapes_are_read() {
    assert_eq!(
        read(r#""\"\\\/\n\t\r\u0041\u00e9\u20AC""#).unwrap(),
        Value::Str("\"\\/\n\t\rAé€".into())
    );
    // A sign is taken as the parsing of numbers takes one, and half a pair of
    // surrogates stands for nothing.
    assert_eq!(read(r#""\u+041""#).unwrap(), Value::Str("A".into()));
    assert_eq!(read(r#""a\ud83d\ude00b""#).unwrap(), Value::Str("ab".into()));
}

#[test]
fn integers_are_read_to_their_limits() {
    assert_eq!(read("9223372036854775807").unwrap(), Value::Int(i64::MAX));
    assert_eq!(read("-9223372036854775808").unwrap(), Value::Int(i64::MIN));
    assert_eq!(read("-0").unwrap(), Value::Int(0));
    assert_eq!(read("007").unwrap(), Value::Int(7));
    assert_eq!(
        read("9223372036854775808"),
        Err(JsonError::BadInteger(IntegerFault::TooLarge))
    );
    assert_eq!(
        read("-9223372036854775809"),
        Err(JsonError::BadInteger(IntegerFault::TooSmall))
    );
    assert_eq!(
        read("99999999999999999999999"),
        Err(JsonError::BadInteger(IntegerFault::TooLarge))
    );
    assert_eq!(
        read("-"),
        Err(JsonError::BadInteger(IntegerFault::InvalidDigit))
    );
}

#[test]
fn doubles_go_through_the_table() {
    let mut numbers = Numbers::new();
    assert_eq!(
        try_decode("[é, 1.5]", &numbers),
        Err(JsonError::Unexpected {
            got: Some(0xc3),
            at: 1
        })
    );
    assert_eq!(
        try_decode("[\"é\", 1.5e3]", &numbers),
        Err(JsonError::Unread { start: 7, end: 12 })
    );
    numbers.add_reading("1.5e3", Some(1500f64.to_bits()));
    numbers.add_reading("-1.", Some((-1f64).to_bits()));
    numbers.add_reading("1-2", None);
    assert_eq!(
        try_decode("1.5e3", &numbers).unwrap(),
        Value::Double(1500f64.to_bits())
    );
    assert_eq!(
        try_decode("-1.", &numbers).unwrap(),
        Value::Double((-1f64).to_bits())
    );
    assert_eq!(try_decode("1-2", &numbers), Err(JsonError::BadDouble));

    let half = 0.5f64.to_bits();
    let v = Value::Array(vec![Value::Double(half), Value::Double(0)]);
    assert_eq!(encode(&v, &numbers), Err(half));
    numbers.add_notation(half, "0.5");
    assert_eq!(encode(&v, &numbers), Err(0));
    numbers.add_notation(0, "0");
    assert_eq!(encode(&v, &numbers).unwrap(), "[0.5,0]");
    numbers.add_reading("0.5", Some(half));
    assert_eq!(
        try_decode("0.5", &numbers).unwrap(),
        Value::Double(half)
    );
}

#[test]
fn json_errors_are_told_apart() {
    assert_eq!(read("{1"), Err(JsonError::Expected { byte: b'"', at: 1 }));
    assert_eq!(
        read("{\"a\" 1"),
        Err(JsonError::Expected { byte: b':', at: 5 })
    );
    assert_eq!(
        read(" tru"),
        Err(JsonError::ExpectedWord {
            word: Word::True,
            at: 1
        })
    );
    assert_eq!(read(""), Err(JsonError::Unexpected { got: None, at: 0 }));
    assert_eq!(read("\"abc"), Err(JsonError::Unterminated));
    assert_eq!(
        read("\"\\x\""),
        Err(JsonError::BadEscape { got: Some(b'x') })
    );
    assert_eq!(read("\"\\"), Err(JsonError::BadEscape { got: None }));
    assert_eq!(
        read("\"\\u00é9\""),
        Err(JsonError::BadHex)
    );
    assert_eq!(
        read("\"\\u000é\""),
        Err(JsonError::SplitCharacter { index: 3 })
    );
    assert_eq!(read("\"\\u00g0\""), Err(JsonError::BadHex));
    assert_eq!(read("\"\\u00"), Err(JsonError::CutEscape));
    assert_eq!(
        read("[1 2"),
        Err(JsonError::ExpectedSeparator {
            close: b']',
            got: Some(b'2')
        })
    );
    assert_eq!(
        read("{\"a\":1"),
        Err(JsonError::ExpectedSeparator {
            close: b'}',
            got: None
        })
    );
}

#[test]
fn json_errors_are_put_in_words() {
    assert_eq!(words("{1"), "json: expected '\"' at 1");
    assert_eq!(words("nul"), "json: expected 'null' at 0");
    assert_eq!(words("fals"), "json: expected 'false' at 0");
    assert_eq!(words("?"), "json: unexpected byte Some(63) at 0");
    assert_eq!(words("  "), "json: unexpected byte None at 2");
    assert_eq!(words("\""), "json: unterminated string");
    assert_eq!(words("\"\\é"), "json: bad escape Some(195)");
    assert_eq!(
        words("\"\\u0é é\""),
        "invalid digit found in string"
    );
    assert_eq!(
        words("\"\\u12😀\""),
        "incomplete utf-8 byte sequence from index 2"
    );
    assert_eq!(words("\"\\uzzzz\""), "invalid digit found in string");
    assert_eq!(words("-"), "invalid digit found in string");
    assert_eq!(
        words("9223372036854775808"),
        "number too large to fit in target type"
    );
    assert_eq!(
        words("-9223372036854775809"),
        "number too small to fit in target type"
    );
    assert_eq!(words("[1}"), "json: expected ',' or ']' got Some(125)");
    assert_eq!(words("{\"a\":1]"), "json: expected ',' or '}' got Some(93)");
    assert_eq!(JsonError::BadDouble.message(), "invalid float literal");
}

#[test]
fn no_control_character_is_printed() {
    let all: String = (0u8..0x80).map(char::from).collect();
    let v = Value::Object(vec![
        (all.clone(), Value::Array(vec![Value::Str(all), Value::Null])),
        ("\u{1f}\u{0}".into(), Value::Int(i64::MIN)),
    ]);
    let s = plain(&v);
    assert!(s.chars().all(|c| c >= ' '));
    assert_eq!(read(&s), Ok(v));
}
