use watchman::numbers::Numbers;
use watchman::value::Value;

#[test]
fn members_are_found_by_their_first_key() {
    let v = Value::Object(vec![
        ("a".into(), Value::Int(1)),
        ("b".into(), Value::Int(2)),
        ("a".into(), Value::Int(3)),
    ]);
    assert_eq!(v.get("a"), Some(&Value::Int(1)));
    assert_eq!(v.get("b"), Some(&Value::Int(2)));
    assert_eq!(v.get("c"), None);
    assert_eq!(Value::Null.get("a"), None);
}

#[test]
fn values_are_looked_at_by_kind() {
    assert_eq!(Value::Str("x".into()).as_str(), Some("x"));
    assert_eq!(Value::Int(1).as_str(), None);
    assert_eq!(Value::Bool(true).as_bool(), Some(true));
    assert_eq!(Value::Null.as_bool(), None);
    assert_eq!(Value::Array(vec![Value::Null]).as_array().unwrap().len(), 1);
    assert!(Value::Null.as_array().is_none());
    assert_eq!(Value::str("s"), Value::Str("s".to_string()));
}

#[test]
fn doubles_are_cut_down_like_casts() {
    for d in [
        0.0f64, -0.0, 0.99, -0.99, 1.0, -1.5, 2.5e3, 1e18, -1e18, 9.3e18, -9.3e18, 1e300, -1e300,
        f64::INFINITY, f64::NEG_INFINITY, f64::NAN, f64::MIN_POSITIVE, 4503599627370497.5,
        9223372036854774784.0, -9223372036854775808.0, 123456789.987,
    ] {
        assert_eq!(Value::Double(d.to_bits()).as_i64(), Some(d as i64), "{d}");
    }
    assert_eq!(Value::Int(-7).as_i64(), Some(-7));
    assert_eq!(Value::Str("1".into()).as_i64(), None);
}

#[test]
fn doubles_are_equal_as_numbers() {
    let double = |d: f64| Value::Double(d.to_bits());
    assert_eq!(double(0.0), double(-0.0));
    assert_ne!(double(f64::NAN), double(f64::NAN));
    assert_eq!(double(1.5), double(1.5));
    assert_ne!(double(1.5), double(2.5));
    assert_ne!(Value::Int(1), double(1.0));
    let nested = Value::Object(vec![("k".into(), Value::Array(vec![double(-0.0)]))]);
    let other = Value::Object(vec![("k".into(), Value::Array(vec![double(0.0)]))]);
    assert_eq!(nested, other);
    assert_eq!(nested.clone(), nested);
}

#[test]
fn objects_are_built_in_order() {
    let v = Value::obj()
        .set("b", 1i64)
        .set("a", String::from("x"))
        .set_value("c", Value::Null)
        .build();
    assert_eq!(
        v,
        Value::Object(vec![
            ("b".into(), Value::Int(1)),
            ("a".into(), Value::Str("x".into())),
            ("c".into(), Value::Null),
        ])
    );
}

#[test]
fn numbers_remember_what_is_entered() {
    let mut numbers = Numbers::new();
    assert_eq!(numbers.reading("1.5"), None);
    numbers.add_reading("1.5", Some(1.5f64.to_bits()));
    numbers.add_reading("1.", None);
    assert_eq!(numbers.reading("1.5"), Some(Some(1.5f64.to_bits())));
    assert_eq!(numbers.reading("1."), Some(None));
    assert_eq!(numbers.notation(7), None);
    numbers.add_notation(7, "seven");
    assert_eq!(numbers.notation(7), Some("seven"));
}
