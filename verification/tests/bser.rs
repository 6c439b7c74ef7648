use watchman::bser::{
    decode, encode, read_pdu, try_decode, write_pdu, BserError, PduState, PduStep, PduVersion,
    MAGIC_V1, MAGIC_V2,
};
use watchman::value::Value;

fn body(v: &Value, version: PduVersion) -> Vec<u8> {
    let all = encode(v, version);
    let head = match version {
        PduVersion::V1 => 2,
        PduVersion::V2 => 6,
    };
    let width = match all[head] {
        0x03 => 1,
        0x04 => 2,
        0x05 => 4,
        _ => 8,
    };
    all[head + 1 + width..].to_vec()
}

#[test]
fn roundtrip_v1() {
    let v = Value::obj()
        .set("version", "1.0")
        .set("ok", true)
        .set("count", 42i64)
        .set(
            "items",
            vec![Value::Int(1), Value::Str("x".into()), Value::Null],
        )
        .build();
    let encoded = encode(&v, PduVersion::V1);
    let mut cursor = &encoded[..];
    let (decoded, version) = read_pdu(&mut cursor).unwrap();
    assert_eq!(v, decoded);
    assert_eq!(version, PduVersion::V1);
    assert!(cursor.is_empty());
}

#[test]
fn roundtrip_v2() {
    let v = Value::obj()
        .set("sockname", "/tmp/x.sock")
        .set("version", "2024")
        .build();
    let encoded = encode(&v, PduVersion::V2);
    assert_eq!(&encoded[0..2], &MAGIC_V2);
    let mut cursor = &encoded[..];
    let (decoded, version) = read_pdu(&mut cursor).unwrap();
    assert_eq!(v, decoded);
    assert_eq!(version, PduVersion::V2);
}

#[test]
fn integers_take_the_smallest_type() {
    assert_eq!(body(&Value::Int(0), PduVersion::V1), [0x03, 0x00]);
    assert_eq!(body(&Value::Int(-1), PduVersion::V1), [0x03, 0xff]);
    assert_eq!(body(&Value::Int(127), PduVersion::V1), [0x03, 0x7f]);
    assert_eq!(body(&Value::Int(128), PduVersion::V1), [0x04, 0x80, 0x00]);
    assert_eq!(body(&Value::Int(-129), PduVersion::V1), [0x04, 0x7f, 0xff]);
    assert_eq!(
        body(&Value::Int(0x12345678), PduVersion::V1),
        [0x05, 0x78, 0x56, 0x34, 0x12]
    );
    assert_eq!(
        body(&Value::Int(i64::MIN), PduVersion::V1),
        [0x06, 0, 0, 0, 0, 0, 0, 0, 0x80]
    );
}

#[test]
fn frames_have_their_heads() {
    let v = Value::Bool(true);
    assert_eq!(encode(&v, PduVersion::V1), [0x00, 0x01, 0x03, 0x01, 0x08]);
    assert_eq!(
        encode(&v, PduVersion::V2),
        [0x00, 0x02, 0, 0, 0, 0, 0x03, 0x01, 0x08]
    );
    assert_eq!(&encode(&v, PduVersion::V1)[0..2], &MAGIC_V1);
    let mut out = vec![0xee];
    write_pdu(&mut out, &v, PduVersion::V1);
    assert_eq!(out, [0xee, 0x00, 0x01, 0x03, 0x01, 0x08]);
}

#[test]
fn strings_have_a_tag_for_each_version() {
    let v = Value::Str("hé".into());
    assert_eq!(body(&v, PduVersion::V1), [0x02, 0x03, 0x03, b'h', 0xc3, 0xa9]);
    assert_eq!(body(&v, PduVersion::V2), [0x0d, 0x03, 0x03, b'h', 0xc3, 0xa9]);
}

#[test]
fn nested_values_come_back_in_both_versions() {
    let v = Value::Array(vec![
        Value::Object(vec![
            ("a".into(), Value::Int(70_000)),
            ("b".into(), Value::Array(vec![])),
            ("a".into(), Value::Double(1.5f64.to_bits())),
        ]),
        Value::Bool(false),
        Value::Str(String::new()),
        Value::Int(i64::MAX),
        Value::Null,
    ]);
    for version in [PduVersion::V1, PduVersion::V2] {
        let mut bytes = encode(&v, version);
        bytes.extend_from_slice(b"behind");
        let mut rest = &bytes[..];
        let (back, found) = read_pdu(&mut rest).unwrap();
        assert_eq!(back, v);
        assert_eq!(found, version);
        assert_eq!(rest, b"behind");
        assert_eq!(decode(&body(&v, version)).unwrap(), v);
    }
}

#[test]
fn invalid_utf8_is_repaired() {
    let got = decode(&[0x02, 0x03, 0x03, b'a', 0xff, b'b']).unwrap();
    assert_eq!(got, Value::Str("a\u{fffd}b".into()));
}

#[test]
fn what_follows_a_value_does_not_matter() {
    assert_eq!(decode(&[0x0a, 0x77]).unwrap(), Value::Null);
}

#[test]
fn each_error_of_a_body_is_told_apart() {
    assert_eq!(decode(&[]), Err(BserError::Truncated));
    assert_eq!(decode(&[0x06, 0x01]), Err(BserError::Truncated));
    assert_eq!(decode(&[0x02, 0x0a]), Err(BserError::ExpectedInt));
    assert_eq!(
        decode(&[0x01, 0x03, 0x01, 0x08]),
        Err(BserError::ExpectedKey)
    );
    assert_eq!(decode(&[0x0b]), Err(BserError::UnsupportedTag(0x0b)));
    assert_eq!(
        try_decode(&[0x00, 0x03, 0xff]),
        Err(BserError::Oversized)
    );
}

#[test]
fn each_error_of_a_frame_is_told_apart() {
    let read = |bytes: &[u8]| {
        let mut r = bytes;
        read_pdu(&mut r).map(|_| ())
    };
    assert_eq!(read(&[]), Err(BserError::UnexpectedEnd));
    assert_eq!(read(&[0x00, 0x03]), Err(BserError::BadMagic));
    assert_eq!(
        read(&[0x00, 0x01, 0x08]),
        Err(BserError::BadLengthTag(0x08))
    );
    assert_eq!(
        read(&[0x00, 0x01, 0x03, 0x02, 0x0a]),
        Err(BserError::UnexpectedEnd)
    );
    assert_eq!(
        read(&[0x00, 0x01, 0x03, 0x01, 0x0c]),
        Err(BserError::UnsupportedTag(0x0c))
    );
}

#[test]
fn bser_errors_are_put_in_words() {
    assert_eq!(BserError::Truncated.message(), "bser: truncated");
    assert_eq!(BserError::ExpectedInt.message(), "bser: expected int");
    assert_eq!(BserError::ExpectedKey.message(), "bser: expected string key");
    assert_eq!(
        BserError::UnsupportedTag(0x0b).message(),
        "bser: unsupported type tag 0xb"
    );
    assert_eq!(
        BserError::BadLengthTag(0xfe).message(),
        "bser: bad length tag 0xfe"
    );
    assert_eq!(BserError::BadMagic.message(), "bser: bad magic");
    assert_eq!(
        BserError::UnexpectedEnd.message(),
        "failed to fill whole buffer"
    );
}

#[test]
fn frames_are_read_piece_by_piece() {
    let bytes = encode(&Value::Int(5), PduVersion::V2);
    let mut state = PduState::Magic;
    let mut at = 0;
    let mut pieces = Vec::new();
    loop {
        let n = state.wanted();
        pieces.push(n);
        match state.feed(&bytes[at..at + n]).unwrap() {
            PduStep::More(next) => state = next,
            PduStep::Done(v, version) => {
                assert_eq!(v, Value::Int(5));
                assert_eq!(version, PduVersion::V2);
                break;
            }
        }
        at += n;
    }
    assert_eq!(pieces, [2, 4, 1, 1, 2]);
    assert_eq!(
        PduState::Length(PduVersion::V1, 1).feed(&[0xff]).map(|_| ()),
        Err(BserError::Oversized)
    );
}

fn sample() -> Value {
    Value::Array(vec![
        Value::Null,
        Value::Bool(true),
        Value::Int(-70000),
        Value::Double(7),
        Value::Str("aé".into()),
        Value::obj()
            .set("k", vec![Value::Int(1), Value::Array(vec![])])
            .set("", Value::obj().build())
            .build(),
    ])
}

#[test]
fn every_cut_body_is_truncated() {
    for version in [PduVersion::V1, PduVersion::V2] {
        let bytes = body(&sample(), version);
        assert_eq!(decode(&bytes), Ok(sample()));
        for k in 0..bytes.len() {
            assert_eq!(decode(&bytes[..k]), Err(BserError::Truncated));
        }
        let mut longer = bytes.clone();
        longer.extend_from_slice(b"\xff\x00tail");
        assert_eq!(decode(&longer), Ok(sample()));
    }
}

#[test]
fn capabilities_do_not_matter() {
    let mut bytes = encode(&sample(), PduVersion::V2);
    for capabilities in [[0xff; 4], [0x00, 0x01, 0x02, 0x03]] {
        bytes[2..6].copy_from_slice(&capabilities);
        let mut r = &bytes[..];
        assert_eq!(read_pdu(&mut r), Ok((sample(), PduVersion::V2)));
        assert!(r.is_empty());
    }
}

#[test]
fn frames_in_a_row_are_read_one_by_one() {
    let all = [
        (sample(), PduVersion::V2),
        (Value::Int(1), PduVersion::V1),
        (Value::Str("".into()), PduVersion::V1),
        (sample(), PduVersion::V2),
    ];
    let mut bytes = Vec::new();
    for (v, version) in &all {
        write_pdu(&mut bytes, v, *version);
    }
    bytes.push(0x2a);
    let mut r = &bytes[..];
    for (v, version) in all {
        assert_eq!(read_pdu(&mut r), Ok((v, version)));
    }
    assert_eq!(r, [0x2a]);
}
