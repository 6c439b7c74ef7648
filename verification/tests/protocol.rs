use watchman::bser::{encode, BserError, PduVersion};
use watchman::json::JsonError;
use watchman::numbers::Numbers;
use watchman::protocol::{
    read_line_text, read_request, try_read_request, write_response, Exchange, Framing,
    ProtocolError, RequestState, RequestStep, Wanted,
};
use watchman::value::Value;

fn request() -> Value {
    Value::Array(vec![
        Value::Str("query".into()),
        Value::Str("/a\n\"b\u{1}é".into()),
        Value::obj().set("n", -5i64).set("flag", false).build(),
    ])
}

#[test]
fn responses_are_read_back_in_their_framing() {
    let numbers = Numbers::new();
    for framing in [
        Framing::Json,
        Framing::Bser(PduVersion::V1),
        Framing::Bser(PduVersion::V2),
    ] {
        let mut bytes = Vec::new();
        write_response(&mut bytes, &request(), &framing, &numbers).unwrap();
        write_response(&mut bytes, &Value::Array(vec![]), &framing, &numbers).unwrap();
        let mut r = &bytes[..];
        let (first, how) = read_request(&mut r, &numbers).unwrap().unwrap();
        assert_eq!(first, request());
        assert_eq!(how, framing);
        let (second, _) = read_request(&mut r, &numbers).unwrap().unwrap();
        assert_eq!(second, Value::Array(vec![]));
        assert!(read_request(&mut r, &numbers).unwrap().is_none());
    }
}

#[test]
fn lines_of_json_are_trimmed() {
    let numbers = Numbers::new();
    let mut r = &b" \t[1]\r\n[2]"[..];
    let (v, how) = read_request(&mut r, &numbers).unwrap().unwrap();
    assert_eq!(v, Value::Array(vec![Value::Int(1)]));
    assert_eq!(how, Framing::Json);
    let (v, _) = read_request(&mut r, &numbers).unwrap().unwrap();
    assert_eq!(v, Value::Array(vec![Value::Int(2)]));
    assert!(r.is_empty());
    assert_eq!(read_line_text(b'"', b"\xff\" \n"), "\"\u{fffd}\"");
}

#[test]
fn responses_end_their_line() {
    let mut out = b"x".to_vec();
    write_response(&mut out, &Value::Bool(true), &Framing::Json, &Numbers::new()).unwrap();
    assert_eq!(out, b"xtrue\n");
}

#[test]
fn doubles_without_notation_are_not_written() {
    let mut out = b"x".to_vec();
    let mut numbers = Numbers::new();
    let v = Value::Double(9);
    assert_eq!(
        write_response(&mut out, &v, &Framing::Json, &numbers),
        Err(9)
    );
    assert_eq!(out, b"x");
    write_response(&mut out, &v, &Framing::Bser(PduVersion::V1), &numbers).unwrap();
    assert_eq!(out.len(), 1 + 2 + 2 + 9);
    numbers.add_notation(9, "4.4e-323");
    write_response(&mut out, &v, &Framing::Json, &numbers).unwrap();
    assert!(out.ends_with(b"4.4e-323\n"));
}

#[test]
fn protocol_errors_are_told_apart() {
    let read = |bytes: &[u8]| {
        let mut r = bytes;
        read_request(&mut r, &Numbers::new()).map(|_| ())
    };
    assert_eq!(read(&[0x00, 0x07]), Err(ProtocolError::BadMagic));
    assert_eq!(
        read(&[0x00]),
        Err(ProtocolError::Bser(BserError::UnexpectedEnd))
    );
    assert_eq!(
        read(&[0x00, 0x01, 0x03, 0x01, 0x0c]),
        Err(ProtocolError::Bser(BserError::UnsupportedTag(0x0c)))
    );
    assert_eq!(
        read(b"?\n"),
        Err(ProtocolError::Json(JsonError::Unexpected {
            got: Some(b'?'),
            at: 0
        }))
    );
    assert_eq!(
        ProtocolError::BadMagic.message(),
        "protocol: bad bser magic"
    );
    assert_eq!(
        ProtocolError::Bser(BserError::BadMagic).message(),
        "bser: bad magic"
    );
    assert_eq!(
        ProtocolError::Json(JsonError::Unterminated).message(),
        "json: unterminated string"
    );
}

#[test]
fn requests_are_read_piece_by_piece() {
    let numbers = Numbers::new();
    let state = RequestState::First;
    assert_eq!(state.wanted(), Wanted::AtMostOne);
    assert!(matches!(state.feed(b"", &numbers), Ok(RequestStep::End)));
    let next = match state.feed(b"[", &numbers) {
        Ok(RequestStep::More(s)) => s,
        _ => panic!(),
    };
    assert_eq!(next, RequestState::Line(b'['));
    assert_eq!(next.wanted(), Wanted::Line);
    match next.feed(b"]\n", &numbers) {
        Ok(RequestStep::Done(v, Framing::Json)) => assert_eq!(v, Value::Array(vec![])),
        _ => panic!(),
    }

    let bytes = encode(&Value::Null, PduVersion::V2);
    let mut state = RequestState::First;
    let mut at = 0;
    loop {
        let n = match state.wanted() {
            Wanted::AtMostOne => 1,
            Wanted::Exactly(n) => n,
            Wanted::Line => panic!(),
        };
        match state.feed(&bytes[at..at + n], &numbers).unwrap() {
            RequestStep::More(s) => state = s,
            RequestStep::Done(v, how) => {
                assert_eq!(v, Value::Null);
                assert_eq!(how, Framing::Bser(PduVersion::V2));
                break;
            }
            RequestStep::End => panic!(),
        }
        at += n;
    }
    assert_eq!(
        RequestState::Line(b'"')
            .feed(b"\\u00", &numbers)
            .map(|_| ())
            .unwrap_err(),
        ProtocolError::Json(JsonError::CutEscape)
    );
}

#[test]
fn streams_that_ask_too_much_are_left_alone() {
    let numbers = Numbers::new();
    for bytes in [&b"\x00\x01\x03\xff"[..], b"\"\\u00"] {
        let mut r = bytes;
        assert!(try_read_request(&mut r, &numbers).is_none());
        assert_eq!(r, bytes);
    }
    let mut r = &b"[]\n1"[..];
    let (v, _) = try_read_request(&mut r, &numbers)
        .unwrap()
        .unwrap()
        .unwrap();
    assert_eq!(v, Value::Array(vec![]));
    assert_eq!(r, b"1");
}

/// Feeds an exchange from a stream until a request is complete or the stream ends.
fn next_request(exchange: Exchange, r: &mut &[u8]) -> (Exchange, Option<Value>) {
    let numbers = Numbers::new();
    let mut exchange = exchange;
    while let Exchange::Reading(state) = exchange {
        let n = match state.wanted() {
            Wanted::AtMostOne => r.len().min(1),
            Wanted::Exactly(n) => n,
            Wanted::Line => r.iter().position(|b| *b == b'\n').map_or(r.len(), |k| k + 1),
        };
        let (piece, rest) = r.split_at(n);
        *r = rest;
        let (next, req) = exchange.feed(piece, &numbers).unwrap();
        exchange = next;
        if req.is_some() {
            return (exchange, req);
        }
    }
    (exchange, None)
}

#[test]
fn each_request_is_answered_once_in_its_own_framing() {
    let numbers = Numbers::new();
    let framings = [
        Framing::Bser(PduVersion::V2),
        Framing::Json,
        Framing::Bser(PduVersion::V1),
        Framing::Json,
    ];
    let mut bytes = Vec::new();
    for (k, framing) in framings.iter().enumerate() {
        write_response(&mut bytes, &Value::Int(k as i64), framing, &numbers).unwrap();
    }
    let mut r = &bytes[..];
    let mut out = Vec::new();
    let mut exchange = Exchange::new();
    for (k, framing) in framings.iter().enumerate() {
        let (turn, req) = next_request(exchange, &mut r);
        assert_eq!(req, Some(Value::Int(k as i64)));
        assert_eq!(turn, Exchange::Answering(*framing));
        exchange = turn
            .answer(&mut out, &Value::Int(10 + k as i64), &numbers)
            .unwrap();
        assert_eq!(exchange, Exchange::new());
    }
    assert_eq!(next_request(exchange, &mut r), (Exchange::Over, None));
    let mut expected = encode(&Value::Int(10), PduVersion::V2);
    expected.extend_from_slice(b"11\n");
    expected.extend_from_slice(&encode(&Value::Int(12), PduVersion::V1));
    expected.extend_from_slice(b"13\n");
    assert_eq!(out, expected);
}

#[test]
fn an_exchange_reports_what_cannot_be_read_or_written() {
    let numbers = Numbers::new();
    let second = match Exchange::new().feed(b"\x00", &numbers) {
        Ok((next, None)) => next,
        _ => panic!(),
    };
    assert_eq!(second, Exchange::Reading(RequestState::Second));
    assert_eq!(
        second.feed(b"\x03", &numbers).map(|_| ()).unwrap_err(),
        ProtocolError::BadMagic
    );
    let mut out = b"x".to_vec();
    let half = 0.5f64.to_bits();
    assert_eq!(
        Exchange::Answering(Framing::Json).answer(&mut out, &Value::Double(half), &numbers),
        Err(half)
    );
    assert_eq!(out, b"x");
}

#[test]
fn capabilities_of_requests_are_passed_over() {
    let numbers = Numbers::new();
    let mut bytes = encode(&request(), PduVersion::V2);
    bytes[2..6].copy_from_slice(&[0xff, 0x00, 0x0a, 0x7f]);
    bytes.extend_from_slice(b"tail");
    let mut r = &bytes[..];
    let (v, how) = read_request(&mut r, &numbers).unwrap().unwrap();
    assert_eq!(v, request());
    assert_eq!(how, Framing::Bser(PduVersion::V2));
    assert_eq!(r, b"tail");
}

#[test]
fn an_empty_stream_holds_no_request() {
    let mut r = &b""[..];
    assert!(read_request(&mut r, &Numbers::new()).unwrap().is_none());
    assert!(r.is_empty());
}
