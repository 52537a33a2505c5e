use chitko_sip::headers::Headers;
use chitko_sip::response::SipResponse;
use chitko_sip::sip_parser::ParseError;

fn response(code: u16, reason: &[u8], fields: &[(&[u8], &[u8])], body: Option<&[u8]>) -> SipResponse {
    let mut headers = Headers::new();
    for (name, value) in fields {
        headers.insert(name.to_vec(), value.to_vec());
    }
    SipResponse {
        status_code: code,
        reason_phrase: reason.to_vec(),
        headers,
        body: body.map(|b| b.to_vec()),
    }
}

#[test]
fn response_without_body_ends_in_one_blank_line() {
    let r = response(401, b"Unauthorized", &[(b"From", b"alice@example.com")], None);
    assert_eq!(
        r.serialize(),
        b"SIP/2.0 401 Unauthorized\r\nFrom: alice@example.com\r\n\r\n".to_vec()
    );
}

#[test]
fn response_without_headers_or_body() {
    let r = response(400, b"Bad Request", &[], None);
    assert_eq!(r.serialize(), b"SIP/2.0 400 Bad Request\r\n\r\n".to_vec());
}

#[test]
fn response_headers_come_out_in_insertion_order() {
    let r = response(
        200,
        b"OK",
        &[(b"Zeta", b"1"), (b"Alpha", b"2"), (b"Mid", b"3"), (b"Zeta", b"4")],
        Some(b"hello"),
    );
    assert_eq!(
        r.serialize(),
        b"SIP/2.0 200 OK\r\nZeta: 4\r\nAlpha: 2\r\nMid: 3\r\n\r\nhello".to_vec()
    );
}

#[test]
fn status_code_is_written_in_decimal() {
    assert_eq!(response(0, b"", &[], None).serialize(), b"SIP/2.0 0 \r\n\r\n".to_vec());
    assert_eq!(response(7, b"x", &[], None).serialize(), b"SIP/2.0 7 x\r\n\r\n".to_vec());
    assert_eq!(response(100, b"Trying", &[], None).serialize(), b"SIP/2.0 100 Trying\r\n\r\n".to_vec());
    assert_eq!(response(65535, b"Max", &[], None).serialize(), b"SIP/2.0 65535 Max\r\n\r\n".to_vec());
}

#[test]
fn response_parses() {
    let r = SipResponse::parse(b"SIP/2.0 486 Busy Here\r\nTo: bob\r\n\r\nlater").unwrap();
    assert_eq!(r.status_code, 486);
    assert_eq!(r.reason_phrase, b"Busy Here".to_vec());
    assert_eq!(r.headers.get(b"To").unwrap().as_slice(), b"bob");
    assert_eq!(r.body, Some(b"later".to_vec()));
}

#[test]
fn response_survives_serialise_then_parse() {
    for r in [
        response(401, b"Unauthorized", &[(b"From", b"alice@example.com"), (b"To", b"bob")], None),
        response(200, b"OK", &[], Some(b"body\r\n\r\nmore")),
        response(400, b"Bad Request", &[], None),
        response(699, b"", &[(b"X", b"")], Some(b"\r\n")),
        response(65535, b"Very  Odd Reason ", &[(b"A", b"1: 2")], None),
    ] {
        assert_eq!(SipResponse::parse(&r.serialize()), Ok(r));
    }
}

#[test]
fn empty_body_does_not_survive_as_present() {
    let r = response(200, b"OK", &[], Some(b""));
    assert_eq!(SipResponse::parse(&r.serialize()).unwrap().body, None);
}

#[test]
fn bad_status_lines_are_refused() {
    for bytes in [
        &b"SIP/2.0\r\n\r\n"[..],
        b"SIP/2.0 200\r\n\r\n",
        b"SIP/3.0 200 OK\r\n\r\n",
        b"sip/2.0 200 OK\r\n\r\n",
        b"SIP/2.0 2x0 OK\r\n\r\n",
        b"SIP/2.0  OK\r\n\r\n",
        b"SIP/2.0 65536 OK\r\n\r\n",
        b"SIP/2.0 -1 OK\r\n\r\n",
        b"REGISTER sip:example.com SIP/2.0\r\n\r\n",
    ] {
        assert_eq!(SipResponse::parse(bytes), Err(ParseError::MalformedRequestLine));
    }
    assert_eq!(SipResponse::parse(b""), Err(ParseError::EmptyMessage));
    assert_eq!(
        SipResponse::parse(b"SIP/2.0 200 OK\r\nnope\r\n\r\n"),
        Err(ParseError::MalformedHeader(b"nope".to_vec()))
    );
}

#[test]
fn status_code_with_leading_zeros_parses() {
    let r = SipResponse::parse(b"SIP/2.0 007 Bond\r\n\r\n").unwrap();
    assert_eq!(r.status_code, 7);
}
