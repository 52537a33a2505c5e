use chitko_sip::headers::Headers;
use chitko_sip::sip_parser::{ParseError, SipMessage, SipMessageType};

#[test]
fn register_request_parses() {
    let msg = SipMessage::new(
        b"REGISTER sip:example.com SIP/2.0\r\nFrom: alice@example.com\r\nTo: alice@example.com\r\n\r\n",
    )
    .unwrap();
    assert_eq!(msg.message_type, SipMessageType::REGISTER);
    assert_eq!(msg.headers.len(), 2);
    assert_eq!(msg.headers.get(b"From").unwrap().as_slice(), b"alice@example.com");
    assert_eq!(msg.headers.get(b"To").unwrap().as_slice(), b"alice@example.com");
    assert_eq!(msg.body, None);
}

#[test]
fn garbage_is_a_malformed_request_line() {
    assert_eq!(SipMessage::new(b"GARBAGE\r\n\r\n"), Err(ParseError::MalformedRequestLine));
}

#[test]
fn no_bytes_are_an_empty_message() {
    assert_eq!(SipMessage::new(b""), Err(ParseError::EmptyMessage));
}

#[test]
fn a_lone_blank_line_is_an_empty_message() {
    assert_eq!(SipMessage::new(b"\r\n\r\n"), Err(ParseError::EmptyMessage));
    assert_eq!(SipMessage::new(b"\r\n\r\nbody"), Err(ParseError::EmptyMessage));
}

#[test]
fn an_empty_first_line_is_a_malformed_request_line() {
    assert_eq!(
        SipMessage::new(b"\r\nFrom: a\r\n\r\n"),
        Err(ParseError::MalformedRequestLine)
    );
}

#[test]
fn request_line_needs_three_tokens() {
    assert_eq!(
        SipMessage::new(b"REGISTER sip:example.com\r\n\r\n"),
        Err(ParseError::MalformedRequestLine)
    );
    assert_eq!(
        SipMessage::new(b"REGISTER sip:example.com SIP/2.0 extra\r\n\r\n"),
        Err(ParseError::MalformedRequestLine)
    );
    assert_eq!(
        SipMessage::new(b"REGISTER  SIP/2.0\r\n\r\n"),
        Err(ParseError::MalformedRequestLine)
    );
    assert_eq!(
        SipMessage::new(b" sip:example.com SIP/2.0\r\n\r\n"),
        Err(ParseError::MalformedRequestLine)
    );
    assert_eq!(
        SipMessage::new(b"REGISTER sip:example.com \r\n\r\n"),
        Err(ParseError::MalformedRequestLine)
    );
}

#[test]
fn named_methods_are_recognised() {
    let invite = SipMessage::new(b"INVITE sip:bob@example.com SIP/2.0\r\n\r\n").unwrap();
    assert_eq!(invite.message_type, SipMessageType::INVITE);
    let ack = SipMessage::new(b"ACK sip:bob@example.com SIP/2.0\r\n\r\n").unwrap();
    assert_eq!(ack.message_type, SipMessageType::ACK);
    let register = SipMessage::new(b"REGISTER sip:example.com SIP/2.0\r\n\r\n").unwrap();
    assert_eq!(register.message_type, SipMessageType::REGISTER);
}

#[test]
fn unknown_method_is_kept_as_other() {
    let msg = SipMessage::new(b"OPTIONS sip:example.com SIP/2.0\r\n\r\n").unwrap();
    assert_eq!(msg.message_type, SipMessageType::OTHER(b"OPTIONS".to_vec()));
    let lower = SipMessage::new(b"register sip:example.com SIP/2.0\r\n\r\n").unwrap();
    assert_eq!(lower.message_type, SipMessageType::OTHER(b"register".to_vec()));
}

#[test]
fn header_without_separator_is_reported_with_its_line() {
    assert_eq!(
        SipMessage::new(b"REGISTER sip:example.com SIP/2.0\r\nFrom: a\r\nBroken\r\nTo: b\r\n\r\n"),
        Err(ParseError::MalformedHeader(b"Broken".to_vec()))
    );
    assert_eq!(
        SipMessage::new(b"REGISTER sip:example.com SIP/2.0\r\nFrom:a\r\n\r\n"),
        Err(ParseError::MalformedHeader(b"From:a".to_vec()))
    );
}

#[test]
fn first_malformed_header_is_the_one_reported() {
    assert_eq!(
        SipMessage::new(b"INVITE a b\r\nOne\r\nTwo\r\n\r\n"),
        Err(ParseError::MalformedHeader(b"One".to_vec()))
    );
}

#[test]
fn request_line_is_judged_before_headers() {
    assert_eq!(
        SipMessage::new(b"GARBAGE\r\nBroken\r\n\r\n"),
        Err(ParseError::MalformedRequestLine)
    );
}

#[test]
fn duplicate_header_last_value_wins_first_place_stays() {
    let msg = SipMessage::new(
        b"REGISTER sip:example.com SIP/2.0\r\nVia: one\r\nFrom: a\r\nVia: two\r\n\r\n",
    )
    .unwrap();
    assert_eq!(msg.headers.len(), 2);
    assert_eq!(msg.headers.name_at(0).as_slice(), b"Via");
    assert_eq!(msg.headers.value_at(0).as_slice(), b"two");
    assert_eq!(msg.headers.name_at(1).as_slice(), b"From");
    assert_eq!(msg.headers.value_at(1).as_slice(), b"a");
}

#[test]
fn header_names_are_case_sensitive_in_the_map() {
    let msg = SipMessage::new(b"REGISTER a b\r\nfrom: x\r\nFrom: y\r\n\r\n").unwrap();
    assert_eq!(msg.headers.len(), 2);
    assert_eq!(msg.headers.get(b"from").unwrap().as_slice(), b"x");
    assert_eq!(msg.headers.get(b"From").unwrap().as_slice(), b"y");
    assert_eq!(msg.headers.get(b"FROM"), None);
}

#[test]
fn header_is_cut_at_the_first_separator() {
    let msg = SipMessage::new(b"REGISTER a b\r\nSubject: re: hello\r\nEmpty: \r\n\r\n").unwrap();
    assert_eq!(msg.headers.get(b"Subject").unwrap().as_slice(), b"re: hello");
    assert_eq!(msg.headers.get(b"Empty").unwrap().as_slice(), b"");
}

#[test]
fn body_is_what_follows_the_blank_line() {
    let msg = SipMessage::new(b"INVITE a b\r\nContent-Length: 5\r\n\r\nhello").unwrap();
    assert_eq!(msg.body, Some(b"hello".to_vec()));
    let more = SipMessage::new(b"INVITE a b\r\n\r\nv=0\r\n\r\no=x").unwrap();
    assert_eq!(more.body, Some(b"v=0\r\n\r\no=x".to_vec()));
}

#[test]
fn empty_body_is_absent() {
    let msg = SipMessage::new(b"INVITE a b\r\nFrom: x\r\n\r\n").unwrap();
    assert_eq!(msg.body, None);
}

#[test]
fn without_blank_line_all_is_header_block() {
    let msg = SipMessage::new(b"INVITE a b\r\nFrom: x").unwrap();
    assert_eq!(msg.headers.get(b"From").unwrap().as_slice(), b"x");
    assert_eq!(msg.body, None);
    assert_eq!(
        SipMessage::new(b"INVITE a b\r\nFrom: x\r\n"),
        Err(ParseError::MalformedHeader(Vec::new()))
    );
}

#[test]
fn zero_header_message_has_an_empty_header_set() {
    let msg = SipMessage::new(b"ACK a b\r\n\r\n").unwrap();
    assert_eq!(msg.headers.len(), 0);
    assert_eq!(msg.headers, Headers::new());
}

#[test]
fn request_serialises_in_order() {
    let mut headers = Headers::new();
    headers.insert(b"To".to_vec(), b"bob".to_vec());
    headers.insert(b"From".to_vec(), b"alice".to_vec());
    let msg = SipMessage {
        message_type: SipMessageType::INVITE,
        headers,
        body: Some(b"v=0".to_vec()),
    };
    assert_eq!(
        msg.serialize(b"sip:bob@example.com"),
        b"INVITE sip:bob@example.com SIP/2.0\r\nTo: bob\r\nFrom: alice\r\n\r\nv=0".to_vec()
    );
}

#[test]
fn request_survives_serialise_then_parse() {
    let mut headers = Headers::new();
    headers.insert(b"Via".to_vec(), b"SIP/2.0/TCP host;branch=z9".to_vec());
    headers.insert(b"From".to_vec(), b"alice@example.com".to_vec());
    headers.insert(b"X-Note".to_vec(), b"a: b: c".to_vec());
    for (method, body) in [
        (SipMessageType::REGISTER, None),
        (SipMessageType::INVITE, Some(b"v=0\r\n\r\ns=-".to_vec())),
        (SipMessageType::ACK, Some(b"x".to_vec())),
        (SipMessageType::OTHER(b"SUBSCRIBE".to_vec()), None),
    ] {
        let msg = SipMessage { message_type: method, headers: headers.clone(), body };
        let wire = msg.serialize(b"sip:example.com");
        assert_eq!(SipMessage::new(&wire), Ok(msg));
    }
}

#[test]
fn other_token_of_a_named_method_does_not_survive() {
    let msg = SipMessage {
        message_type: SipMessageType::OTHER(b"ACK".to_vec()),
        headers: Headers::new(),
        body: None,
    };
    let back = SipMessage::new(&msg.serialize(b"sip:x")).unwrap();
    assert_eq!(back.message_type, SipMessageType::ACK);
}
