use chitko_sip::bytes::{append, equal, equal_ignore_case, find, matches_at, split_on, to_ascii_lower};
use chitko_sip::decimal::{parse_decimal, push_decimal};
use chitko_sip::headers::Headers;
use chitko_sip::listener::{Admission, Listener};
use chitko_sip::sip_parser::{method_from_token, push_method_token, request_line_method, SipMessageType};
use chitko_sip::wire::{block_lines, cut_message, fields_from_lines, header_from_line};

#[test]
fn find_gives_the_first_occurrence() {
    assert_eq!(find(b"a\r\nb\r\n", b"\r\n"), Some(1));
    assert_eq!(find(b"\r\n", b"\r\n"), Some(0));
    assert_eq!(find(b"ab\r", b"\r\n"), None);
    assert_eq!(find(b"", b"\r\n"), None);
    assert_eq!(find(b"aaa", b"aa"), Some(0));
    assert_eq!(find(b"\r\r\n\r\n", b"\r\n\r\n"), Some(1));
    assert_eq!(find(b"abc", b""), Some(0));
    assert!(matches_at(b"hello", b"llo", 2));
    assert!(!matches_at(b"hello", b"llo", 3));
    assert!(!matches_at(b"hello", b"lo", 9));
}

#[test]
fn split_on_keeps_empty_pieces() {
    let pieces = |s: &[u8], sep: &[u8]| split_on(s, sep);
    assert_eq!(pieces(b"a b c", b" "), vec![b"a".to_vec(), b"b".to_vec(), b"c".to_vec()]);
    assert_eq!(pieces(b"", b" "), vec![Vec::<u8>::new()]);
    assert_eq!(pieces(b" ", b" "), vec![Vec::<u8>::new(), Vec::new()]);
    assert_eq!(pieces(b"a  b", b" "), vec![b"a".to_vec(), Vec::new(), b"b".to_vec()]);
    assert_eq!(pieces(b"x\r\ny\r\n", b"\r\n"), vec![b"x".to_vec(), b"y".to_vec(), Vec::new()]);
    assert_eq!(pieces(b"aaa", b"aa"), vec![Vec::new(), b"a".to_vec()]);
}

#[test]
fn bytes_compare() {
    assert!(equal(b"abc", b"abc"));
    assert!(!equal(b"abc", b"abd"));
    assert!(!equal(b"abc", b"ab"));
    assert!(equal(b"", b""));
    assert!(equal_ignore_case(b"Content-Length", b"cONTENT-lENGTH"));
    assert!(!equal_ignore_case(b"Content-Length", b"Content_Length"));
    assert!(!equal_ignore_case(b"@", b"`"));
    assert!(!equal_ignore_case(b"[", b"{"));
    assert_eq!(to_ascii_lower(b'A'), b'a');
    assert_eq!(to_ascii_lower(b'Z'), b'z');
    assert_eq!(to_ascii_lower(b'a'), b'a');
    assert_eq!(to_ascii_lower(b'@'), b'@');
    assert_eq!(to_ascii_lower(b'['), b'[');
    assert_eq!(to_ascii_lower(200), 200);
    let mut v = b"ab".to_vec();
    append(&mut v, b"cd");
    assert_eq!(v, b"abcd".to_vec());
}

#[test]
fn decimal_numbers_parse() {
    assert_eq!(parse_decimal(b"0", 10), Some(0));
    assert_eq!(parse_decimal(b"10", 10), Some(10));
    assert_eq!(parse_decimal(b"11", 10), None);
    assert_eq!(parse_decimal(b"0010", 10), Some(10));
    assert_eq!(parse_decimal(b"", 10), None);
    assert_eq!(parse_decimal(b"1a", 10), None);
    assert_eq!(parse_decimal(b"/", 10), None);
    assert_eq!(parse_decimal(b":", 10), None);
    assert_eq!(parse_decimal(b"9", 5), None);
    assert_eq!(parse_decimal(b"18446744073709551615", u64::MAX), Some(u64::MAX));
    assert_eq!(parse_decimal(b"18446744073709551616", u64::MAX), None);
    assert_eq!(parse_decimal(b"99999999999999999999", u64::MAX), None);
    assert_eq!(parse_decimal(b"65535", 65535), Some(65535));
    assert_eq!(parse_decimal(b"65536", 65535), None);
}

#[test]
fn decimal_numbers_print() {
    for (n, text) in [
        (0u64, &b"0"[..]),
        (9, b"9"),
        (10, b"10"),
        (401, b"401"),
        (65535, b"65535"),
        (u64::MAX, b"18446744073709551615"),
    ] {
        let mut out = b"x".to_vec();
        push_decimal(&mut out, n);
        assert_eq!(&out[1..], text);
        assert_eq!(parse_decimal(&out[1..], u64::MAX), Some(n));
    }
}

#[test]
fn headers_keep_insertion_order() {
    let mut h = Headers::new();
    assert_eq!(h.len(), 0);
    h.insert(b"B".to_vec(), b"1".to_vec());
    h.insert(b"A".to_vec(), b"2".to_vec());
    h.insert(b"B".to_vec(), b"3".to_vec());
    h.insert(b"b".to_vec(), b"4".to_vec());
    assert_eq!(h.len(), 3);
    assert_eq!(h.name_at(0).as_slice(), b"B");
    assert_eq!(h.value_at(0).as_slice(), b"3");
    assert_eq!(h.name_at(1).as_slice(), b"A");
    assert_eq!(h.name_at(2).as_slice(), b"b");
    assert_eq!(h.get(b"B").unwrap().as_slice(), b"3");
    assert_eq!(h.get(b"b").unwrap().as_slice(), b"4");
    assert_eq!(h.get(b"C"), None);
    assert_eq!(h.get_ignore_case(b"B").unwrap().as_slice(), b"4");
    assert_eq!(h.get_ignore_case(b"a").unwrap().as_slice(), b"2");
    assert_eq!(h.get_ignore_case(b"c"), None);
    let copy = h.clone();
    assert_eq!(copy, h);
    h.insert(b"A".to_vec(), b"9".to_vec());
    assert_eq!(copy.get(b"A").unwrap().as_slice(), b"2");
}

#[test]
fn method_tokens() {
    assert_eq!(method_from_token(b"REGISTER"), SipMessageType::REGISTER);
    assert_eq!(method_from_token(b"INVITE"), SipMessageType::INVITE);
    assert_eq!(method_from_token(b"ACK"), SipMessageType::ACK);
    assert_eq!(method_from_token(b"Ack"), SipMessageType::OTHER(b"Ack".to_vec()));
    assert_eq!(method_from_token(b""), SipMessageType::OTHER(Vec::new()));
    assert_eq!(request_line_method(b"ACK a b"), Some(SipMessageType::ACK));
    assert_eq!(request_line_method(b"ACK a"), None);
    for m in [
        SipMessageType::REGISTER,
        SipMessageType::INVITE,
        SipMessageType::ACK,
        SipMessageType::OTHER(b"NOTIFY".to_vec()),
    ] {
        let mut out = Vec::new();
        push_method_token(&mut out, &m);
        assert_eq!(method_from_token(&out), m);
    }
}

#[test]
fn wire_pieces() {
    assert_eq!(header_from_line(b"A: b"), Some((b"A".to_vec(), b"b".to_vec())));
    assert_eq!(header_from_line(b": "), Some((Vec::new(), Vec::new())));
    assert_eq!(header_from_line(b"A:b"), None);
    assert_eq!(header_from_line(b"A :b"), None);
    let (block, body) = cut_message(b"head\r\n\r\nbody");
    assert_eq!(block, b"head");
    assert_eq!(body, Some(b"body".to_vec()));
    let (block, body) = cut_message(b"head\r\n");
    assert_eq!(block, b"head\r\n");
    assert_eq!(body, None);
    let lines = block_lines(b"first\r\nA: 1\r\nB: 2");
    assert_eq!(lines.len(), 3);
    let fields = fields_from_lines(&lines).unwrap();
    assert_eq!(fields.len(), 2);
    assert_eq!(fields.get(b"B").unwrap().as_slice(), b"2");
    assert_eq!(fields_from_lines(&block_lines(b"first\r\nA: 1\r\nB")), Err(b"B".to_vec()));
}

#[test]
fn listener_serves_up_to_its_bound() {
    let mut l = Listener::new(2);
    assert!(l.is_accepting());
    assert_eq!(l.on_accept(), Admission::Serve);
    assert_eq!(l.on_accept(), Admission::Serve);
    assert_eq!(l.open_connections(), 2);
    assert_eq!(l.on_accept(), Admission::Refuse);
    assert_eq!(l.open_connections(), 2);
    l.on_connection_end();
    assert_eq!(l.open_connections(), 1);
    assert_eq!(l.on_accept(), Admission::Serve);
    l.on_connection_end();
    l.on_connection_end();
    l.on_connection_end();
    assert_eq!(l.open_connections(), 0);
}

#[test]
fn listener_stops_accepting_on_shutdown() {
    let mut l = Listener::new(8);
    assert_eq!(l.on_accept(), Admission::Serve);
    l.shutdown();
    assert!(!l.is_accepting());
    assert_eq!(l.on_accept(), Admission::Refuse);
    assert_eq!(l.open_connections(), 1);
    l.on_connection_end();
    assert_eq!(l.open_connections(), 0);
    assert_eq!(Listener::new(0).on_accept(), Admission::Refuse);
}
