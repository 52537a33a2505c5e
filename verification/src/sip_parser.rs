//! The request message and its parser.

use crate::bytes::{
    append, contains, equal, lemma_first_occurrence_none, split, split_on, views,
};
use crate::headers::{distinct_names, Fields, Headers};
use crate::wire::{
    block_lines, body_view, cut, cut_message, fields_from_lines, fields_of, lemma_collect_distinct,
    lines_of, push_fields_and_body, sip_version, space, wire_form, SP,
};
use vstd::prelude::*;
use vstd::slice::slice_to_vec;

verus! {

/// The method of a request. A token outside the named set is kept as it was
/// received, so extension methods are never rejected.
#[allow(non_camel_case_types)]
#[derive(Debug, Clone, PartialEq, Eq)]
pub enum SipMessageType {
    REGISTER,
    INVITE,
    ACK,
    OTHER(Vec<u8>),
}

/// A method as a mathematical value.
pub enum Method {
    Register,
    Invite,
    Ack,
    Other(Seq<u8>),
}

impl View for SipMessageType {
    type V = Method;

    open spec fn view(&self) -> Method {
        match self {
            SipMessageType::REGISTER => Method::Register,
            SipMessageType::INVITE => Method::Invite,
            SipMessageType::ACK => Method::Ack,
            SipMessageType::OTHER(t) => Method::Other(t@),
        }
    }
}

/// Why a byte sequence is not a request.
#[derive(Debug, Clone, PartialEq, Eq)]
pub enum ParseError {
    /// There is nothing before the blank line, not even a request line.
    EmptyMessage,
    /// The first line is not `METHOD SP Request-URI SP SIP-Version` or,
    /// where a response is read, not a status line.
    MalformedRequestLine,
    /// A header line, given here, lacks the `": "` separator, or a
    /// `Content-Length` field, given here as a line, is not a number.
    MalformedHeader(Vec<u8>),
}

/// A parse error as a mathematical value.
pub enum Malformed {
    EmptyMessage,
    RequestLine,
    Header(Seq<u8>),
}

impl View for ParseError {
    type V = Malformed;

    open spec fn view(&self) -> Malformed {
        match self {
            ParseError::EmptyMessage => Malformed::EmptyMessage,
            ParseError::MalformedRequestLine => Malformed::RequestLine,
            ParseError::MalformedHeader(line) => Malformed::Header(line@),
        }
    }
}

/// A request: its method, its header fields and its body, if it has one.
#[derive(Debug, Clone, PartialEq, Eq)]
pub struct SipMessage {
    pub message_type: SipMessageType,
    pub headers: Headers,
    pub body: Option<Vec<u8>>,
}

/// A request as a mathematical value.
pub struct Request {
    pub method: Method,
    pub headers: Fields,
    pub body: Option<Seq<u8>>,
}

impl View for SipMessage {
    type V = Request;

    open spec fn view(&self) -> Request {
        Request {
            method: self.message_type@,
            headers: self.headers@,
            body: body_view(self.body),
        }
    }
}

/// The token `REGISTER`.
pub open spec fn register_token() -> Seq<u8> {
    seq![82u8, 69u8, 71u8, 73u8, 83u8, 84u8, 69u8, 82u8]
}

/// The token `INVITE`.
pub open spec fn invite_token() -> Seq<u8> {
    seq![73u8, 78u8, 86u8, 73u8, 84u8, 69u8]
}

/// The token `ACK`.
pub open spec fn ack_token() -> Seq<u8> {
    seq![65u8, 67u8, 75u8]
}

/// The method that a token names.
pub open spec fn method_of_token(token: Seq<u8>) -> Method {
    if token == register_token() {
        Method::Register
    } else if token == invite_token() {
        Method::Invite
    } else if token == ack_token() {
        Method::Ack
    } else {
        Method::Other(token)
    }
}

/// The token that names a method.
pub open spec fn token_of_method(method: Method) -> Seq<u8> {
    match method {
        Method::Register => register_token(),
        Method::Invite => invite_token(),
        Method::Ack => ack_token(),
        Method::Other(t) => t,
    }
}

/// The method of a request line, or `None` where the line does not consist
/// of exactly three non-empty tokens with single spaces between them.
pub open spec fn parse_request_line(line: Seq<u8>) -> Option<Method> {
    let parts = split(line, space());
    if parts.len() == 3 && parts[0].len() > 0 && parts[1].len() > 0 && parts[2].len() > 0 {
        Some(method_of_token(parts[0]))
    } else {
        None
    }
}

/// The method and fields of a header block: everything of a message before
/// its blank line. The request line is judged first, then the header lines
/// in order.
pub open spec fn parse_head(block: Seq<u8>) -> Result<(Method, Fields), Malformed> {
    if block.len() == 0 {
        Err(Malformed::EmptyMessage)
    } else {
        let lines = lines_of(block);
        match parse_request_line(lines[0]) {
            None => Err(Malformed::RequestLine),
            Some(method) => match fields_of(lines) {
                Err(line) => Err(Malformed::Header(line)),
                Ok(headers) => Ok((method, headers)),
            },
        }
    }
}

/// What a byte sequence means as a request.
///
/// The bytes are cut at the first blank line into a header block and a
/// body; without a blank line all of them are the header block.
pub open spec fn parse_message(bytes: Seq<u8>) -> Result<Request, Malformed> {
    let (block, body) = cut(bytes);
    match parse_head(block) {
        Ok((method, headers)) => Ok(Request { method, headers, body }),
        Err(e) => Err(e),
    }
}

/// Every request that the parser gives has header fields with distinct
/// names, and a body only where the body is not empty.
pub proof fn lemma_parsed_request(bytes: Seq<u8>)
    ensures
        parse_message(bytes) matches Ok(r) ==> distinct_names(r.headers) && (r.body matches Some(
            b,
        ) ==> b.len() > 0),
{
    let lines = lines_of(cut(bytes).0);
    lemma_collect_distinct(lines.skip(1), Seq::empty());
}

/// Bytes whose first line holds no space are no request: they are refused
/// for their request line or, where the header block is empty, as an empty
/// message.
pub proof fn lemma_first_line_without_space(bytes: Seq<u8>)
    requires
        !contains(lines_of(cut(bytes).0)[0], space()),
    ensures
        parse_message(bytes) == Err::<Request, Malformed>(
            if cut(bytes).0.len() == 0 {
                Malformed::EmptyMessage
            } else {
                Malformed::RequestLine
            },
        ),
{
    let line = lines_of(cut(bytes).0)[0];
    lemma_first_occurrence_none(line, space());
}

/// The request line for `method` and `uri`, without its line terminator:
/// `METHOD SP uri SP SIP/2.0`.
pub open spec fn request_line(method: Method, uri: Seq<u8>) -> Seq<u8> {
    token_of_method(method) + space() + uri + space() + sip_version()
}

/// The wire form of a request sent to `uri`.
pub open spec fn serialize_request(r: Request, uri: Seq<u8>) -> Seq<u8> {
    wire_form(request_line(r.method, uri), r.headers, r.body)
}

/// Maps a method token to its method.
pub fn method_from_token(token: &[u8]) -> (r: SipMessageType)
    ensures
        r@ == method_of_token(token@),
{
    let register: [u8; 8] = [82, 69, 71, 73, 83, 84, 69, 82];
    let invite: [u8; 6] = [73, 78, 86, 73, 84, 69];
    let ack: [u8; 3] = [65, 67, 75];
    proof {
        assert(register@ =~= register_token());
        assert(invite@ =~= invite_token());
        assert(ack@ =~= ack_token());
    }
    if equal(token, register.as_slice()) {
        SipMessageType::REGISTER
    } else if equal(token, invite.as_slice()) {
        SipMessageType::INVITE
    } else if equal(token, ack.as_slice()) {
        SipMessageType::ACK
    } else {
        SipMessageType::OTHER(slice_to_vec(token))
    }
}

/// Reads the method off a request line.
pub fn request_line_method(line: &[u8]) -> (r: Option<SipMessageType>)
    ensures
        match r {
            Some(m) => parse_request_line(line@) == Some(m@),
            None => parse_request_line(line@) is None,
        },
{
    let sp: [u8; 1] = [SP];
    proof {
        assert(sp@ =~= space());
    }
    let parts = split_on(line, sp.as_slice());
    proof {
        assert(views(parts@).len() == parts@.len());
    }
    if parts.len() != 3 {
        return None;
    }
    proof {
        assert(views(parts@)[0] == parts@[0]@);
        assert(views(parts@)[1] == parts@[1]@);
        assert(views(parts@)[2] == parts@[2]@);
    }
    if parts[0].len() == 0 || parts[1].len() == 0 || parts[2].len() == 0 {
        return None;
    }
    Some(method_from_token(parts[0].as_slice()))
}

/// Parses a header block: the request line and the header lines after it.
pub fn parse_head_bytes(block: &[u8]) -> (r: Result<(SipMessageType, Headers), ParseError>)
    ensures
        match r {
            Ok((method, headers)) => parse_head(block@) == Ok::<_, Malformed>(
                (method@, headers@),
            ) && headers.wf(),
            Err(e) => parse_head(block@) == Err::<(Method, Fields), _>(e@),
        },
{
    if block.len() == 0 {
        return Err(ParseError::EmptyMessage);
    }
    let lines = block_lines(block);
    proof {
        assert(views(lines@)[0] == lines@[0]@);
    }
    let method = match request_line_method(lines[0].as_slice()) {
        Some(m) => m,
        None => {
            return Err(ParseError::MalformedRequestLine);
        },
    };
    match fields_from_lines(&lines) {
        Ok(headers) => Ok((method, headers)),
        Err(line) => Err(ParseError::MalformedHeader(line)),
    }
}

/// Appends the token that names `method` to `out`.
pub fn push_method_token(out: &mut Vec<u8>, method: &SipMessageType)
    ensures
        final(out)@ == old(out)@ + token_of_method(method@),
{
    let register: [u8; 8] = [82, 69, 71, 73, 83, 84, 69, 82];
    let invite: [u8; 6] = [73, 78, 86, 73, 84, 69];
    let ack: [u8; 3] = [65, 67, 75];
    proof {
        assert(register@ =~= register_token());
        assert(invite@ =~= invite_token());
        assert(ack@ =~= ack_token());
    }
    match method {
        SipMessageType::REGISTER => append(out, register.as_slice()),
        SipMessageType::INVITE => append(out, invite.as_slice()),
        SipMessageType::ACK => append(out, ack.as_slice()),
        SipMessageType::OTHER(token) => append(out, token.as_slice()),
    }
}

impl SipMessage {
    /// Parses a request.
    ///
    /// The result is what `parse_message` gives for the bytes: the request,
    /// or the first thing that is wrong with them.
    pub fn new(msg: &[u8]) -> (r: Result<SipMessage, ParseError>)
        ensures
            match r {
                Ok(m) => parse_message(msg@) == Ok::<_, Malformed>(m@) && m.headers.wf(),
                Err(e) => parse_message(msg@) == Err::<Request, _>(e@),
            },
    {
        let (block, body) = cut_message(msg);
        match parse_head_bytes(block) {
            Ok((message_type, headers)) => Ok(SipMessage { message_type, headers, body }),
            Err(e) => Err(e),
        }
    }

    /// The wire form of the request when sent to `uri`: request line,
    /// header lines in insertion order, one blank line, then the body if
    /// any.
    pub fn serialize(&self, uri: &[u8]) -> (out: Vec<u8>)
        ensures
            out@ == serialize_request(self@, uri@),
    {
        let version: [u8; 7] = [83, 73, 80, 47, 50, 46, 48];
        let sp: [u8; 1] = [SP];
        proof {
            assert(version@ =~= sip_version());
            assert(sp@ =~= space());
        }
        let mut out: Vec<u8> = Vec::new();
        push_method_token(&mut out, &self.message_type);
        append(&mut out, sp.as_slice());
        append(&mut out, uri);
        append(&mut out, sp.as_slice());
        append(&mut out, version.as_slice());
        proof {
            assert(out@ =~= request_line(self.message_type@, uri@));
        }
        push_fields_and_body(&mut out, &self.headers, &self.body);
        out
    }
}

} // verus!
