//! The response message and its wire form.

use crate::bytes::{append, equal, find, first_occurrence, lemma_search_from, views};
use crate::decimal::{decimal_digits, decimal_value, is_decimal, parse_decimal, push_decimal};
use crate::headers::{distinct_names, Fields, Headers};
use crate::sip_parser::{Malformed, ParseError};
use crate::wire::{
    block_lines, body_view, cut, cut_message, fields_from_lines, fields_of, lemma_collect_distinct,
    lines_of, push_fields_and_body, sip_version, space, wire_form, SP,
};
use vstd::prelude::*;
use vstd::slice::{slice_subrange, slice_to_vec};

verus! {

/// A response: status, reason, header fields and an optional body.
#[derive(Debug, Clone, PartialEq, Eq)]
pub struct SipResponse {
    pub status_code: u16,
    pub reason_phrase: Vec<u8>,
    pub headers: Headers,
    pub body: Option<Vec<u8>>,
}

/// A response as a mathematical value.
pub struct Response {
    pub status_code: nat,
    pub reason_phrase: Seq<u8>,
    pub headers: Fields,
    pub body: Option<Seq<u8>>,
}

impl View for SipResponse {
    type V = Response;

    open spec fn view(&self) -> Response {
        Response {
            status_code: self.status_code as nat,
            reason_phrase: self.reason_phrase@,
            headers: self.headers@,
            body: body_view(self.body),
        }
    }
}

/// The status line without its line terminator:
/// `SIP/2.0 SP code SP reason`.
pub open spec fn status_line(code: nat, reason: Seq<u8>) -> Seq<u8> {
    sip_version() + space() + decimal_digits(code) + space() + reason
}

/// The wire form of a response.
pub open spec fn serialize_response(r: Response) -> Seq<u8> {
    wire_form(status_line(r.status_code, r.reason_phrase), r.headers, r.body)
}

/// The status code and reason phrase of a status line, or `None` where the
/// line is not `SIP/2.0 SP code SP reason` with a decimal code of at most
/// 65535. The reason phrase is everything after the second space.
pub open spec fn parse_status_line(line: Seq<u8>) -> Option<(nat, Seq<u8>)> {
    match first_occurrence(line, space()) {
        Some(i) if line.subrange(0, i) == sip_version() => {
            let rest = line.subrange(i + 1, line.len() as int);
            match first_occurrence(rest, space()) {
                Some(j) => {
                    let digits = rest.subrange(0, j);
                    if is_decimal(digits) && decimal_value(digits) <= u16::MAX {
                        Some((decimal_value(digits), rest.subrange(j + 1, rest.len() as int)))
                    } else {
                        None
                    }
                },
                None => None,
            }
        },
        _ => None,
    }
}

/// What a byte sequence means as a response.
///
/// The bytes are cut as a request's are. An empty header block is
/// `EmptyMessage`, a first line that is no status line is reported as a
/// malformed first line, and a later line without `": "` as a malformed
/// header.
pub open spec fn parse_response(bytes: Seq<u8>) -> Result<Response, Malformed> {
    let (block, body) = cut(bytes);
    if block.len() == 0 {
        Err(Malformed::EmptyMessage)
    } else {
        let lines = lines_of(block);
        match parse_status_line(lines[0]) {
            None => Err(Malformed::RequestLine),
            Some((status_code, reason_phrase)) => match fields_of(lines) {
                Err(line) => Err(Malformed::Header(line)),
                Ok(headers) => Ok(Response { status_code, reason_phrase, headers, body }),
            },
        }
    }
}

/// Every response that the parser gives has a status code of at most
/// 65535, header fields with distinct names, and a body only where the body
/// is not empty.
pub proof fn lemma_parsed_response(bytes: Seq<u8>)
    ensures
        parse_response(bytes) matches Ok(r) ==> r.status_code <= u16::MAX && distinct_names(
            r.headers,
        ) && (r.body matches Some(b) ==> b.len() > 0),
{
    let lines = lines_of(cut(bytes).0);
    lemma_collect_distinct(lines.skip(1), Seq::empty());
}

/// Reads status code and reason phrase off a status line.
pub fn status_from_line(line: &[u8]) -> (r: Option<(u16, Vec<u8>)>)
    ensures
        match r {
            Some((code, reason)) => parse_status_line(line@) == Some((code as nat, reason@)),
            None => parse_status_line(line@) is None,
        },
{
    let version: [u8; 7] = [83, 73, 80, 47, 50, 46, 48];
    let sp: [u8; 1] = [SP];
    proof {
        assert(version@ =~= sip_version());
        assert(sp@ =~= space());
        assert(space().len() == 1);
    }
    let len = line.len();
    let i = match find(line, sp.as_slice()) {
        Some(i) => i,
        None => {
            return None;
        },
    };
    proof {
        lemma_search_from(line@, space(), 0);
    }
    if !equal(slice_subrange(line, 0, i), version.as_slice()) {
        return None;
    }
    let rest = slice_subrange(line, i + 1, len);
    let j = match find(rest, sp.as_slice()) {
        Some(j) => j,
        None => {
            return None;
        },
    };
    proof {
        lemma_search_from(rest@, space(), 0);
    }
    let rest_len = rest.len();
    match parse_decimal(slice_subrange(rest, 0, j), 65535) {
        Some(code) => Some((code as u16, slice_to_vec(slice_subrange(rest, j + 1, rest_len)))),
        None => None,
    }
}

impl SipResponse {
    /// Parses a response.
    ///
    /// The result is what `parse_response` gives for the bytes.
    pub fn parse(bytes: &[u8]) -> (r: Result<SipResponse, ParseError>)
        ensures
            match r {
                Ok(resp) => parse_response(bytes@) == Ok::<_, Malformed>(resp@)
                    && resp.headers.wf(),
                Err(e) => parse_response(bytes@) == Err::<Response, _>(e@),
            },
    {
        let (block, body) = cut_message(bytes);
        if block.len() == 0 {
            return Err(ParseError::EmptyMessage);
        }
        let lines = block_lines(block);
        proof {
            assert(views(lines@)[0] == lines@[0]@);
        }
        let (status_code, reason_phrase) = match status_from_line(lines[0].as_slice()) {
            Some(status) => status,
            None => {
                return Err(ParseError::MalformedRequestLine);
            },
        };
        match fields_from_lines(&lines) {
            Ok(headers) => Ok(SipResponse { status_code, reason_phrase, headers, body }),
            Err(line) => Err(ParseError::MalformedHeader(line)),
        }
    }

    /// The wire form of the response: status line, header lines in
    /// insertion order, exactly one blank line, then the body if any.
    pub fn serialize(&self) -> (out: Vec<u8>)
        ensures
            out@ == serialize_response(self@),
    {
        let version: [u8; 7] = [83, 73, 80, 47, 50, 46, 48];
        let sp: [u8; 1] = [SP];
        proof {
            assert(version@ =~= sip_version());
            assert(sp@ =~= space());
        }
        let mut out: Vec<u8> = Vec::new();
        append(&mut out, version.as_slice());
        append(&mut out, sp.as_slice());
        push_decimal(&mut out, self.status_code as u64);
        append(&mut out, sp.as_slice());
        append(&mut out, self.reason_phrase.as_slice());
        proof {
            assert(out@ =~= status_line(self.status_code as nat, self.reason_phrase@));
        }
        push_fields_and_body(&mut out, &self.headers, &self.body);
        out
    }
}

} // verus!
