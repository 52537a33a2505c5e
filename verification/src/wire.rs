//! The layout that requests and responses share on the wire: a first line,
//! header lines, a blank line and a body.

use crate::bytes::{
    append, find, first_occurrence, lemma_search_from, lemma_split_nonempty, split, split_on,
    views,
};
use crate::headers::{distinct_names, lemma_put, put, Fields, Headers};
use vstd::prelude::*;
use vstd::slice::{slice_subrange, slice_to_vec};

verus! {

/// Carriage return.
pub const CR: u8 = 13;

/// Line feed.
pub const LF: u8 = 10;

/// Space.
pub const SP: u8 = 32;

/// Colon.
pub const COLON: u8 = 58;

/// The line terminator, CR LF.
pub open spec fn crlf() -> Seq<u8> {
    seq![CR, LF]
}

/// The blank line that ends the header block, CR LF CR LF.
pub open spec fn blank_line() -> Seq<u8> {
    seq![CR, LF, CR, LF]
}

/// The separator between a header's name and its value, `": "`.
pub open spec fn colon_space() -> Seq<u8> {
    seq![COLON, SP]
}

/// A single space.
pub open spec fn space() -> Seq<u8> {
    seq![SP]
}

/// The protocol version, `SIP/2.0`.
pub open spec fn sip_version() -> Seq<u8> {
    seq![83u8, 73u8, 80u8, 47u8, 50u8, 46u8, 48u8]
}

/// The view of an optional byte vector.
pub open spec fn body_view(body: Option<Vec<u8>>) -> Option<Seq<u8>> {
    match body {
        Some(b) => Some(b@),
        None => None,
    }
}

/// The body that follows the blank line: absent where nothing follows.
pub open spec fn parse_body(rest: Seq<u8>) -> Option<Seq<u8>> {
    if rest.len() == 0 {
        None
    } else {
        Some(rest)
    }
}

/// The header block and the body of a message: the bytes before the first
/// blank line and those after it. Without a blank line all bytes are the
/// header block and there is no body.
pub open spec fn cut(bytes: Seq<u8>) -> (Seq<u8>, Option<Seq<u8>>) {
    match first_occurrence(bytes, blank_line()) {
        Some(i) => (bytes.subrange(0, i), parse_body(bytes.subrange(i + 4, bytes.len() as int))),
        None => (bytes, None),
    }
}

/// The lines of a header block.
pub open spec fn lines_of(block: Seq<u8>) -> Seq<Seq<u8>> {
    split(block, crlf())
}

/// The name and value of a header line, cut at the first `": "`.
pub open spec fn parse_header_line(line: Seq<u8>) -> Option<(Seq<u8>, Seq<u8>)> {
    match first_occurrence(line, colon_space()) {
        Some(i) => Some((line.subrange(0, i), line.subrange(i + 2, line.len() as int))),
        None => None,
    }
}

/// The fields got by storing each header line of `lines` in turn on top of
/// `acc`, or the first line that is not a header line.
pub open spec fn collect_headers(lines: Seq<Seq<u8>>, acc: Fields) -> Result<Fields, Seq<u8>>
    decreases lines.len(),
{
    if lines.len() == 0 {
        Ok(acc)
    } else {
        match parse_header_line(lines[0]) {
            Some((name, value)) => collect_headers(lines.skip(1), put(acc, name, value)),
            None => Err(lines[0]),
        }
    }
}

/// The header fields of a block whose lines are `lines`: every line after
/// the first is a header line.
pub open spec fn fields_of(lines: Seq<Seq<u8>>) -> Result<Fields, Seq<u8>> {
    collect_headers(lines.skip(1), Seq::empty())
}

/// Header lines stored on top of fields with distinct names give fields
/// with distinct names.
pub proof fn lemma_collect_distinct(lines: Seq<Seq<u8>>, acc: Fields)
    requires
        distinct_names(acc),
    ensures
        collect_headers(lines, acc) matches Ok(hs) ==> distinct_names(hs),
    decreases lines.len(),
{
    if lines.len() > 0 {
        match parse_header_line(lines[0]) {
            Some((name, value)) => {
                lemma_put(acc, name, value);
                lemma_collect_distinct(lines.skip(1), put(acc, name, value));
            },
            None => {},
        }
    }
}

/// One header line without its line terminator: `name: value`.
pub open spec fn header_line(field: (Seq<u8>, Seq<u8>)) -> Seq<u8> {
    field.0 + colon_space() + field.1
}

/// Every header line in insertion order, each followed by CR LF.
pub open spec fn header_section(hs: Fields) -> Seq<u8>
    decreases hs.len(),
{
    if hs.len() == 0 {
        Seq::empty()
    } else {
        header_section(hs.drop_last()) + header_line(hs.last()) + crlf()
    }
}

/// The bytes of an optional body.
pub open spec fn body_bytes(body: Option<Seq<u8>>) -> Seq<u8> {
    match body {
        Some(b) => b,
        None => Seq::empty(),
    }
}

/// The wire form of a message with the given first line: the first line,
/// the header lines, one blank line, then the body.
pub open spec fn wire_form(first_line: Seq<u8>, hs: Fields, body: Option<Seq<u8>>) -> Seq<u8> {
    first_line + crlf() + header_section(hs) + crlf() + body_bytes(body)
}

/// Cuts a message at its first blank line into header block and body.
pub fn cut_message(bytes: &[u8]) -> (r: (&[u8], Option<Vec<u8>>))
    ensures
        (r.0@, body_view(r.1)) == cut(bytes@),
{
    let end: [u8; 4] = [CR, LF, CR, LF];
    proof {
        assert(end@ =~= blank_line());
    }
    let len = bytes.len();
    match find(bytes, end.as_slice()) {
        Some(i) => {
            proof {
                lemma_search_from(bytes@, blank_line(), 0);
                assert(blank_line().len() == 4);
            }
            let body = if i + 4 < len {
                Some(slice_to_vec(slice_subrange(bytes, i + 4, len)))
            } else {
                None
            };
            (slice_subrange(bytes, 0, i), body)
        },
        None => (bytes, None),
    }
}

/// Splits a header block into its lines. There is always a first line.
pub fn block_lines(block: &[u8]) -> (lines: Vec<Vec<u8>>)
    ensures
        views(lines@) == lines_of(block@),
        lines@.len() > 0,
{
    let eol: [u8; 2] = [CR, LF];
    proof {
        assert(eol@ =~= crlf());
        lemma_split_nonempty(block@, crlf());
    }
    let lines = split_on(block, eol.as_slice());
    proof {
        assert(views(lines@).len() == lines@.len());
    }
    lines
}

/// Cuts a header line at its first `": "` into name and value.
pub fn header_from_line(line: &[u8]) -> (r: Option<(Vec<u8>, Vec<u8>)>)
    ensures
        match r {
            Some((name, value)) => parse_header_line(line@) == Some((name@, value@)),
            None => parse_header_line(line@) is None,
        },
{
    let sep: [u8; 2] = [COLON, SP];
    proof {
        assert(sep@ =~= colon_space());
    }
    match find(line, sep.as_slice()) {
        Some(i) => {
            proof {
                lemma_search_from(line@, colon_space(), 0);
                assert(colon_space().len() == 2);
            }
            let end = line.len();
            let name = slice_to_vec(slice_subrange(line, 0, i));
            let value = slice_to_vec(slice_subrange(line, i + 2, end));
            Some((name, value))
        },
        None => None,
    }
}

/// Reads the header fields off the lines of a block, skipping the first
/// line. The error is the first line that is not a header line.
pub fn fields_from_lines(lines: &Vec<Vec<u8>>) -> (r: Result<Headers, Vec<u8>>)
    requires
        lines@.len() > 0,
    ensures
        match r {
            Ok(headers) => fields_of(views(lines@)) == Ok::<Fields, Seq<u8>>(headers@)
                && headers.wf(),
            Err(line) => fields_of(views(lines@)) == Err::<Fields, Seq<u8>>(line@),
        },
{
    let ghost all = views(lines@);
    let mut headers = Headers::new();
    let mut k: usize = 1;
    proof {
        assert(all.skip(1) =~= all.skip(k as int));
    }
    while k < lines.len()
        invariant
            1 <= k <= lines.len(),
            all == views(lines@),
            headers.wf(),
            fields_of(all) == collect_headers(all.skip(k as int), headers@),
        decreases lines.len() - k,
    {
        proof {
            assert(all.skip(k as int)[0] == lines@[k as int]@);
            assert(all.skip(k as int).skip(1) =~= all.skip(k + 1));
        }
        match header_from_line(lines[k].as_slice()) {
            Some((name, value)) => {
                headers.insert(name, value);
            },
            None => {
                return Err(slice_to_vec(lines[k].as_slice()));
            },
        }
        k += 1;
    }
    Ok(headers)
}

/// Appends the header lines, the blank line and the body to a first line
/// already in `out`.
pub fn push_fields_and_body(out: &mut Vec<u8>, headers: &Headers, body: &Option<Vec<u8>>)
    ensures
        final(out)@ == wire_form(old(out)@, headers@, body_view(*body)),
{
    let eol: [u8; 2] = [CR, LF];
    let sep: [u8; 2] = [COLON, SP];
    proof {
        assert(eol@ =~= crlf());
        assert(sep@ =~= colon_space());
    }
    append(out, eol.as_slice());
    let n = headers.len();
    let mut i: usize = 0;
    proof {
        assert(headers@.take(0) =~= Seq::empty());
    }
    while i < n
        invariant
            i <= n,
            n == headers@.len(),
            eol@ == crlf(),
            sep@ == colon_space(),
            out@ == old(out)@ + crlf() + header_section(headers@.take(i as int)),
        decreases n - i,
    {
        proof {
            let next = headers@.take(i + 1);
            assert(next.drop_last() =~= headers@.take(i as int));
            assert(next.last() == headers@[i as int]);
        }
        let ghost before = out@;
        append(out, headers.name_at(i).as_slice());
        append(out, sep.as_slice());
        append(out, headers.value_at(i).as_slice());
        append(out, eol.as_slice());
        proof {
            assert(out@ =~= before + header_line(headers@[i as int]) + crlf());
            assert(out@ =~= old(out)@ + crlf() + header_section(headers@.take(i + 1)));
        }
        i += 1;
    }
    proof {
        assert(headers@.take(n as int) =~= headers@);
    }
    append(out, eol.as_slice());
    match body {
        Some(b) => {
            append(out, b.as_slice());
        },
        None => {
            assert(out@ =~= out@ + Seq::<u8>::empty());
        },
    }
}

} // verus!
