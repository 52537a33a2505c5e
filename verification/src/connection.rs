//! One connection: cutting the byte stream into messages and answering
//! each of them.

use crate::bytes::{
    append, find, first_occurrence, lemma_first_occurrence_is, lemma_search_from, occurs_at, views,
};
use crate::decimal::{decimal_value, is_decimal, parse_decimal};
use crate::headers::{lookup_ignore_case, Fields, Headers};
use crate::policy::{dispatch, dispatch_decision, MethodPolicy};
use crate::response::{serialize_response, Response, SipResponse};
use crate::sip_parser::{
    parse_head, parse_head_bytes, parse_message, Malformed, ParseError, Request, SipMessage,
};
use crate::wire::{blank_line, colon_space, parse_body, COLON, CR, LF, SP};
use vstd::prelude::*;
use vstd::slice::{slice_subrange, slice_to_vec};

verus! {

/// The header name `Content-Length`.
pub open spec fn content_length_name() -> Seq<u8> {
    seq![
        67u8,
        111u8,
        110u8,
        116u8,
        101u8,
        110u8,
        116u8,
        45u8,
        76u8,
        101u8,
        110u8,
        103u8,
        116u8,
        104u8,
    ]
}

/// The line under which a bad `Content-Length` value is reported.
pub open spec fn content_length_line(value: Seq<u8>) -> Seq<u8> {
    content_length_name() + colon_space() + value
}

/// The body length that the header fields declare: zero without a
/// `Content-Length` field, else the field's value read as a decimal number
/// that fits in 64 bits. A value that is no such number gives the field back
/// as a line.
pub open spec fn declared_length(hs: Fields) -> Result<nat, Seq<u8>> {
    match lookup_ignore_case(hs, content_length_name()) {
        None => Ok(0),
        Some(v) => if is_decimal(v) && decimal_value(v) <= u64::MAX {
            Ok(decimal_value(v))
        } else {
            Err(content_length_line(v))
        },
    }
}

/// One message cut off the front of a byte stream.
pub struct Frame {
    /// The number of bytes that the message occupies.
    pub len: int,
    /// What the message is, or what is wrong with it.
    pub parsed: Result<Request, Malformed>,
}

/// The first message at the front of `buf`, or `None` while the buffer does
/// not yet hold a whole message.
///
/// A message is whole once its blank line has arrived and, after it, as many
/// body bytes as its header fields declare. A header block that does not
/// parse, or that declares no usable length, ends at its blank line.
pub open spec fn next_frame(buf: Seq<u8>) -> Option<Frame> {
    match first_occurrence(buf, blank_line()) {
        None => None,
        Some(h) => match parse_head(buf.subrange(0, h)) {
            Err(e) => Some(Frame { len: h + 4, parsed: Err(e) }),
            Ok((method, headers)) => match declared_length(headers) {
                Err(line) => Some(Frame { len: h + 4, parsed: Err(Malformed::Header(line)) }),
                Ok(n) => if h + 4 + n <= buf.len() {
                    let body = parse_body(buf.subrange(h + 4, h + 4 + n));
                    Some(Frame { len: h + 4 + n, parsed: Ok(Request { method, headers, body }) })
                } else {
                    None
                },
            },
        },
    }
}

/// A frame is never empty and never longer than the buffer.
pub proof fn lemma_next_frame_bounds(buf: Seq<u8>)
    ensures
        next_frame(buf) matches Some(frame) ==> 4 <= frame.len <= buf.len(),
{
    lemma_search_from(buf, blank_line(), 0);
    assert(blank_line().len() == 4);
}

/// A blank line found in a buffer is found at the same place in every
/// longer buffer and in every prefix that holds it.
pub proof fn lemma_blank_line_stable(buf: Seq<u8>, other: Seq<u8>, h: int)
    requires
        first_occurrence(buf, blank_line()) == Some(h),
        h + 4 <= other.len(),
        other.len() <= buf.len() ==> other == buf.subrange(0, other.len() as int),
        other.len() > buf.len() ==> buf == other.subrange(0, buf.len() as int),
    ensures
        first_occurrence(other, blank_line()) == Some(h),
{
    lemma_search_from(buf, blank_line(), 0);
    assert(blank_line().len() == 4);
    assert(other.subrange(h, h + 4) =~= buf.subrange(h, h + 4));
    assert forall|j: int| 0 <= j < h implies !occurs_at(other, blank_line(), j) by {
        assert(!occurs_at(buf, blank_line(), j));
        assert(other.subrange(j, j + 4) =~= buf.subrange(j, j + 4));
    }
    lemma_first_occurrence_is(other, blank_line(), h);
}

/// A whole message stays the same message when more bytes arrive.
pub proof fn lemma_frame_stable(buf: Seq<u8>, more: Seq<u8>)
    requires
        next_frame(buf) is Some,
    ensures
        next_frame(buf + more) == next_frame(buf),
{
    let h = first_occurrence(buf, blank_line())->0;
    lemma_search_from(buf, blank_line(), 0);
    assert(blank_line().len() == 4);
    let longer = buf + more;
    assert(buf =~= longer.subrange(0, buf.len() as int));
    lemma_blank_line_stable(buf, longer, h);
    assert(longer.subrange(0, h) =~= buf.subrange(0, h));
    match parse_head(buf.subrange(0, h)) {
        Ok((method, headers)) => match declared_length(headers) {
            Ok(n) => {
                assert(longer.subrange(h + 4, h + 4 + n) =~= buf.subrange(h + 4, h + 4 + n));
            },
            Err(_) => {},
        },
        Err(_) => {},
    }
}

/// A message that the framing hands on is what the parser makes of exactly
/// the bytes that the framing cut off.
pub proof fn lemma_frame_is_message(buf: Seq<u8>)
    requires
        next_frame(buf) matches Some(frame) && frame.parsed is Ok,
    ensures
        parse_message(buf.subrange(0, next_frame(buf).unwrap().len)) == next_frame(
            buf,
        ).unwrap().parsed,
{
    let h = first_occurrence(buf, blank_line())->0;
    lemma_search_from(buf, blank_line(), 0);
    assert(blank_line().len() == 4);
    let n = next_frame(buf).unwrap().len;
    let frame = buf.subrange(0, n);
    lemma_blank_line_stable(buf, frame, h);
    assert(frame.subrange(0, h) =~= buf.subrange(0, h));
    assert(frame.subrange(h + 4, frame.len() as int) =~= buf.subrange(h + 4, n));
}

/// The view of a parse result.
pub open spec fn parsed_view(r: Result<SipMessage, ParseError>) -> Result<Request, Malformed> {
    match r {
        Ok(m) => Ok(m@),
        Err(e) => Err(e@),
    }
}

/// Reads the declared body length off the header fields.
pub fn body_length(headers: &Headers) -> (r: Result<u64, Vec<u8>>)
    ensures
        match r {
            Ok(n) => declared_length(headers@) == Ok::<nat, Seq<u8>>(n as nat),
            Err(line) => declared_length(headers@) == Err::<nat, Seq<u8>>(line@),
        },
{
    let name: [u8; 14] = [67, 111, 110, 116, 101, 110, 116, 45, 76, 101, 110, 103, 116, 104];
    let sep: [u8; 2] = [COLON, SP];
    proof {
        assert(name@ =~= content_length_name());
        assert(sep@ =~= colon_space());
    }
    match headers.get_ignore_case(name.as_slice()) {
        None => Ok(0),
        Some(value) => match parse_decimal(value.as_slice(), u64::MAX) {
            Some(n) => Ok(n),
            None => {
                let mut line = slice_to_vec(name.as_slice());
                append(&mut line, sep.as_slice());
                append(&mut line, value.as_slice());
                Err(line)
            },
        },
    }
}

/// Cuts the first whole message off the front of `buf` and parses it.
pub fn extract(buf: &[u8]) -> (r: Option<(usize, Result<SipMessage, ParseError>)>)
    ensures
        match r {
            Some((n, parsed)) => next_frame(buf@) == Some(
                Frame { len: n as int, parsed: parsed_view(parsed) },
            ) && 4 <= n <= buf@.len() && (parsed matches Ok(m) ==> m.headers.wf()),
            None => next_frame(buf@) is None,
        },
{
    let end: [u8; 4] = [CR, LF, CR, LF];
    proof {
        assert(end@ =~= blank_line());
        lemma_next_frame_bounds(buf@);
    }
    let len = buf.len();
    let h = match find(buf, end.as_slice()) {
        Some(h) => h,
        None => {
            return None;
        },
    };
    proof {
        lemma_search_from(buf@, blank_line(), 0);
        assert(blank_line().len() == 4);
    }
    let start: usize = h + 4;
    let (message_type, headers) = match parse_head_bytes(slice_subrange(buf, 0, h)) {
        Ok(head) => head,
        Err(e) => {
            return Some((start, Err(e)));
        },
    };
    let declared = match body_length(&headers) {
        Ok(n) => n,
        Err(line) => {
            return Some((start, Err(ParseError::MalformedHeader(line))));
        },
    };
    let available: usize = len - start;
    if declared > available as u64 {
        return None;
    }
    let total: usize = start + declared as usize;
    let body = if declared > 0 {
        Some(slice_to_vec(slice_subrange(buf, start, total)))
    } else {
        None
    };
    Some((total, Ok(SipMessage { message_type, headers, body })))
}

/// The reason phrase `Bad Request`.
pub open spec fn bad_request_reason() -> Seq<u8> {
    seq![66u8, 97u8, 100u8, 32u8, 82u8, 101u8, 113u8, 117u8, 101u8, 115u8, 116u8]
}

/// The answer to anything that does not parse: `400 Bad Request` without
/// header fields or body.
pub open spec fn bad_request() -> Response {
    Response {
        status_code: 400,
        reason_phrase: bad_request_reason(),
        headers: Seq::empty(),
        body: None,
    }
}

/// The bytes that go back for one message: the wire form of
/// `400 Bad Request` if it did not parse, else that of the policy's
/// response, if the policy gives one.
pub open spec fn reply_to<P: MethodPolicy>(
    policy: P,
    parsed: Result<Request, Malformed>,
) -> Option<Seq<u8>> {
    match parsed {
        Err(_) => Some(serialize_response(bad_request())),
        Ok(request) => match dispatch_decision(policy, request) {
            Some(response) => Some(serialize_response(response)),
            None => None,
        },
    }
}

/// An optional reply as a sequence of none or one.
pub open spec fn reply_seq(reply: Option<Seq<u8>>) -> Seq<Seq<u8>> {
    match reply {
        Some(bytes) => seq![bytes],
        None => Seq::empty(),
    }
}

/// The replies to every whole message in `buf`, in the order in which the
/// messages arrived, and the bytes left over after the last of them.
pub open spec fn drain<P: MethodPolicy>(policy: P, buf: Seq<u8>) -> (Seq<Seq<u8>>, Seq<u8>)
    decreases buf.len(),
{
    match next_frame(buf) {
        Some(frame) if 0 < frame.len <= buf.len() => {
            let (replies, rest) = drain(policy, buf.subrange(frame.len, buf.len() as int));
            (reply_seq(reply_to(policy, frame.parsed)) + replies, rest)
        },
        _ => (Seq::empty(), buf),
    }
}

/// Reading `first` and then `second` gives the replies, in the same order,
/// and the leftover that reading both at once gives: how the stream is cut
/// into reads does not matter.
pub proof fn lemma_drain_in_two_reads<P: MethodPolicy>(policy: P, first: Seq<u8>, second: Seq<u8>)
    ensures
        ({
            let (replies1, rest1) = drain(policy, first);
            let (replies2, rest2) = drain(policy, rest1 + second);
            drain(policy, first + second) == (replies1 + replies2, rest2)
        }),
    decreases first.len(),
{
    let (replies1, rest1) = drain(policy, first);
    let (replies2, rest2) = drain(policy, rest1 + second);
    lemma_next_frame_bounds(first);
    match next_frame(first) {
        Some(frame) => {
            lemma_frame_stable(first, second);
            let tail = first.subrange(frame.len, first.len() as int);
            let both = first + second;
            assert(both.subrange(frame.len, both.len() as int) =~= tail + second);
            lemma_drain_in_two_reads(policy, tail, second);
            let here = reply_seq(reply_to(policy, frame.parsed));
            let d1 = drain(policy, tail);
            assert(here + (d1.0 + replies2) =~= (here + d1.0) + replies2);
        },
        None => {
            assert(replies1 + replies2 =~= replies2);
        },
    }
}

/// Two whole messages that arrive in one read are answered one after the
/// other, each as it would be alone, and nothing is left over.
pub proof fn lemma_pipelined<P: MethodPolicy>(policy: P, first: Seq<u8>, second: Seq<u8>)
    requires
        next_frame(first) matches Some(frame) && frame.len == first.len(),
        next_frame(second) matches Some(frame) && frame.len == second.len(),
    ensures
        drain(policy, first + second) == (
            reply_seq(reply_to(policy, next_frame(first).unwrap().parsed)) + reply_seq(
                reply_to(policy, next_frame(second).unwrap().parsed),
            ),
            Seq::<u8>::empty(),
        ),
{
    lemma_drain_whole(policy, first);
    lemma_drain_whole(policy, second);
    lemma_drain_in_two_reads(policy, first, second);
    assert(Seq::<u8>::empty() + second =~= second);
}

/// A buffer that is exactly one whole message gives that message's reply
/// and leaves nothing.
pub proof fn lemma_drain_whole<P: MethodPolicy>(policy: P, buf: Seq<u8>)
    requires
        next_frame(buf) matches Some(frame) && frame.len == buf.len(),
    ensures
        drain(policy, buf) == (
            reply_seq(reply_to(policy, next_frame(buf).unwrap().parsed)),
            Seq::<u8>::empty(),
        ),
{
    lemma_next_frame_bounds(buf);
    let tail = buf.subrange(buf.len() as int, buf.len() as int);
    assert(tail =~= Seq::<u8>::empty());
    lemma_search_from(tail, blank_line(), 0);
    assert(blank_line().len() == 4);
    assert(next_frame(tail) is None);
    assert(drain(policy, tail) == (Seq::<Seq<u8>>::empty(), tail));
    let here = reply_seq(reply_to(policy, next_frame(buf).unwrap().parsed));
    assert(here + Seq::<Seq<u8>>::empty() =~= here);
}

/// Whatever does not parse is answered with `400 Bad Request`, and the
/// stream goes on behind it.
pub proof fn lemma_malformed_answered<P: MethodPolicy>(policy: P, buf: Seq<u8>)
    requires
        next_frame(buf) matches Some(frame) && frame.parsed is Err,
    ensures
        drain(policy, buf).0.len() > 0,
        drain(policy, buf).0[0] == serialize_response(bad_request()),
        drain(policy, buf).1 == drain(
            policy,
            buf.subrange(next_frame(buf).unwrap().len, buf.len() as int),
        ).1,
{
    lemma_next_frame_bounds(buf);
}

/// Builds the `400 Bad Request` response.
pub fn bad_request_response() -> (r: SipResponse)
    ensures
        r@ == bad_request(),
        r.headers.wf(),
{
    let reason: [u8; 11] = [66, 97, 100, 32, 82, 101, 113, 117, 101, 115, 116];
    proof {
        assert(reason@ =~= bad_request_reason());
    }
    SipResponse {
        status_code: 400,
        reason_phrase: slice_to_vec(reason.as_slice()),
        headers: Headers::new(),
        body: None,
    }
}

/// Answers one message that `extract` cut off the stream.
pub fn reply_for<P: MethodPolicy>(policy: &P, parsed: &Result<SipMessage, ParseError>) -> (r:
    Option<Vec<u8>>)
    requires
        parsed matches Ok(m) ==> m.headers.wf(),
    ensures
        match r {
            Some(bytes) => reply_to(*policy, parsed_view(*parsed)) == Some(bytes@),
            None => reply_to(*policy, parsed_view(*parsed)) is None,
        },
{
    match parsed {
        Err(_) => Some(bad_request_response().serialize()),
        Ok(message) => match dispatch(policy, message) {
            Some(response) => Some(response.serialize()),
            None => None,
        },
    }
}

/// Why a connection ends.
#[derive(Debug, Clone, Copy, PartialEq, Eq)]
pub enum CloseReason {
    /// The peer closed its side: a read gave no bytes.
    PeerClosed,
    /// No bytes came before the read deadline.
    IdleTimeout,
    /// The read failed.
    ReadError,
    /// The server is shutting down.
    Shutdown,
}

/// What a read on the connection gave.
#[derive(Debug, Clone, PartialEq, Eq)]
pub enum ReadEvent {
    /// The bytes that were read; none means that the peer has closed.
    Data(Vec<u8>),
    /// The read deadline passed.
    TimedOut,
    /// The transport reported an error.
    Failed,
    /// The server began to shut down before the read gave anything.
    Shutdown,
}

/// What the connection loop does next.
#[derive(Debug, Clone, PartialEq, Eq)]
pub enum Step {
    /// Write these replies in order, then read again.
    Continue(Vec<Vec<u8>>),
    /// Stop reading and release the connection.
    Close(CloseReason),
}

/// The receive side of one connection: the bytes that have arrived and do
/// not yet make up a whole message.
#[derive(Debug)]
pub struct Connection {
    buffer: Vec<u8>,
}

impl View for Connection {
    type V = Seq<u8>;

    closed spec fn view(&self) -> Seq<u8> {
        self.buffer@
    }
}

impl Connection {
    /// A connection on which nothing has arrived.
    pub fn new() -> (c: Connection)
        ensures
            c@ == Seq::<u8>::empty(),
    {
        Connection { buffer: Vec::new() }
    }

    /// The number of bytes held back for the next message.
    pub fn pending(&self) -> (n: usize)
        ensures
            n == self@.len(),
    {
        self.buffer.len()
    }

    /// Takes in the bytes of one read and answers every message that they
    /// complete.
    ///
    /// The replies come in the order in which the messages arrived. Bytes
    /// after the last whole message stay in the buffer for the next read.
    pub fn on_data<P: MethodPolicy>(&mut self, policy: &P, data: &[u8]) -> (replies: Vec<Vec<u8>>)
        ensures
            (views(replies@), final(self)@) == drain(*policy, old(self)@ + data@),
    {
        append(&mut self.buffer, data);
        let ghost all = self.buffer@;
        let len = self.buffer.len();
        let mut replies: Vec<Vec<u8>> = Vec::new();
        let mut pos: usize = 0;
        proof {
            assert(all.subrange(0, len as int) =~= all);
            assert(views(replies@) =~= Seq::<Seq<u8>>::empty());
            let d = drain(*policy, all);
            assert(views(replies@) + d.0 =~= d.0);
        }
        loop
            invariant
                pos <= len,
                len == all.len(),
                self.buffer@ == all,
                all == old(self)@ + data@,
                drain(*policy, all) == (
                    views(replies@) + drain(*policy, all.subrange(pos as int, len as int)).0,
                    drain(*policy, all.subrange(pos as int, len as int)).1,
                ),
            decreases len - pos,
        {
            let rest = slice_subrange(self.buffer.as_slice(), pos, len);
            match extract(rest) {
                Some((n, parsed)) => {
                    let reply = reply_for(policy, &parsed);
                    let ghost before = views(replies@);
                    match reply {
                        Some(bytes) => {
                            replies.push(bytes);
                            assert(views(replies@) =~= before + seq![bytes@]);
                        },
                        None => {
                            assert(views(replies@) =~= before + Seq::<Seq<u8>>::empty());
                        },
                    }
                    proof {
                        let tail = rest@.subrange(n as int, rest@.len() as int);
                        assert(tail =~= all.subrange(pos + n, len as int));
                        let here = reply_seq(reply_to(*policy, parsed_view(parsed)));
                        let after = drain(*policy, tail);
                        assert(drain(*policy, rest@) == (here + after.0, after.1));
                        assert(views(replies@) + after.0 =~= before + (here + after.0));
                    }
                    pos = pos + n;
                },
                None => {
                    proof {
                        assert(drain(*policy, rest@) == (Seq::<Seq<u8>>::empty(), rest@));
                        assert(views(replies@) + Seq::<Seq<u8>>::empty() =~= views(replies@));
                    }
                    let kept = self.buffer.split_off(pos);
                    self.buffer = kept;
                    return replies;
                },
            }
        }
    }

    /// Decides what follows a read.
    ///
    /// A read of no bytes is the peer's close, not an error. Bytes are
    /// taken in as `on_data` does. A timeout, a failed read or a shutdown
    /// ends the connection and leaves the buffer as it was: once the server
    /// shuts down, a connection ends at its next read, whatever the peer
    /// still sends.
    pub fn step<P: MethodPolicy>(&mut self, policy: &P, event: ReadEvent) -> (next: Step)
        ensures
            match event {
                ReadEvent::Data(data) => if data@.len() == 0 {
                    next == Step::Close(CloseReason::PeerClosed) && final(self)@ == old(self)@
                } else {
                    next matches Step::Continue(replies) && (views(replies@), final(self)@)
                        == drain(*policy, old(self)@ + data@)
                },
                ReadEvent::TimedOut => final(self)@ == old(self)@ && next == Step::Close(
                    CloseReason::IdleTimeout,
                ),
                ReadEvent::Failed => next == Step::Close(CloseReason::ReadError) && final(self)@
                    == old(self)@,
                ReadEvent::Shutdown => next == Step::Close(CloseReason::Shutdown) && final(self)@
                    == old(self)@,
            },
    {
        match event {
            ReadEvent::Data(data) => {
                if data.len() == 0 {
                    Step::Close(CloseReason::PeerClosed)
                } else {
                    Step::Continue(self.on_data(policy, data.as_slice()))
                }
            },
            ReadEvent::TimedOut => Step::Close(CloseReason::IdleTimeout),
            ReadEvent::Failed => Step::Close(CloseReason::ReadError),
            ReadEvent::Shutdown => Step::Close(CloseReason::Shutdown),
        }
    }
}

} // verus!
