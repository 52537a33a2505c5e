//! Parsing undoes serialising: the proofs.

use crate::bytes::{
    contains, first_occurrence, lemma_first_occurrence_is, lemma_first_occurrence_none, occurs_at,
    split,
};
use crate::decimal::{decimal_digits, is_digit, lemma_decimal_digits_value};
use crate::headers::{distinct_names, has_name, put, Fields};
use crate::response::{
    parse_response, parse_status_line, serialize_response, status_line, Response,
};
use crate::sip_parser::{
    ack_token, invite_token, method_of_token, parse_message, parse_request_line, register_token,
    request_line, serialize_request, token_of_method, Malformed, Method, Request,
};
use crate::wire::{
    blank_line, body_bytes, collect_headers, colon_space, crlf, cut, fields_of, header_line,
    header_section, lines_of, parse_body, parse_header_line, sip_version, space, wire_form, COLON,
    CR, LF, SP,
};
use vstd::prelude::*;

verus! {

/// Whether the bytes `x`, `y` stand at positions `i` and `i + 1` of `s`.
pub open spec fn pair_at(s: Seq<u8>, x: u8, y: u8, i: int) -> bool {
    0 <= i && i + 1 < s.len() && s[i] == x && s[i + 1] == y
}

/// An occurrence of a pattern of two bytes is those two bytes side by side.
pub proof fn lemma_occurs_pair(s: Seq<u8>, x: u8, y: u8, i: int)
    ensures
        occurs_at(s, seq![x, y], i) == pair_at(s, x, y, i),
{
    let pat = seq![x, y];
    if occurs_at(s, pat, i) {
        assert(s.subrange(i, i + 2)[0] == pat[0]);
        assert(s.subrange(i, i + 2)[1] == pat[1]);
    }
    if pair_at(s, x, y, i) {
        assert(s.subrange(i, i + 2) =~= pat);
    }
}

/// An occurrence of a pattern of one byte is that byte.
pub proof fn lemma_occurs_byte(s: Seq<u8>, x: u8, i: int)
    ensures
        occurs_at(s, seq![x], i) == (0 <= i < s.len() && s[i] == x),
{
    let pat = seq![x];
    if occurs_at(s, pat, i) {
        assert(s.subrange(i, i + 1)[0] == pat[0]);
    }
    if 0 <= i < s.len() && s[i] == x {
        assert(s.subrange(i, i + 1) =~= pat);
    }
}

/// A pattern of two different bytes that does not occur in `a` first occurs
/// in `a + pattern + b` right after `a`.
pub proof fn lemma_first_pair_after(a: Seq<u8>, x: u8, y: u8, b: Seq<u8>)
    requires
        x != y,
        !contains(a, seq![x, y]),
    ensures
        first_occurrence(a + seq![x, y] + b, seq![x, y]) == Some(a.len() as int),
{
    let pat = seq![x, y];
    let full = a + pat + b;
    lemma_occurs_pair(full, x, y, a.len() as int);
    assert forall|j: int| 0 <= j < a.len() implies !occurs_at(full, pat, j) by {
        lemma_occurs_pair(full, x, y, j);
        lemma_occurs_pair(a, x, y, j);
        if pair_at(full, x, y, j) {
            if j + 1 < a.len() {
                assert(occurs_at(a, pat, j));
            }
        }
    }
    lemma_first_occurrence_is(full, pat, a.len() as int);
}

/// A byte that does not occur in `a` first occurs in `a + byte + b` right
/// after `a`.
pub proof fn lemma_first_byte_after(a: Seq<u8>, x: u8, b: Seq<u8>)
    requires
        !contains(a, seq![x]),
    ensures
        first_occurrence(a + seq![x] + b, seq![x]) == Some(a.len() as int),
{
    let pat = seq![x];
    let full = a + pat + b;
    lemma_occurs_byte(full, x, a.len() as int);
    assert forall|j: int| 0 <= j < a.len() implies !occurs_at(full, pat, j) by {
        lemma_occurs_byte(full, x, j);
        lemma_occurs_byte(a, x, j);
        if full[j] == x {
            assert(occurs_at(a, pat, j));
        }
    }
    lemma_first_occurrence_is(full, pat, a.len() as int);
}

/// A sequence in which a pattern does not occur has no first occurrence of
/// it.
pub proof fn lemma_absent(s: Seq<u8>, pat: Seq<u8>)
    requires
        !contains(s, pat),
    ensures
        first_occurrence(s, pat) is None,
{
    lemma_first_occurrence_none(s, pat);
}

/// Two sequences free of the pair `x`, `y` stay free of it when joined,
/// unless the first ends in `x` and the second starts with `y`.
pub proof fn lemma_pair_free_concat(a: Seq<u8>, b: Seq<u8>, x: u8, y: u8)
    requires
        !contains(a, seq![x, y]),
        !contains(b, seq![x, y]),
        a.len() == 0 || b.len() == 0 || a.last() != x || b[0] != y,
    ensures
        !contains(a + b, seq![x, y]),
{
    let pat = seq![x, y];
    assert forall|j: int| !occurs_at(a + b, pat, j) by {
        lemma_occurs_pair(a + b, x, y, j);
        lemma_occurs_pair(a, x, y, j);
        lemma_occurs_pair(b, x, y, j - a.len());
        if pair_at(a + b, x, y, j) {
            if j + 1 < a.len() {
                assert(occurs_at(a, pat, j));
            } else if j >= a.len() {
                assert(occurs_at(b, pat, j - a.len()));
            }
        }
    }
}

/// The lines joined with CR LF between them.
pub open spec fn join_lines(lines: Seq<Seq<u8>>) -> Seq<u8>
    decreases lines.len(),
{
    if lines.len() == 0 {
        Seq::empty()
    } else if lines.len() == 1 {
        lines[0]
    } else {
        lines[0] + crlf() + join_lines(lines.skip(1))
    }
}

/// Every line is free of CR LF.
pub open spec fn lines_clean(lines: Seq<Seq<u8>>) -> bool {
    forall|i: int| 0 <= i < lines.len() ==> !contains(#[trigger] lines[i], crlf())
}

/// Every line has at least one byte.
pub open spec fn lines_nonempty(lines: Seq<Seq<u8>>) -> bool {
    forall|i: int| 0 <= i < lines.len() ==> (#[trigger] lines[i]).len() > 0
}

/// Splitting joined lines gives the lines back.
pub proof fn lemma_split_join(lines: Seq<Seq<u8>>)
    requires
        lines.len() > 0,
        lines_clean(lines),
    ensures
        split(join_lines(lines), crlf()) == lines,
    decreases lines.len(),
{
    let l0 = lines[0];
    assert(!contains(l0, crlf()));
    if lines.len() == 1 {
        lemma_absent(l0, crlf());
        assert(seq![l0] =~= lines);
    } else {
        let rest = lines.skip(1);
        assert forall|i: int| 0 <= i < rest.len() implies !contains(#[trigger] rest[i], crlf()) by {
            assert(rest[i] == lines[i + 1]);
        }
        lemma_split_join(rest);
        let joined = join_lines(lines);
        let tail = join_lines(rest);
        assert(joined == l0 + crlf() + tail);
        lemma_first_pair_after(l0, CR, LF, tail);
        assert(seq![CR, LF] == crlf());
        assert(joined.subrange(0, l0.len() as int) =~= l0);
        assert(joined.subrange(l0.len() as int + 2, joined.len() as int) =~= tail);
        assert(seq![l0] + rest =~= lines);
    }
}

/// Joining one more line puts CR LF and the line at the end.
pub proof fn lemma_join_push(lines: Seq<Seq<u8>>, line: Seq<u8>)
    requires
        lines.len() > 0,
    ensures
        join_lines(lines.push(line)) == join_lines(lines) + crlf() + line,
    decreases lines.len(),
{
    let more = lines.push(line);
    if lines.len() == 1 {
        assert(more.skip(1) =~= seq![line]);
        assert(join_lines(more.skip(1)) == line);
    } else {
        lemma_join_push(lines.skip(1), line);
        assert(more.skip(1) =~= lines.skip(1).push(line));
        assert(join_lines(more) =~= join_lines(lines) + crlf() + line);
    }
}

/// No blank line starts inside joined lines that are clean and non-empty,
/// whatever follows the blank line that ends them.
pub proof fn lemma_no_early_blank_line(lines: Seq<Seq<u8>>, tail: Seq<u8>, j: int)
    requires
        lines.len() > 0,
        lines_clean(lines),
        lines_nonempty(lines),
        0 <= j < join_lines(lines).len(),
    ensures
        !occurs_at(join_lines(lines) + blank_line() + tail, blank_line(), j),
    decreases lines.len(),
{
    let l0 = lines[0];
    let block = join_lines(lines);
    let full = block + blank_line() + tail;
    assert(!contains(l0, crlf()));
    lemma_occurs_pair(l0, CR, LF, j);
    assert(seq![CR, LF] == crlf());
    if occurs_at(full, blank_line(), j) {
        let w = full.subrange(j, j + 4);
        assert(w[0] == CR && w[1] == LF && w[2] == CR && w[3] == LF);
        assert(full[j] == CR && full[j + 1] == LF && full[j + 2] == CR && full[j + 3] == LF);
        if lines.len() == 1 {
            assert(block == l0);
            if j + 1 < l0.len() {
                assert(pair_at(l0, CR, LF, j));
            } else {
                assert(full[j + 1] == blank_line()[0]);
            }
        } else {
            let rest = lines.skip(1);
            let rest_block = join_lines(rest);
            let rest_full = rest_block + blank_line() + tail;
            assert(block == l0 + crlf() + rest_block);
            assert(full =~= l0 + crlf() + rest_full);
            assert forall|i: int| 0 <= i < rest.len() implies !contains(
                #[trigger] rest[i],
                crlf(),
            ) by {
                assert(rest[i] == lines[i + 1]);
            }
            assert forall|i: int| 0 <= i < rest.len() implies (#[trigger] rest[i]).len() > 0 by {
                assert(rest[i] == lines[i + 1]);
            }
            let l1 = rest[0];
            assert(l1.len() > 0);
            assert(!contains(l1, crlf()));
            if j < l0.len() {
                if j + 1 < l0.len() {
                    assert(pair_at(l0, CR, LF, j));
                } else {
                    assert(full[j + 1] == crlf()[0]);
                }
            } else if j == l0.len() {
                // the bytes after the separator are the start of the next line
                lemma_occurs_pair(l1, CR, LF, 0);
                if rest.len() == 1 {
                    assert(rest_block == l1);
                } else {
                    assert(rest_block == l1 + crlf() + join_lines(rest.skip(1)));
                }
                assert(rest_full[0] == l1[0]);
                assert(full[j + 2] == rest_full[0]);
                assert(full[j + 3] == rest_full[1]);
                if l1.len() >= 2 {
                    assert(rest_full[1] == l1[1]);
                    assert(pair_at(l1, CR, LF, 0));
                } else {
                    assert(rest_full[1] == CR);
                }
            } else if j == l0.len() + 1 {
                assert(full[j] == crlf()[1]);
            } else {
                let k = j - l0.len() - 2;
                assert(rest_full.subrange(k, k + 4) =~= full.subrange(j, j + 4));
                assert(occurs_at(rest_full, blank_line(), k));
                lemma_no_early_blank_line(rest, tail, k);
            }
        }
    }
}

/// The first blank line after joined lines that are clean and non-empty
/// is the one that ends them.
pub proof fn lemma_first_blank_line(lines: Seq<Seq<u8>>, tail: Seq<u8>)
    requires
        lines.len() > 0,
        lines_clean(lines),
        lines_nonempty(lines),
    ensures
        first_occurrence(join_lines(lines) + blank_line() + tail, blank_line()) == Some(
            join_lines(lines).len() as int,
        ),
{
    let block = join_lines(lines);
    let full = block + blank_line() + tail;
    assert(full.subrange(block.len() as int, block.len() as int + 4) =~= blank_line());
    assert forall|j: int| 0 <= j < block.len() implies !occurs_at(full, blank_line(), j) by {
        lemma_no_early_blank_line(lines, tail, j);
    }
    lemma_first_occurrence_is(full, blank_line(), block.len() as int);
}

/// A field that survives the wire: its name holds neither `": "` nor
/// CR LF, its value no CR LF.
pub open spec fn field_survives(field: (Seq<u8>, Seq<u8>)) -> bool {
    &&& !contains(field.0, colon_space())
    &&& !contains(field.0, crlf())
    &&& !contains(field.1, crlf())
}

/// Header fields that survive the wire: distinct names, and each field
/// survives.
pub open spec fn fields_survive(hs: Fields) -> bool {
    &&& distinct_names(hs)
    &&& forall|i: int| 0 <= i < hs.len() ==> field_survives(#[trigger] hs[i])
}

/// A body that survives the wire: absent, or not empty.
pub open spec fn body_survives(body: Option<Seq<u8>>) -> bool {
    body matches Some(b) ==> b.len() > 0
}

/// The header lines of the fields, one for each.
pub open spec fn header_lines(hs: Fields) -> Seq<Seq<u8>> {
    Seq::new(hs.len(), |i: int| header_line(hs[i]))
}

/// The lines of the block that `wire_form` writes.
pub open spec fn block_of(first_line: Seq<u8>, hs: Fields) -> Seq<Seq<u8>> {
    seq![first_line] + header_lines(hs)
}

/// A header line is cut back into the name and value it was made of.
pub proof fn lemma_header_line_parses(field: (Seq<u8>, Seq<u8>))
    requires
        !contains(field.0, colon_space()),
    ensures
        parse_header_line(header_line(field)) == Some(field),
{
    let line = header_line(field);
    assert(seq![COLON, SP] == colon_space());
    lemma_first_pair_after(field.0, COLON, SP, field.1);
    assert(line.subrange(0, field.0.len() as int) =~= field.0);
    assert(line.subrange(field.0.len() as int + 2, line.len() as int) =~= field.1);
}

/// A header line of a surviving field is free of CR LF and not empty.
pub proof fn lemma_header_line_clean(field: (Seq<u8>, Seq<u8>))
    requires
        field_survives(field),
    ensures
        !contains(header_line(field), crlf()),
        header_line(field).len() > 0,
{
    assert(seq![CR, LF] == crlf());
    let sep = colon_space();
    assert(!contains(sep, crlf())) by {
        assert forall|j: int| !occurs_at(sep, crlf(), j) by {
            lemma_occurs_pair(sep, CR, LF, j);
        }
    }
    lemma_pair_free_concat(field.0, sep, CR, LF);
    lemma_pair_free_concat(field.0 + sep, field.1, CR, LF);
}

/// The wire form is the block's lines joined, a blank line, and the body.
pub proof fn lemma_wire_form_block(first_line: Seq<u8>, hs: Fields, body: Option<Seq<u8>>)
    ensures
        wire_form(first_line, hs, body) == join_lines(block_of(first_line, hs)) + blank_line()
            + body_bytes(body),
{
    lemma_head_joined(first_line, hs);
    assert(blank_line() =~= crlf() + crlf());
    assert(wire_form(first_line, hs, body) =~= join_lines(block_of(first_line, hs)) + blank_line()
        + body_bytes(body));
}

/// The first line and the header section are the block's lines joined,
/// with one more CR LF at the end.
pub proof fn lemma_head_joined(first_line: Seq<u8>, hs: Fields)
    ensures
        first_line + crlf() + header_section(hs) == join_lines(block_of(first_line, hs)) + crlf(),
    decreases hs.len(),
{
    if hs.len() == 0 {
        assert(block_of(first_line, hs) =~= seq![first_line]);
        assert(first_line + crlf() + header_section(hs) =~= first_line + crlf());
    } else {
        let init = hs.drop_last();
        lemma_head_joined(first_line, init);
        lemma_join_push(block_of(first_line, init), header_line(hs.last()));
        assert(block_of(first_line, init).push(header_line(hs.last())) =~= block_of(
            first_line,
            hs,
        ));
        assert(first_line + crlf() + header_section(hs) =~= (first_line + crlf() + header_section(
            init,
        )) + header_line(hs.last()) + crlf());
    }
}

/// Collecting the header lines of surviving fields, from the `k`-th on and
/// on top of the first `k` fields, gives the fields.
pub proof fn lemma_collect_from(hs: Fields, k: int)
    requires
        fields_survive(hs),
        0 <= k <= hs.len(),
    ensures
        collect_headers(header_lines(hs).skip(k), hs.take(k)) == Ok::<Fields, Seq<u8>>(hs),
    decreases hs.len() - k,
{
    let lines = header_lines(hs).skip(k);
    if k == hs.len() {
        assert(hs.take(k) =~= hs);
    } else {
        assert(lines[0] == header_line(hs[k]));
        assert(field_survives(hs[k]));
        lemma_header_line_parses(hs[k]);
        let acc = hs.take(k);
        assert(!has_name(acc, hs[k].0)) by {
            if has_name(acc, hs[k].0) {
                let i = choose|i: int| 0 <= i < acc.len() && (#[trigger] acc[i]).0 == hs[k].0;
                assert(acc[i] == hs[i]);
            }
        }
        assert(put(acc, hs[k].0, hs[k].1) =~= hs.take(k + 1));
        assert(lines.skip(1) =~= header_lines(hs).skip(k + 1));
        lemma_collect_from(hs, k + 1);
    }
}

/// What the shared part of both parsers makes of a wire form: the block
/// is cut off at its own blank line, splits into its lines, and the header
/// lines give the fields back.
pub proof fn lemma_wire_form_parses(first_line: Seq<u8>, hs: Fields, body: Option<Seq<u8>>)
    requires
        first_line.len() > 0,
        !contains(first_line, crlf()),
        fields_survive(hs),
        body_survives(body),
    ensures
        cut(wire_form(first_line, hs, body)) == (join_lines(block_of(first_line, hs)), body),
        join_lines(block_of(first_line, hs)).len() > 0,
        lines_of(join_lines(block_of(first_line, hs))) == block_of(first_line, hs),
        fields_of(block_of(first_line, hs)) == Ok::<Fields, Seq<u8>>(hs),
{
    let lines = block_of(first_line, hs);
    let block = join_lines(lines);
    let bytes = wire_form(first_line, hs, body);
    assert forall|i: int| 0 <= i < lines.len() implies !contains(#[trigger] lines[i], crlf())
        && lines[i].len() > 0 by {
        if i > 0 {
            assert(lines[i] == header_line(hs[i - 1]));
            assert(field_survives(hs[i - 1]));
            lemma_header_line_clean(hs[i - 1]);
        }
    }
    lemma_wire_form_block(first_line, hs, body);
    lemma_first_blank_line(lines, body_bytes(body));
    lemma_split_join(lines);
    assert(bytes.subrange(0, block.len() as int) =~= block);
    assert(bytes.subrange(block.len() as int + 4, bytes.len() as int) =~= body_bytes(body));
    assert(parse_body(body_bytes(body)) == body);
    assert(block.len() > 0) by {
        if lines.len() > 1 {
            assert(block == lines[0] + crlf() + join_lines(lines.skip(1)));
        }
    }
    assert(lines.skip(1) =~= header_lines(hs).skip(0));
    assert(hs.take(0) =~= Seq::<(Seq<u8>, Seq<u8>)>::empty());
    lemma_collect_from(hs, 0);
}

/// Bytes among which there is neither a space nor a CR hold neither the
/// space pattern nor CR LF.
pub proof fn lemma_plain(s: Seq<u8>)
    requires
        forall|i: int| 0 <= i < s.len() ==> #[trigger] s[i] != SP && s[i] != CR,
    ensures
        !contains(s, space()),
        !contains(s, crlf()),
{
    assert(seq![SP] == space());
    assert(seq![CR, LF] == crlf());
    assert forall|j: int| !occurs_at(s, space(), j) by {
        lemma_occurs_byte(s, SP, j);
    }
    assert forall|j: int| !occurs_at(s, crlf(), j) by {
        lemma_occurs_pair(s, CR, LF, j);
    }
}

/// The version, the named method tokens and decimal digits hold neither a
/// space nor CR LF.
pub proof fn lemma_fixed_tokens_plain(n: nat)
    ensures
        !contains(sip_version(), space()),
        !contains(sip_version(), crlf()),
        !contains(register_token(), space()),
        !contains(register_token(), crlf()),
        !contains(invite_token(), space()),
        !contains(invite_token(), crlf()),
        !contains(ack_token(), space()),
        !contains(ack_token(), crlf()),
        !contains(decimal_digits(n), space()),
        !contains(decimal_digits(n), crlf()),
        !contains(space(), crlf()),
{
    lemma_plain(sip_version());
    lemma_plain(register_token());
    lemma_plain(invite_token());
    lemma_plain(ack_token());
    lemma_decimal_digits_value(n);
    let d = decimal_digits(n);
    assert forall|i: int| 0 <= i < d.len() implies #[trigger] d[i] != SP && d[i] != CR by {
        assert(is_digit(d[i]));
    }
    lemma_plain(d);
    assert forall|j: int| !occurs_at(space(), crlf(), j) by {
        lemma_occurs_pair(space(), CR, LF, j);
        assert(seq![CR, LF] == crlf());
    }
}

/// A method that survives the wire: a token outside the named set is not
/// empty, holds neither a space nor CR LF, and is not the token of a named
/// method.
pub open spec fn method_survives(method: Method) -> bool {
    method matches Method::Other(t) ==> {
        &&& t.len() > 0
        &&& !contains(t, space())
        &&& !contains(t, crlf())
        &&& t != register_token()
        &&& t != invite_token()
        &&& t != ack_token()
    }
}

/// A request URI that survives the wire: not empty, without a space and
/// without CR LF.
pub open spec fn uri_survives(uri: Seq<u8>) -> bool {
    &&& uri.len() > 0
    &&& !contains(uri, space())
    &&& !contains(uri, crlf())
}

/// A request that `parse_message` gives back from its wire form.
pub open spec fn request_survives(r: Request, uri: Seq<u8>) -> bool {
    &&& method_survives(r.method)
    &&& uri_survives(uri)
    &&& fields_survive(r.headers)
    &&& body_survives(r.body)
}

/// A response that `parse_response` gives back from its wire form.
pub open spec fn response_survives(r: Response) -> bool {
    &&& r.status_code <= u16::MAX
    &&& !contains(r.reason_phrase, crlf())
    &&& fields_survive(r.headers)
    &&& body_survives(r.body)
}

/// Where `a` holds no space, `a SP b` is cut at its first space into `a`
/// and `b`.
pub proof fn lemma_cut_at_space(a: Seq<u8>, b: Seq<u8>)
    requires
        !contains(a, space()),
    ensures
        first_occurrence(a + space() + b, space()) == Some(a.len() as int),
        (a + space() + b).subrange(0, a.len() as int) == a,
        (a + space() + b).subrange(a.len() as int + 1, (a + space() + b).len() as int) == b,
{
    let line = a + space() + b;
    assert(seq![SP] == space());
    lemma_first_byte_after(a, SP, b);
    assert(line.subrange(0, a.len() as int) =~= a);
    assert(line.subrange(a.len() as int + 1, line.len() as int) =~= b);
}

/// Three pieces free of CR LF, put together with single spaces, are free
/// of CR LF.
pub proof fn lemma_spaced_clean(a: Seq<u8>, b: Seq<u8>, c: Seq<u8>)
    requires
        !contains(a, crlf()),
        !contains(b, crlf()),
        !contains(c, crlf()),
    ensures
        !contains(a + space() + b + space() + c, crlf()),
{
    let sp = space();
    assert(seq![CR, LF] == crlf());
    assert(!contains(sp, crlf())) by {
        assert forall|j: int| !occurs_at(sp, crlf(), j) by {
            lemma_occurs_pair(sp, CR, LF, j);
        }
    }
    lemma_pair_free_concat(a, sp, CR, LF);
    lemma_pair_free_concat(a + sp, b, CR, LF);
    lemma_pair_free_concat(a + sp + b, sp, CR, LF);
    lemma_pair_free_concat(a + sp + b + sp, c, CR, LF);
}

/// The token of a surviving method names that method, and is itself not
/// empty and free of spaces and CR LF.
pub proof fn lemma_method_token(method: Method)
    requires
        method_survives(method),
    ensures
        method_of_token(token_of_method(method)) == method,
        token_of_method(method).len() > 0,
        !contains(token_of_method(method), space()),
        !contains(token_of_method(method), crlf()),
{
    lemma_fixed_tokens_plain(0);
    assert(register_token().len() == 8);
    assert(invite_token().len() == 6);
    assert(ack_token().len() == 3);
}

/// A request line reads back as its method, and is not empty and free of
/// CR LF.
pub proof fn lemma_request_line_parses(method: Method, uri: Seq<u8>)
    requires
        method_survives(method),
        uri_survives(uri),
    ensures
        parse_request_line(request_line(method, uri)) == Some(method),
        request_line(method, uri).len() > 0,
        !contains(request_line(method, uri), crlf()),
{
    let tok = token_of_method(method);
    let ver = sip_version();
    let sp = space();
    let line = request_line(method, uri);
    lemma_method_token(method);
    lemma_fixed_tokens_plain(0);
    lemma_spaced_clean(tok, uri, ver);
    assert(ver.len() == 7);
    let rest = uri + sp + ver;
    assert(line == tok + sp + rest) by {
        assert(line =~= tok + sp + rest);
    }
    lemma_cut_at_space(tok, rest);
    lemma_cut_at_space(uri, ver);
    lemma_absent(ver, sp);
    assert(split(ver, sp) == seq![ver]);
    assert(split(rest, sp) == seq![uri] + seq![ver]);
    assert(split(line, sp) == seq![tok] + (seq![uri] + seq![ver]));
    let parts = split(line, sp);
    assert(parts.len() == 3 && parts[0] == tok && parts[1] == uri && parts[2] == ver);
}

/// A status line reads back as its code and reason, and is not empty and
/// free of CR LF.
pub proof fn lemma_status_line_parses(code: nat, reason: Seq<u8>)
    requires
        code <= u16::MAX,
        !contains(reason, crlf()),
    ensures
        parse_status_line(status_line(code, reason)) == Some((code, reason)),
        status_line(code, reason).len() > 0,
        !contains(status_line(code, reason), crlf()),
{
    let ver = sip_version();
    let sp = space();
    let digits = decimal_digits(code);
    let line = status_line(code, reason);
    lemma_fixed_tokens_plain(code);
    lemma_decimal_digits_value(code);
    lemma_spaced_clean(ver, digits, reason);
    assert(ver.len() == 7);
    let rest = digits + sp + reason;
    assert(line == ver + sp + rest) by {
        assert(line =~= ver + sp + rest);
    }
    lemma_cut_at_space(ver, rest);
    lemma_cut_at_space(digits, reason);
}

/// Parsing the wire form of a request gives the request back: the same
/// method, the same header fields in the same order, the same body.
///
/// This holds of every request whose parts survive the wire
/// (`request_survives`), whatever URI it is sent to, as long as the URI is
/// one token.
pub proof fn lemma_parse_serialized_request(r: Request, uri: Seq<u8>)
    requires
        request_survives(r, uri),
    ensures
        parse_message(serialize_request(r, uri)) == Ok::<Request, Malformed>(r),
{
    let first = request_line(r.method, uri);
    lemma_request_line_parses(r.method, uri);
    lemma_wire_form_parses(first, r.headers, r.body);
    assert(block_of(first, r.headers)[0] == first);
}

/// Parsing the wire form of a response gives the response back: the same
/// status code and reason phrase, the same header fields in the same order,
/// the same body.
///
/// This holds of every response whose parts survive the wire
/// (`response_survives`).
pub proof fn lemma_parse_serialized_response(r: Response)
    requires
        response_survives(r),
    ensures
        parse_response(serialize_response(r)) == Ok::<Response, Malformed>(r),
{
    let first = status_line(r.status_code, r.reason_phrase);
    lemma_status_line_parses(r.status_code, r.reason_phrase);
    lemma_wire_form_parses(first, r.headers, r.body);
    assert(block_of(first, r.headers)[0] == first);
}

} // verus!
