//! Serialisation of HTTP/1.1 requests for a one-shot, connection-closing exchange.
use vstd::prelude::*;
use vstd::string::{is_ascii, StringSliceAdditionalSpecFns};
use vstd::utf8::{encode_utf8, is_ascii_chars};
use crate::bytes::{append_bytes, append_str};
use crate::decimal::{decimal_digits, decimal_value, lemma_decimal_round_trip, render_decimal};

verus! {

/// A request ready to be written: the header block as one write, then the body
/// as a second, untouched.
pub struct HttpRequest {
    pub head: Vec<u8>,
    pub body: Vec<u8>,
}

/// A header as name and value bytes.
pub type HeaderBytes = (Seq<u8>, Seq<u8>);

/// The bytes of caller-supplied headers, in order.
pub open spec fn headers_bytes(headers: Seq<(String, String)>) -> Seq<HeaderBytes> {
    headers.map_values(|h: (String, String)| (encode_utf8(h.0@), encode_utf8(h.1@)))
}

/// Every header name and value is ASCII text.
pub open spec fn ascii_headers(headers: Seq<(String, String)>) -> bool {
    forall|i: int|
        0 <= i < headers.len() ==> is_ascii_chars(#[trigger] headers[i].0@) && is_ascii_chars(
            headers[i].1@,
        )
}

/// ASCII lower case of a byte.
pub open spec fn lower(b: u8) -> u8 {
    if 65 <= b <= 90 {
        (b + 32) as u8
    } else {
        b
    }
}

/// `a` equals the lower-case word `w` when ASCII case is ignored.
pub open spec fn same_word(a: Seq<u8>, w: Seq<u8>) -> bool {
    a.len() == w.len() && forall|i: int| 0 <= i < a.len() ==> lower(#[trigger] a[i]) == w[i]
}

/// Names the `Content-Length` header.
pub open spec fn is_content_length(name: Seq<u8>) -> bool {
    same_word(name, "content-length".spec_bytes())
}

/// Names one of the two headers that the transport writes itself.
pub open spec fn is_framing_header(name: Seq<u8>) -> bool {
    is_content_length(name) || same_word(name, "connection".spec_bytes())
}

/// The caller's headers with the framing headers left out, order kept.
pub open spec fn kept_headers(hs: Seq<HeaderBytes>) -> Seq<HeaderBytes>
    decreases hs.len(),
{
    if hs.len() == 0 {
        seq![]
    } else if is_framing_header(hs.last().0) {
        kept_headers(hs.drop_last())
    } else {
        kept_headers(hs.drop_last()).push(hs.last())
    }
}

/// The headers that go on the wire for a body of `body_len` bytes: the kept
/// ones, then `Content-Length` and `Connection: close`.
pub open spec fn sent_headers(hs: Seq<HeaderBytes>, body_len: nat) -> Seq<HeaderBytes> {
    kept_headers(hs).push(("Content-Length".spec_bytes(), decimal_digits(body_len))).push(
        ("Connection".spec_bytes(), "close".spec_bytes()),
    )
}

/// One header line, `Name: value` and CRLF.
pub open spec fn header_line(h: HeaderBytes) -> Seq<u8> {
    h.0 + ": ".spec_bytes() + h.1 + "\r\n".spec_bytes()
}

/// The header lines, in order.
pub open spec fn header_block(hs: Seq<HeaderBytes>) -> Seq<u8>
    decreases hs.len(),
{
    if hs.len() == 0 {
        seq![]
    } else {
        header_block(hs.drop_last()) + header_line(hs.last())
    }
}

/// Request line, header lines, blank line.
pub open spec fn request_head(method: Seq<u8>, target: Seq<u8>, hs: Seq<HeaderBytes>) -> Seq<u8> {
    method + " ".spec_bytes() + target + " HTTP/1.1\r\n".spec_bytes() + header_block(hs)
        + "\r\n".spec_bytes()
}

/// No header that `kept_headers` keeps is a framing header.
proof fn lemma_kept_not_framing(hs: Seq<HeaderBytes>)
    ensures
        forall|i: int|
            0 <= i < kept_headers(hs).len() ==> !is_framing_header(#[trigger] kept_headers(hs)[i].0),
    decreases hs.len(),
{
    if hs.len() > 0 {
        lemma_kept_not_framing(hs.drop_last());
        let prev = kept_headers(hs.drop_last());
        assert forall|i: int|
            0 <= i < kept_headers(hs).len() implies !is_framing_header(
                #[trigger] kept_headers(hs)[i].0,
            ) by {
            if i < prev.len() {
                assert(kept_headers(hs)[i] == prev[i]);
            }
        }
    }
}

/// The framing header names as bytes.
proof fn lemma_framing_names()
    ensures
        is_content_length("Content-Length".spec_bytes()),
        !is_content_length("Connection".spec_bytes()),
{
    broadcast use vstd::string::is_ascii_spec_bytes;

    reveal_strlit("Content-Length");
    reveal_strlit("content-length");
    reveal_strlit("Connection");
    assert(is_ascii("Content-Length"));
    assert(is_ascii("content-length"));
    assert(is_ascii("Connection"));
    assert("Connection".spec_bytes().len() == 10);
    assert("content-length".spec_bytes().len() == 14);
    let a = "Content-Length".spec_bytes();
    let w = "content-length".spec_bytes();
    assert forall|i: int| 0 <= i < a.len() implies lower(#[trigger] a[i]) == w[i] by {
        assert(a[i] == "Content-Length"@[i] as u8);
        assert(w[i] == "content-length"@[i] as u8);
    }
}

/// Every `Content-Length` header of a framed request declares the body's
/// exact length, and there is one, whatever headers the caller supplied.
pub proof fn lemma_declared_length(hs: Seq<HeaderBytes>, body_len: nat)
    ensures
        forall|i: int|
            0 <= i < sent_headers(hs, body_len).len() && is_content_length(
                #[trigger] sent_headers(hs, body_len)[i].0,
            ) ==> decimal_value(sent_headers(hs, body_len)[i].1) == body_len,
        exists|i: int|
            0 <= i < sent_headers(hs, body_len).len() && is_content_length(
                #[trigger] sent_headers(hs, body_len)[i].0,
            ),
{
    let sent = sent_headers(hs, body_len);
    let k = kept_headers(hs);
    lemma_kept_not_framing(hs);
    lemma_framing_names();
    lemma_decimal_round_trip(body_len);
    assert(sent[k.len() as int].0 == "Content-Length".spec_bytes());
    assert forall|i: int| 0 <= i < sent.len() && is_content_length(#[trigger] sent[i].0) implies decimal_value(
        sent[i].1,
    ) == body_len by {
        if i < k.len() {
            assert(sent[i] == k[i]);
        }
    }
}

/// Tests whether `name` is `word` (given in lower case) when ASCII case is ignored.
fn is_word(name: &[u8], word: &[u8]) -> (r: bool)
    ensures
        r == same_word(name@, word@),
{
    if name.len() != word.len() {
        return false;
    }
    let mut i: usize = 0;
    while i < name.len()
        invariant
            i <= name@.len(),
            name@.len() == word@.len(),
            forall|j: int| 0 <= j < i ==> lower(#[trigger] name@[j]) == word@[j],
        decreases name@.len() - i,
    {
        let b = name[i];
        let l: u8 = if 65 <= b && b <= 90 {
            b + 32
        } else {
            b
        };
        if l != word[i] {
            return false;
        }
        i = i + 1;
    }
    true
}

/// Appends the line of one header.
fn push_header(out: &mut Vec<u8>, name: &[u8], value: &[u8])
    ensures
        final(out)@ == old(out)@ + header_line((name@, value@)),
{
    append_bytes(out, name);
    append_str(out, ": ");
    append_bytes(out, value);
    append_str(out, "\r\n");
    proof {
        assert(final(out)@ =~= old(out)@ + header_line((name@, value@)));
    }
}

/// Frames a request: `METHOD target HTTP/1.1`, the caller's headers in order
/// (any `Content-Length` or `Connection` among them left out), then
/// `Content-Length` with the body's exact length and `Connection: close`.
pub fn frame_request(method: &str, target: &str, headers: &Vec<(String, String)>, body: Vec<u8>) -> (r:
    HttpRequest)
    requires
        is_ascii(method),
        is_ascii(target),
        ascii_headers(headers@),
    ensures
        r.body@ == body@,
        r.head@ == request_head(
            method.spec_bytes(),
            target.spec_bytes(),
            sent_headers(headers_bytes(headers@), body@.len()),
        ),
{
    let ghost hs = headers_bytes(headers@);
    let mut head: Vec<u8> = Vec::new();
    append_str(&mut head, method);
    append_str(&mut head, " ");
    append_str(&mut head, target);
    append_str(&mut head, " HTTP/1.1\r\n");
    let ghost start = head@;
    let mut i: usize = 0;
    while i < headers.len()
        invariant
            i <= headers@.len(),
            hs == headers_bytes(headers@),
            head@ == start + header_block(kept_headers(hs.take(i as int))),
        decreases headers@.len() - i,
    {
        let name = headers[i].0.as_str().as_bytes();
        let value = headers[i].1.as_str().as_bytes();
        proof {
            assert(hs.take(i + 1).drop_last() =~= hs.take(i as int));
            assert(hs.take(i + 1).last() == hs[i as int]);
        }
        if !is_word(name, "content-length".as_bytes()) && !is_word(name, "connection".as_bytes()) {
            push_header(&mut head, name, value);
            proof {
                let k = kept_headers(hs.take(i as int));
                assert(kept_headers(hs.take(i + 1)) == k.push(hs[i as int]));
                assert(k.push(hs[i as int]).drop_last() =~= k);
                assert(head@ =~= start + header_block(k.push(hs[i as int])));
            }
        }
        i = i + 1;
    }
    proof {
        assert(hs.take(headers@.len() as int) =~= hs);
    }
    let ghost kept = kept_headers(hs);
    let digits = render_decimal(body.len());
    let ghost mid = head@;
    push_header(&mut head, "Content-Length".as_bytes(), digits.as_slice());
    push_header(&mut head, "Connection".as_bytes(), "close".as_bytes());
    append_str(&mut head, "\r\n");
    proof {
        let cl: HeaderBytes = ("Content-Length".spec_bytes(), decimal_digits(body@.len()));
        let cn: HeaderBytes = ("Connection".spec_bytes(), "close".spec_bytes());
        let sent = sent_headers(hs, body@.len());
        assert(sent.drop_last() =~= kept.push(cl));
        assert(kept.push(cl).drop_last() =~= kept);
        assert(sent.last() == cn);
        assert(kept.push(cl).last() == cl);
        assert(header_block(kept.push(cl)) == header_block(kept) + header_line(cl));
        assert(header_block(sent) == header_block(kept.push(cl)) + header_line(cn));
        assert(mid == start + header_block(kept));
        assert(head@ =~= request_head(method.spec_bytes(), target.spec_bytes(), sent));
    }
    HttpRequest { head, body }
}

} // verus!
