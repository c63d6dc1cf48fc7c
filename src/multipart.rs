//! Framing of a single file field as a multipart/form-data body.
use vstd::prelude::*;
use vstd::string::StringSliceAdditionalSpecFns;
use vstd::string::is_ascii;
use crate::bytes::{append_bytes, append_str, copy_range, find_byte, matches_at, occurs_at};

verus! {

/// The part headers that precede the file bytes: the opening boundary line,
/// the `Content-Disposition` line naming the field and the file, the
/// `Content-Type` line and the blank line.
pub open spec fn part_preamble(
    boundary: Seq<u8>,
    field_name: Seq<u8>,
    file_name: Seq<u8>,
    content_type: Seq<u8>,
) -> Seq<u8> {
    "--".spec_bytes() + boundary + "\r\nContent-Disposition: form-data; name=\"".spec_bytes()
        + field_name + "\"; filename=\"".spec_bytes() + file_name
        + "\"\r\nContent-Type: ".spec_bytes() + content_type + "\r\n\r\n".spec_bytes()
}

/// The closing delimiter that follows the file bytes.
pub open spec fn part_trailer(boundary: Seq<u8>) -> Seq<u8> {
    "\r\n--".spec_bytes() + boundary + "--\r\n".spec_bytes()
}

/// A whole body: preamble, the file bytes unchanged, trailer.
pub open spec fn multipart_body(
    boundary: Seq<u8>,
    field_name: Seq<u8>,
    file_name: Seq<u8>,
    content_type: Seq<u8>,
    data: Seq<u8>,
) -> Seq<u8> {
    part_preamble(boundary, field_name, file_name, content_type) + data + part_trailer(boundary)
}

/// Builds the multipart/form-data body that carries `file_bytes` as the file
/// `file_name` of the field `field_name`.
pub fn build(
    boundary: &[u8],
    field_name: &[u8],
    file_name: &[u8],
    content_type: &[u8],
    file_bytes: &[u8],
) -> (r: Vec<u8>)
    ensures
        r@ == multipart_body(boundary@, field_name@, file_name@, content_type@, file_bytes@),
{
    let mut r: Vec<u8> = Vec::new();
    append_str(&mut r, "--");
    append_bytes(&mut r, boundary);
    append_str(&mut r, "\r\nContent-Disposition: form-data; name=\"");
    append_bytes(&mut r, field_name);
    append_str(&mut r, "\"; filename=\"");
    append_bytes(&mut r, file_name);
    append_str(&mut r, "\"\r\nContent-Type: ");
    append_bytes(&mut r, content_type);
    append_str(&mut r, "\r\n\r\n");
    append_bytes(&mut r, file_bytes);
    append_str(&mut r, "\r\n--");
    append_bytes(&mut r, boundary);
    append_str(&mut r, "--\r\n");
    r
}

/// The body holds the file bytes as one contiguous run, right after the
/// preamble, and its length is the preamble's, the data's and the trailer's.
pub proof fn lemma_body_layout(
    boundary: Seq<u8>,
    field_name: Seq<u8>,
    file_name: Seq<u8>,
    content_type: Seq<u8>,
    data: Seq<u8>,
)
    ensures
        ({
            let body = multipart_body(boundary, field_name, file_name, content_type, data);
            let pre = part_preamble(boundary, field_name, file_name, content_type);
            &&& body.len() == pre.len() + data.len() + part_trailer(boundary).len()
            &&& body.subrange(pre.len() as int, pre.len() + data.len() as int) == data
        }),
{
    let body = multipart_body(boundary, field_name, file_name, content_type, data);
    let pre = part_preamble(boundary, field_name, file_name, content_type);
    assert(body.subrange(pre.len() as int, pre.len() + data.len() as int) =~= data);
}

/// A file field read back from a body.
pub struct FilePart {
    pub field_name: Vec<u8>,
    pub file_name: Vec<u8>,
    pub content_type: Vec<u8>,
    pub data: Vec<u8>,
}

/// `s` holds no byte `b`.
pub open spec fn lacks(s: Seq<u8>, b: u8) -> bool {
    forall|i: int| 0 <= i < s.len() ==> s[i] != b
}

/// Names that the framing can carry unambiguously: no `"` in the field or
/// file name, no carriage return in the content type.
pub open spec fn decodable(field_name: Seq<u8>, file_name: Seq<u8>, content_type: Seq<u8>) -> bool {
    lacks(field_name, 34) && lacks(file_name, 34) && lacks(content_type, 13)
}

/// `body` is the body built from these values, with decodable names.
pub open spec fn is_part_of(
    boundary: Seq<u8>,
    body: Seq<u8>,
    field_name: Seq<u8>,
    file_name: Seq<u8>,
    content_type: Seq<u8>,
    data: Seq<u8>,
) -> bool {
    decodable(field_name, file_name, content_type) && body == multipart_body(
        boundary,
        field_name,
        file_name,
        content_type,
        data,
    )
}

/// A prefix of `s` that is `a + b` splits into `a` and then `b`.
proof fn lemma_split_prefix(s: Seq<u8>, a: Seq<u8>, b: Seq<u8>)
    requires
        (a + b).len() <= s.len(),
        s.subrange(0, (a + b).len() as int) == a + b,
    ensures
        s.subrange(0, a.len() as int) == a,
        occurs_at(s, a.len() as int, b),
{
    assert(s.subrange(0, a.len() as int) =~= (a + b).subrange(0, a.len() as int));
    assert(s.subrange(a.len() as int, a.len() + b.len() as int) =~= (a + b).subrange(
        a.len() as int,
        a.len() + b.len() as int,
    ));
    assert((a + b).subrange(0, a.len() as int) =~= a);
    assert((a + b).subrange(a.len() as int, a.len() + b.len() as int) =~= b);
}

/// The first byte of each separator that ends a name.
proof fn lemma_separator_bytes()
    ensures
        "\"; filename=\"".spec_bytes().len() > 0,
        "\"; filename=\"".spec_bytes()[0] == 34,
        "\"\r\nContent-Type: ".spec_bytes().len() > 0,
        "\"\r\nContent-Type: ".spec_bytes()[0] == 34,
        "\r\n\r\n".spec_bytes().len() > 0,
        "\r\n\r\n".spec_bytes()[0] == 13,
{
    broadcast use vstd::string::is_ascii_spec_bytes;

    reveal_strlit("\"; filename=\"");
    reveal_strlit("\"\r\nContent-Type: ");
    reveal_strlit("\r\n\r\n");
    assert(is_ascii("\"; filename=\""));
    assert(is_ascii("\"\r\nContent-Type: "));
    assert(is_ascii("\r\n\r\n"));
}

/// Where the pieces of a built body stand.
proof fn lemma_part_layout(
    boundary: Seq<u8>,
    f: Seq<u8>,
    n: Seq<u8>,
    c: Seq<u8>,
    d: Seq<u8>,
)
    ensures
        ({
            let body = multipart_body(boundary, f, n, c, d);
            let x1 = "--".spec_bytes();
            let x2 = x1 + boundary;
            let x3 = x2 + "\r\nContent-Disposition: form-data; name=\"".spec_bytes();
            let x4 = x3 + f;
            let x5 = x4 + "\"; filename=\"".spec_bytes();
            let x6 = x5 + n;
            let x7 = x6 + "\"\r\nContent-Type: ".spec_bytes();
            let x8 = x7 + c;
            let x9 = x8 + "\r\n\r\n".spec_bytes();
            let x10 = x9 + d;
            &&& body == x10 + part_trailer(boundary)
            &&& occurs_at(body, 0, x1)
            &&& occurs_at(body, x1.len() as int, boundary)
            &&& occurs_at(body, x2.len() as int, "\r\nContent-Disposition: form-data; name=\"".spec_bytes())
            &&& occurs_at(body, x3.len() as int, f)
            &&& occurs_at(body, x4.len() as int, "\"; filename=\"".spec_bytes())
            &&& occurs_at(body, x5.len() as int, n)
            &&& occurs_at(body, x6.len() as int, "\"\r\nContent-Type: ".spec_bytes())
            &&& occurs_at(body, x7.len() as int, c)
            &&& occurs_at(body, x8.len() as int, "\r\n\r\n".spec_bytes())
            &&& occurs_at(body, x9.len() as int, d)
            &&& occurs_at(body, x10.len() as int, part_trailer(boundary))
            &&& body.len() == x10.len() + part_trailer(boundary).len()
        }),
{
    let body = multipart_body(boundary, f, n, c, d);
    let x1 = "--".spec_bytes();
    let x2 = x1 + boundary;
    let x3 = x2 + "\r\nContent-Disposition: form-data; name=\"".spec_bytes();
    let x4 = x3 + f;
    let x5 = x4 + "\"; filename=\"".spec_bytes();
    let x6 = x5 + n;
    let x7 = x6 + "\"\r\nContent-Type: ".spec_bytes();
    let x8 = x7 + c;
    let x9 = x8 + "\r\n\r\n".spec_bytes();
    let x10 = x9 + d;
    let t = part_trailer(boundary);
    assert(body == x10 + t);
    assert(body.subrange(0, body.len() as int) =~= body);
    lemma_split_prefix(body, x10, t);
    lemma_split_prefix(body, x9, d);
    lemma_split_prefix(body, x8, "\r\n\r\n".spec_bytes());
    lemma_split_prefix(body, x7, c);
    lemma_split_prefix(body, x6, "\"\r\nContent-Type: ".spec_bytes());
    lemma_split_prefix(body, x5, n);
    lemma_split_prefix(body, x4, "\"; filename=\"".spec_bytes());
    lemma_split_prefix(body, x3, f);
    lemma_split_prefix(body, x2, "\r\nContent-Disposition: form-data; name=\"".spec_bytes());
    lemma_split_prefix(body, x1, boundary);
    assert(occurs_at(body, 0, x1));
}

/// The first `stop` byte at or after `at` in `s` is at `at + len`, where
/// `s` holds a run of `len` bytes without `stop` at `at` followed by `stop`.
proof fn lemma_first_stop(s: Seq<u8>, at: int, x: Seq<u8>, y: Seq<u8>, stop: u8)
    requires
        occurs_at(s, at, x),
        occurs_at(s, at, y),
        lacks(x, stop),
        lacks(y, stop),
        at + x.len() < s.len(),
        at + y.len() < s.len(),
        s[at + x.len()] == stop,
        s[at + y.len()] == stop,
    ensures
        x == y,
{
    if x.len() < y.len() {
        assert(s.subrange(at, at + y.len())[x.len() as int] == y[x.len() as int]);
    } else if y.len() < x.len() {
        assert(s.subrange(at, at + x.len())[y.len() as int] == x[y.len() as int]);
    }
    assert(x =~= y) by {
        assert forall|k: int| 0 <= k < x.len() implies x[k] == y[k] by {
            assert(s.subrange(at, at + x.len())[k] == s.subrange(at, at + y.len())[k]);
        }
    }
}

/// Decoding recovers what a body was built from: two builds with one boundary
/// and decodable names that give the same bytes agree on the field name, the
/// file name, the content type and the file bytes.
pub proof fn lemma_part_round_trip(
    boundary: Seq<u8>,
    f: Seq<u8>,
    n: Seq<u8>,
    c: Seq<u8>,
    d: Seq<u8>,
    f2: Seq<u8>,
    n2: Seq<u8>,
    c2: Seq<u8>,
    d2: Seq<u8>,
)
    requires
        decodable(f, n, c),
        decodable(f2, n2, c2),
        multipart_body(boundary, f, n, c, d) == multipart_body(boundary, f2, n2, c2, d2),
    ensures
        f == f2,
        n == n2,
        c == c2,
        d == d2,
{
    let s = multipart_body(boundary, f, n, c, d);
    lemma_part_layout(boundary, f, n, c, d);
    lemma_part_layout(boundary, f2, n2, c2, d2);
    lemma_separator_bytes();
    let l3 = "\"; filename=\"".spec_bytes();
    let l4 = "\"\r\nContent-Type: ".spec_bytes();
    let l5 = "\r\n\r\n".spec_bytes();
    let x3 = "--".spec_bytes() + boundary + "\r\nContent-Disposition: form-data; name=\"".spec_bytes();
    let a3: int = x3.len() as int;
    assert(s.subrange(a3 + f.len(), a3 + f.len() + l3.len())[0] == l3[0]);
    assert(s.subrange(a3 + f2.len(), a3 + f2.len() + l3.len())[0] == l3[0]);
    lemma_first_stop(s, a3, f, f2, 34);
    let a5: int = a3 + f.len() + l3.len();
    assert(s.subrange(a5 + n.len(), a5 + n.len() + l4.len())[0] == l4[0]);
    assert(s.subrange(a5 + n2.len(), a5 + n2.len() + l4.len())[0] == l4[0]);
    lemma_first_stop(s, a5, n, n2, 34);
    let a7: int = a5 + n.len() + l4.len();
    assert(s.subrange(a7 + c.len(), a7 + c.len() + l5.len())[0] == l5[0]);
    assert(s.subrange(a7 + c2.len(), a7 + c2.len() + l5.len())[0] == l5[0]);
    lemma_first_stop(s, a7, c, c2, 13);
    let a9: int = a7 + c.len() + l5.len();
    assert(d =~= d2) by {
        assert(d.len() == d2.len());
        assert forall|k: int| 0 <= k < d.len() implies d[k] == d2[k] by {
            assert(s.subrange(a9, a9 + d.len())[k] == s.subrange(a9, a9 + d2.len())[k]);
        }
    }
}

/// A body whose pieces stand where the decoder found them is the body built
/// from those pieces.
proof fn lemma_assemble(
    s: Seq<u8>,
    b: Seq<u8>,
    p1: int,
    p2: int,
    p3: int,
    q3: int,
    p5: int,
    q5: int,
    p7: int,
    q7: int,
    p9: int,
    p10: int,
)
    requires
        occurs_at(s, 0, "--".spec_bytes()),
        p1 == "--".spec_bytes().len(),
        occurs_at(s, p1, b),
        p2 == p1 + b.len(),
        occurs_at(s, p2, "\r\nContent-Disposition: form-data; name=\"".spec_bytes()),
        p3 == p2 + "\r\nContent-Disposition: form-data; name=\"".spec_bytes().len(),
        p3 <= q3,
        occurs_at(s, q3, "\"; filename=\"".spec_bytes()),
        p5 == q3 + "\"; filename=\"".spec_bytes().len(),
        p5 <= q5,
        occurs_at(s, q5, "\"\r\nContent-Type: ".spec_bytes()),
        p7 == q5 + "\"\r\nContent-Type: ".spec_bytes().len(),
        p7 <= q7,
        occurs_at(s, q7, "\r\n\r\n".spec_bytes()),
        p9 == q7 + "\r\n\r\n".spec_bytes().len(),
        p9 <= p10,
        occurs_at(s, p10, part_trailer(b)),
        p10 + part_trailer(b).len() == s.len(),
    ensures
        s == multipart_body(
            b,
            s.subrange(p3, q3),
            s.subrange(p5, q5),
            s.subrange(p7, q7),
            s.subrange(p9, p10),
        ),
{
    let f = s.subrange(p3, q3);
    let n = s.subrange(p5, q5);
    let c = s.subrange(p7, q7);
    let d = s.subrange(p9, p10);
    assert(s.subrange(0, p1) =~= "--".spec_bytes());
    assert(s.subrange(0, p2) =~= s.subrange(0, p1) + b);
    assert(s.subrange(0, p3) =~= s.subrange(0, p2)
        + "\r\nContent-Disposition: form-data; name=\"".spec_bytes());
    assert(s.subrange(0, q3) =~= s.subrange(0, p3) + f);
    assert(s.subrange(0, p5) =~= s.subrange(0, q3) + "\"; filename=\"".spec_bytes());
    assert(s.subrange(0, q5) =~= s.subrange(0, p5) + n);
    assert(s.subrange(0, p7) =~= s.subrange(0, q5) + "\"\r\nContent-Type: ".spec_bytes());
    assert(s.subrange(0, q7) =~= s.subrange(0, p7) + c);
    assert(s.subrange(0, p9) =~= s.subrange(0, q7) + "\r\n\r\n".spec_bytes());
    assert(s.subrange(0, p10) =~= s.subrange(0, p9) + d);
    assert(s =~= s.subrange(0, p10) + part_trailer(b));
}

/// Reads a body back into its field name, file name, content type and file
/// bytes. Succeeds exactly when `body` was built with `boundary` from
/// decodable names.
#[verifier::rlimit(100)]
pub fn parse_part(boundary: &[u8], body: &[u8]) -> (r: Option<FilePart>)
    ensures
        match r {
            Some(p) => is_part_of(
                boundary@,
                body@,
                p.field_name@,
                p.file_name@,
                p.content_type@,
                p.data@,
            ),
            None => forall|f: Seq<u8>, n: Seq<u8>, c: Seq<u8>, d: Seq<u8>|
                !is_part_of(boundary@, body@, f, n, c, d),
        },
{
    let ghost b = boundary@;
    let ghost s = body@;
    // Where the body was built from decodable values, `w` is one such set of
    // values, and every check below succeeds where its layout puts the pieces.
    let ghost has = exists|f: Seq<u8>, n: Seq<u8>, c: Seq<u8>, d: Seq<u8>|
        is_part_of(b, s, f, n, c, d);
    let ghost w: (Seq<u8>, Seq<u8>, Seq<u8>, Seq<u8>) = if has {
        choose|f: Seq<u8>, n: Seq<u8>, c: Seq<u8>, d: Seq<u8>| is_part_of(b, s, f, n, c, d)
    } else {
        (seq![], seq![], seq![], seq![])
    };
    proof {
        assert(s.len() == body.len());
        lemma_part_layout(b, w.0, w.1, w.2, w.3);
        lemma_separator_bytes();
    }
    let l1 = "--".as_bytes();
    if !matches_at(body, 0, l1) {
        return None;
    }
    let p1 = l1.len();
    if !matches_at(body, p1, boundary) {
        return None;
    }
    let p2 = p1 + boundary.len();
    let l2 = "\r\nContent-Disposition: form-data; name=\"".as_bytes();
    if !matches_at(body, p2, l2) {
        return None;
    }
    let p3 = p2 + l2.len();
    let q3 = match find_byte(body, p3, 34) {
        Some(q) => q,
        None => return None,
    };
    let l3 = "\"; filename=\"".as_bytes();
    if !matches_at(body, q3, l3) {
        return None;
    }
    let p5 = q3 + l3.len();
    let q5 = match find_byte(body, p5, 34) {
        Some(q) => q,
        None => return None,
    };
    let l4 = "\"\r\nContent-Type: ".as_bytes();
    if !matches_at(body, q5, l4) {
        return None;
    }
    let p7 = q5 + l4.len();
    let q7 = match find_byte(body, p7, 13) {
        Some(q) => q,
        None => return None,
    };
    let l5 = "\r\n\r\n".as_bytes();
    if !matches_at(body, q7, l5) {
        return None;
    }
    let p9 = q7 + l5.len();
    let mut trailer: Vec<u8> = Vec::new();
    append_str(&mut trailer, "\r\n--");
    append_bytes(&mut trailer, boundary);
    append_str(&mut trailer, "--\r\n");
    if body.len() - p9 < trailer.len() {
        return None;
    }
    let p10 = body.len() - trailer.len();
    if !matches_at(body, p10, trailer.as_slice()) {
        return None;
    }
    let field_name = copy_range(body, p3, q3);
    let file_name = copy_range(body, p5, q5);
    let content_type = copy_range(body, p7, q7);
    let data = copy_range(body, p9, p10);
    proof {
        lemma_assemble(
            s,
            b,
            p1 as int,
            p2 as int,
            p3 as int,
            q3 as int,
            p5 as int,
            q5 as int,
            p7 as int,
            q7 as int,
            p9 as int,
            p10 as int,
        );
    }
    Some(FilePart { field_name, file_name, content_type, data })
}

} // verus!
