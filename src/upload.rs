//! The upload run: which request goes out for each file, the closing metadata
//! request, and the order in which they are made.
use vstd::prelude::*;
use vstd::string::{is_ascii, StringExecFns, StringSliceAdditionalSpecFns};
use vstd::utf8::{encode_utf8, is_ascii_chars};
use crate::bytes::{append_str, copy_range};
use crate::http::{ascii_headers, frame_request, request_head, sent_headers, HeaderBytes, HttpRequest};
use crate::multipart::{build, multipart_body};

verus! {

/// The last component of a path: the bytes after its last `/`.
pub open spec fn last_component(path: Seq<u8>) -> Seq<u8>
    decreases path.len(),
{
    if path.len() == 0 || path.last() == 47 {
        seq![]
    } else {
        last_component(path.drop_last()).push(path.last())
    }
}

/// The name a file is uploaded under: the last component of its path, where
/// that is neither empty nor `..`.
pub open spec fn upload_name(path: Seq<u8>) -> Option<Seq<u8>> {
    let c = last_component(path);
    if c.len() == 0 || c == seq![46u8, 46u8] {
        None
    } else {
        Some(c)
    }
}

/// Index just past the last `/` of the first `n` bytes of `path`, or 0.
spec fn component_start(path: Seq<u8>, n: int) -> int
    decreases n,
{
    if n <= 0 {
        0
    } else if path[n - 1] == 47 {
        n
    } else {
        component_start(path, n - 1)
    }
}

proof fn lemma_component_start(path: Seq<u8>, n: int)
    requires
        0 <= n <= path.len(),
    ensures
        0 <= component_start(path, n) <= n,
        last_component(path.subrange(0, n)) == path.subrange(component_start(path, n), n),
    decreases n,
{
    let s = path.subrange(0, n);
    if n > 0 {
        lemma_component_start(path, n - 1);
        assert(s.drop_last() =~= path.subrange(0, n - 1));
        if path[n - 1] != 47 {
            let k = component_start(path, n - 1);
            assert(path.subrange(k, n - 1).push(path[n - 1]) =~= path.subrange(k, n));
        } else {
            assert(path.subrange(n, n) =~= seq![]);
        }
    } else {
        assert(path.subrange(0, 0) =~= seq![]);
    }
}

/// The name a file at `path` is uploaded under.
pub fn file_name_of(path: &str) -> (r: Option<Vec<u8>>)
    ensures
        match upload_name(path.spec_bytes()) {
            Some(c) => r is Some && r->Some_0@ == c,
            None => r is None,
        },
{
    let b = path.as_bytes();
    let mut k: usize = b.len();
    while k > 0 && b[k - 1] != 47
        invariant
            k <= b@.len(),
            component_start(b@, k as int) == component_start(b@, b@.len() as int),
        decreases k,
    {
        k = k - 1;
    }
    proof {
        lemma_component_start(b@, b@.len() as int);
        assert(b@.subrange(0, b@.len() as int) =~= b@);
        assert(component_start(b@, k as int) == k);
    }
    let c = copy_range(b, k, b.len());
    if c.len() == 0 || (c.len() == 2 && c[0] == 46 && c[1] == 46) {
        proof {
            if c@.len() == 2 {
                assert(c@ =~= seq![46u8, 46u8]);
            }
        }
        None
    } else {
        proof {
            if c@ == seq![46u8, 46u8] {
                assert(c@[0] == 46 && c@[1] == 46);
            }
        }
        Some(c)
    }
}

/// The fixed texts that go into header blocks are ASCII.
proof fn lemma_ascii_literals()
    ensures
        is_ascii("POST"),
        is_ascii("/upload"),
        is_ascii("/create-meta"),
        is_ascii_chars("Host"@),
        is_ascii_chars("Content-Type"@),
        is_ascii_chars("multipart/form-data; boundary="@),
        is_ascii_chars("application/json"@),
{
    reveal_strlit("POST");
    reveal_strlit("/upload");
    reveal_strlit("/create-meta");
    reveal_strlit("Host");
    reveal_strlit("Content-Type");
    reveal_strlit("multipart/form-data; boundary=");
    reveal_strlit("application/json");
}

/// The headers of an upload: `Host` and the multipart content type that
/// names the boundary.
pub open spec fn upload_headers(host: Seq<char>, boundary: Seq<char>) -> Seq<HeaderBytes> {
    seq![
        ("Host".spec_bytes(), encode_utf8(host)),
        ("Content-Type".spec_bytes(), encode_utf8("multipart/form-data; boundary="@ + boundary)),
    ]
}

/// The body of an upload: the field `file`, typed as opaque bytes.
pub open spec fn upload_body(boundary: Seq<char>, name: Seq<u8>, data: Seq<u8>) -> Seq<u8> {
    multipart_body(
        encode_utf8(boundary),
        "file".spec_bytes(),
        name,
        "application/octet-stream".spec_bytes(),
        data,
    )
}

/// The header block of an upload whose body has `body_len` bytes.
pub open spec fn upload_head(host: Seq<char>, boundary: Seq<char>, body_len: nat) -> Seq<u8> {
    request_head(
        "POST".spec_bytes(),
        "/upload".spec_bytes(),
        sent_headers(upload_headers(host, boundary), body_len),
    )
}

/// The request that uploads `contents` as the file at `path`: `POST /upload`
/// with one multipart field `file` named after the path's last component.
/// There is none where the path has no usable last component.
pub fn upload_request(host: &str, boundary: &str, path: &str, contents: &[u8]) -> (r: Option<
    HttpRequest,
>)
    requires
        is_ascii(host),
        is_ascii(boundary),
    ensures
        match upload_name(path.spec_bytes()) {
            Some(name) => r is Some && r->Some_0.body@ == upload_body(boundary@, name, contents@)
                && r->Some_0.head@ == upload_head(
                host@,
                boundary@,
                upload_body(boundary@, name, contents@).len(),
            ),
            None => r is None,
        },
{
    let name = match file_name_of(path) {
        Some(n) => n,
        None => return None,
    };
    let body = build(
        boundary.as_bytes(),
        "file".as_bytes(),
        name.as_slice(),
        "application/octet-stream".as_bytes(),
        contents,
    );
    let content_type = String::from_str("multipart/form-data; boundary=").concat(boundary);
    let mut headers: Vec<(String, String)> = Vec::new();
    headers.push((String::from_str("Host"), String::from_str(host)));
    headers.push((String::from_str("Content-Type"), content_type));
    proof {
        assert(crate::http::headers_bytes(headers@) =~= upload_headers(host@, boundary@));
        lemma_ascii_literals();
        vstd::utf8::is_ascii_chars_concat(
            content_type@,
            "multipart/form-data; boundary="@,
            boundary@,
        );
        assert(ascii_headers(headers@));
    }
    Some(frame_request("POST", "/upload", &headers, body))
}

/// The metadata record of a batch: an object whose `files_meta` list is empty.
pub open spec fn metadata_json() -> Seq<u8> {
    "{\"files_meta\":[]}".spec_bytes()
}

/// The headers of the metadata request.
pub open spec fn metadata_headers(host: Seq<char>) -> Seq<HeaderBytes> {
    seq![
        ("Host".spec_bytes(), encode_utf8(host)),
        ("Content-Type".spec_bytes(), "application/json".spec_bytes()),
    ]
}

/// Serialises the metadata record.
pub fn metadata_body() -> (r: Vec<u8>)
    ensures
        r@ == metadata_json(),
{
    let mut r: Vec<u8> = Vec::new();
    append_str(&mut r, "{\"files_meta\":[]}");
    r
}

/// The request that closes a batch: `POST /create-meta` with the JSON record.
pub fn metadata_request(host: &str) -> (r: HttpRequest)
    requires
        is_ascii(host),
    ensures
        r.body@ == metadata_json(),
        r.head@ == request_head(
            "POST".spec_bytes(),
            "/create-meta".spec_bytes(),
            sent_headers(metadata_headers(host@), metadata_json().len()),
        ),
{
    let mut headers: Vec<(String, String)> = Vec::new();
    headers.push((String::from_str("Host"), String::from_str(host)));
    headers.push((String::from_str("Content-Type"), String::from_str("application/json")));
    proof {
        assert(crate::http::headers_bytes(headers@) =~= metadata_headers(host@));
        lemma_ascii_literals();
        assert(ascii_headers(headers@));
    }
    frame_request("POST", "/create-meta", &headers, metadata_body())
}

/// What the run does next.
pub enum Step {
    /// Read the file at this path and upload it.
    Upload(String),
    /// Send the metadata request.
    SendMetadata,
    /// Nothing is left to do.
    Finished,
}

/// The progress of a run over an enumerated list of files: every file is
/// attempted once, in order, whatever became of the one before, and then the
/// metadata request is sent once.
pub struct UploadRun {
    pub files: Vec<String>,
    pub next: usize,
    pub finalized: bool,
}

impl UploadRun {
    /// The position lies within the list, and the metadata request comes only
    /// after the last file.
    pub open spec fn wf(&self) -> bool {
        &&& self.next <= self.files@.len()
        &&& self.finalized ==> self.next == self.files@.len()
    }

    /// A run that has done nothing yet.
    pub fn new(files: Vec<String>) -> (r: UploadRun)
        ensures
            r.wf(),
            r.files@ == files@,
            r.next == 0,
            !r.finalized,
    {
        UploadRun { files, next: 0, finalized: false }
    }

    /// The step that is due.
    pub fn step(&self) -> (s: Step)
        requires
            self.wf(),
        ensures
            self.next < self.files@.len() ==> s is Upload && s->Upload_0@ == self.files@[self.next as int]@,
            self.next == self.files@.len() && !self.finalized ==> s is SendMetadata,
            self.finalized ==> s is Finished,
    {
        if self.next < self.files.len() {
            Step::Upload(self.files[self.next].clone())
        } else if !self.finalized {
            Step::SendMetadata
        } else {
            Step::Finished
        }
    }

    /// Records that the due step was carried out, whatever its outcome.
    pub fn advance(&mut self)
        requires
            old(self).wf(),
        ensures
            final(self).wf(),
            final(self).files@ == old(self).files@,
            old(self).next < old(self).files@.len() ==> final(self).next == old(self).next + 1
                && !final(self).finalized,
            old(self).next == old(self).files@.len() ==> final(self).next == old(self).next
                && final(self).finalized,
    {
        if self.next < self.files.len() {
            self.next = self.next + 1;
        } else {
            self.finalized = true;
        }
    }
}

} // verus!
