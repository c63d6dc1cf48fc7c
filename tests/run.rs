use upload_client::upload::{
    file_name_of, metadata_body, metadata_request, upload_request, Step, UploadRun,
};
use upload_client::multipart::parse_part;
use upload_client::walker::{collect, FsEntry};

const BOUNDARY: &str = "----RustBoundary123456";

fn file(p: &str) -> FsEntry {
    FsEntry::File { path: p.to_string() }
}

fn dir(p: &str, entries: Vec<FsEntry>) -> FsEntry {
    FsEntry::Dir { path: p.to_string(), entries }
}

#[test]
fn collect_walks_directories_depth_first() {
    let roots = vec![
        dir(
            "d",
            vec![
                file("d/a.txt"),
                dir("d/sub", vec![file("d/sub/b.txt"), dir("d/sub/empty", vec![])]),
                FsEntry::Other { path: "d/link".to_string() },
                file("d/c.txt"),
            ],
        ),
        file("top.txt"),
    ];
    assert_eq!(collect(&roots), vec!["d/a.txt", "d/sub/b.txt", "d/c.txt", "top.txt"]);
}

#[test]
fn collect_lists_a_file_once_when_roots_overlap() {
    let roots = vec![dir("d", vec![file("d/a"), dir("d/e", vec![file("d/e/b")])]), file("d/a"), file("d/e/b")];
    assert_eq!(collect(&roots), vec!["d/a", "d/e/b"]);
    let roots = vec![file("x"), dir("d", vec![file("d/y")]), file("x"), dir("d", vec![file("d/y")])];
    assert_eq!(collect(&roots), vec!["x", "d/y"]);
}

#[test]
fn collect_skips_missing_paths() {
    let roots = vec![FsEntry::Other { path: "no/such/file".to_string() }];
    assert!(collect(&roots).is_empty());
    let roots = vec![FsEntry::Other { path: "missing".to_string() }, file("present.txt")];
    assert_eq!(collect(&roots), vec!["present.txt"]);
}

#[test]
fn collect_of_nothing_is_empty() {
    assert!(collect(&Vec::new()).is_empty());
    assert!(collect(&vec![dir("empty", vec![])]).is_empty());
}

#[test]
fn file_name_is_last_component() {
    assert_eq!(file_name_of("private/passwords.txt"), Some(b"passwords.txt".to_vec()));
    assert_eq!(file_name_of("/a/b/c.bin"), Some(b"c.bin".to_vec()));
    assert_eq!(file_name_of("plain"), Some(b"plain".to_vec()));
    assert_eq!(file_name_of("dir/"), None);
    assert_eq!(file_name_of(""), None);
    assert_eq!(file_name_of("a/.."), None);
}

#[test]
fn upload_of_passwords_file_is_byte_exact() {
    let req = upload_request("localhost", BOUNDARY, "private/passwords.txt", b"secret").unwrap();
    let body = "------RustBoundary123456\r\n\
        Content-Disposition: form-data; name=\"file\"; filename=\"passwords.txt\"\r\n\
        Content-Type: application/octet-stream\r\n\r\n\
        secret\r\n------RustBoundary123456--\r\n";
    assert_eq!(String::from_utf8(req.body.clone()).unwrap(), body);
    let head = format!(
        "POST /upload HTTP/1.1\r\nHost: localhost\r\n\
         Content-Type: multipart/form-data; boundary=----RustBoundary123456\r\n\
         Content-Length: {}\r\nConnection: close\r\n\r\n",
        body.len()
    );
    assert_eq!(String::from_utf8(req.head).unwrap(), head);
}

#[test]
fn upload_without_file_name_is_refused() {
    assert!(upload_request("localhost", BOUNDARY, "dir/", b"x").is_none());
}

#[test]
fn zero_byte_upload_is_framed() {
    let req = upload_request("localhost", BOUNDARY, "empty.txt", b"").unwrap();
    let body = String::from_utf8(req.body.clone()).unwrap();
    assert!(body.ends_with("\r\n\r\n\r\n------RustBoundary123456--\r\n"));
    let head = String::from_utf8(req.head).unwrap();
    assert!(head.contains(&format!("Content-Length: {}\r\n", req.body.len())));
}

#[test]
fn metadata_request_is_byte_exact() {
    assert_eq!(metadata_body(), b"{\"files_meta\":[]}".to_vec());
    let req = metadata_request("localhost");
    assert_eq!(req.body, b"{\"files_meta\":[]}".to_vec());
    let head = "POST /create-meta HTTP/1.1\r\nHost: localhost\r\nContent-Type: application/json\r\n\
        Content-Length: 17\r\nConnection: close\r\n\r\n";
    assert_eq!(String::from_utf8(req.head).unwrap(), head);
}

#[test]
fn repeated_runs_give_identical_requests() {
    let a = upload_request("localhost", BOUNDARY, "private/passwords.txt", b"secret").unwrap();
    let b = upload_request("localhost", BOUNDARY, "private/passwords.txt", b"secret").unwrap();
    assert_eq!(a.head, b.head);
    assert_eq!(a.body, b.body);
    let m1 = metadata_request("localhost");
    let m2 = metadata_request("localhost");
    assert_eq!(m1.head, m2.head);
    assert_eq!(m1.body, m2.body);
}

#[test]
fn run_uploads_each_file_then_sends_metadata_once() {
    let mut run = UploadRun::new(vec!["a".to_string(), "b".to_string()]);
    let mut seen = Vec::new();
    loop {
        match run.step() {
            Step::Upload(p) => seen.push(p),
            Step::SendMetadata => seen.push("meta".to_string()),
            Step::Finished => break,
        }
        run.advance();
    }
    assert_eq!(seen, vec!["a", "b", "meta"]);
}

#[test]
fn run_over_no_files_sends_only_metadata() {
    let mut run = UploadRun::new(Vec::new());
    assert!(matches!(run.step(), Step::SendMetadata));
    run.advance();
    assert!(matches!(run.step(), Step::Finished));
}

#[test]
fn passwords_upload_reconstructs_to_its_field_name_and_content() {
    let roots = vec![dir("private", vec![file("private/passwords.txt")])];
    let files = collect(&roots);
    assert_eq!(files, vec!["private/passwords.txt"]);
    let req = upload_request("localhost", BOUNDARY, &files[0], b"secret").unwrap();
    let part = parse_part(BOUNDARY.as_bytes(), &req.body).unwrap();
    assert_eq!(part.field_name, b"file".to_vec());
    assert_eq!(part.file_name, b"passwords.txt".to_vec());
    assert_eq!(part.data, b"secret".to_vec());
    let meta = metadata_request("localhost");
    assert_eq!(String::from_utf8(meta.body).unwrap(), "{\"files_meta\":[]}");
    assert!(String::from_utf8(meta.head).unwrap().starts_with("POST /create-meta HTTP/1.1\r\n"));
}
