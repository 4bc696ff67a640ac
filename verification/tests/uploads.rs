use breezy_registry::oci::blobs::{delete, get, parse_range, removal, Removal};
use breezy_registry::oci::errors::{Body, Reply};
use breezy_registry::oci::manifests::Query;
use breezy_registry::oci::query_map;
use breezy_registry::oci::uploads::{
    accepted, advance, after_clear, after_commit, after_hash, after_mount, after_open, after_patch,
    after_record, after_upload, asked_digest, cancel, finalize, is_abandoned, patch, put, start,
    status, Chunk, FinalStep, Last, StartStep,
};

fn sha(c: char) -> String {
    format!("sha256:{}", c.to_string().repeat(64))
}

fn header<'a>(r: &'a Reply, name: &str) -> Option<&'a str> {
    r.headers.iter().find(|(n, _)| n == name).map(|(_, v)| v.as_str())
}

fn error(r: &Reply) -> (u16, &str, &str) {
    match &r.body {
        Body::Error(c, m) => (r.status, c.as_str(), m.as_str()),
        _ => panic!("no error"),
    }
}

#[test]
fn starting() {
    let mount = query_map(Some(&format!("mount={}&from=x", sha('a'))));
    assert!(matches!(start(&mount), StartStep::CheckMount(d) if d == sha('a')));
    match start(&query_map(Some("mount=bad"))) {
        StartStep::Open(u) => {
            assert_eq!(u.len(), 36);
            assert_eq!(u.matches('-').count(), 4);
        }
        _ => panic!("not opened"),
    }
    match after_mount("team/app", &sha('a'), Some(true)) {
        StartStep::Answer(r) => {
            assert_eq!(r.status, 201);
            assert_eq!(
                header(&r, "location"),
                Some(format!("/v2/team/app/blobs/{}", sha('a')).as_str())
            );
            assert_eq!(header(&r, "docker-content-digest"), Some(sha('a').as_str()));
        }
        _ => panic!("not mounted"),
    }
    assert!(matches!(after_mount("a", &sha('a'), Some(false)), StartStep::Open(_)));
    assert!(matches!(after_mount("a", &sha('a'), None), StartStep::Answer(r) if r.status == 500));
    assert!(matches!(after_open("a", "u", &query_map(None), false),
        StartStep::Answer(r) if r.status == 500));
    assert!(matches!(after_open("a", "u", &query_map(Some("digest=d")), true),
        StartStep::Append(d) if d == "d"));
    match after_open("a", "u", &query_map(None), true) {
        StartStep::Answer(r) => {
            assert_eq!(r.status, 202);
            assert_eq!(header(&r, "location"), Some("/v2/a/blobs/uploads/u"));
            assert_eq!(header(&r, "range"), Some("0-0"));
            assert_eq!(header(&r, "docker-upload-uuid"), Some("u"));
        }
        _ => panic!("not accepted"),
    }
}

#[test]
fn chunks_continue_where_the_session_is() {
    assert!(matches!(patch(Query::Present(10), None), Chunk::Append(10)));
    assert!(matches!(patch(Query::Present(10), Some("10-19")), Chunk::Append(10)));
    assert!(matches!(patch(Query::Present(10), Some("10")), Chunk::Append(10)));
    for bad in ["11-19", "x-1", "", "-10"] {
        match patch(Query::Present(10), Some(bad)) {
            Chunk::Answer(r) => {
                assert_eq!(
                    error(&r),
                    (416, "BLOB_UPLOAD_INVALID", "content range does not match upload state")
                );
                assert_eq!(header(&r, "range"), Some("0-9"));
            }
            _ => panic!("appended"),
        }
    }
    assert!(matches!(patch(Query::Absent, None), Chunk::Answer(r) if r.status == 404));
    assert!(matches!(patch(Query::Failed, None), Chunk::Answer(r) if r.status == 500));
    assert_eq!(advance(10, 5), 15);
    assert_eq!(header(&after_patch("a", "u", Some(15)), "range"), Some("0-14"));
    assert_eq!(after_patch("a", "u", None).status, 500);
    assert_eq!(header(&accepted("a", "u", 1), "range"), Some("0-0"));
}

#[test]
fn sessions_end() {
    assert_eq!(asked_digest(&query_map(Some("digest=d"))).ok().unwrap(), "d");
    let r = asked_digest(&query_map(None)).err().unwrap();
    assert_eq!(error(&r), (400, "DIGEST_INVALID", "digest query parameter required"));
    assert!(matches!(put("d".into(), Query::Present(3)), Last::Append(d) if d == "d"));
    assert!(matches!(put("d".into(), Query::Absent),
        Last::Answer(r) if error(&r).1 == "BLOB_UPLOAD_UNKNOWN"));
    assert!(matches!(put("d".into(), Query::Failed), Last::Answer(r) if r.status == 500));
    let r = status("a", "u", Query::Present(5));
    assert_eq!((r.status, header(&r, "range")), (204, Some("0-4")));
    assert_eq!(status("a", "u", Query::Absent).status, 404);
    assert_eq!(status("a", "u", Query::Failed).status, 500);
    assert_eq!(cancel().status, 204);
    assert!(is_abandoned(0, 86_401) && !is_abandoned(1, 86_401));
}

#[test]
fn a_staged_file_becomes_a_blob() {
    let d = sha('a');
    assert!(matches!(finalize("team/app", &d), FinalStep::Hash));
    for (n, x) in [("team/app", "sha256:a"), ("Team", d.as_str())] {
        match finalize(n, x) {
            FinalStep::Abort(r) => {
                assert_eq!(error(&r), (400, "DIGEST_INVALID", "invalid digest format"))
            }
            _ => panic!("goes on"),
        }
    }
    assert!(matches!(after_hash(&d, Some(&d)), FinalStep::Commit));
    assert!(matches!(after_hash(&d, None), FinalStep::Abort(r) if r.status == 500));
    match after_hash(&d, Some(&sha('b'))) {
        FinalStep::Abort(r) => assert_eq!(error(&r).2, "digest does not match uploaded content"),
        _ => panic!("goes on"),
    }
    assert!(matches!(after_commit(&d, false, true), FinalStep::Abort(_)));
    assert!(matches!(after_commit(&d, true, false), FinalStep::Record));
    assert!(matches!(after_commit(&d, true, true), FinalStep::Upload(k) if k == format!("blobs/{d}")));
    assert!(matches!(after_upload(false, false), FinalStep::Undo(r) if r.status == 500));
    assert!(matches!(after_upload(true, false), FinalStep::Clear));
    assert!(matches!(after_clear(&d, Some(true)), FinalStep::Upload(_)));
    assert!(matches!(after_upload(true, true), FinalStep::Record));
    assert!(matches!(after_clear(&d, Some(false)), FinalStep::Record));
    assert!(matches!(after_clear(&d, None), FinalStep::Undo(_)));
    let r = after_record("team/app", &d, true);
    assert_eq!(r.status, 201);
    assert_eq!(header(&r, "docker-content-digest"), Some(d.as_str()));
    assert_eq!(after_record("team/app", &d, false).status, 500);
}

#[test]
fn ranges() {
    assert_eq!(parse_range(Some("bytes=0-3"), 10), Some((0, 3)));
    assert_eq!(parse_range(Some("bytes=4-"), 10), Some((4, 9)));
    assert_eq!(parse_range(Some("bytes=9-9"), 10), Some((9, 9)));
    for bad in ["bytes=0-10", "bytes=5-4", "bytes=-3", "bytes=a-b", "0-3", "bytes=3", "bytes=-1-3"] {
        assert_eq!(parse_range(Some(bad), 10), None);
    }
    assert_eq!(parse_range(None, 10), None);
    assert_eq!(parse_range(Some("bytes=0-"), 0), None);
    assert_eq!(parse_range(Some("bytes=0-"), i64::MIN), None);
}

#[test]
fn blobs_are_served_whole_or_in_part() {
    let d = sha('a');
    let r = get(Query::Present(10), &d, false, Some("bytes=2-5"));
    assert_eq!(r.status, 206);
    assert!(matches!(&r.body, Body::Part(x, 2, 4) if *x == d));
    assert_eq!(header(&r, "content-length"), Some("4"));
    assert_eq!(header(&r, "content-range"), Some("bytes 2-5/10"));
    let r = get(Query::Present(10), &d, false, Some("bytes=2-50"));
    assert_eq!(r.status, 200);
    assert!(matches!(&r.body, Body::Blob(x) if *x == d));
    let r = get(Query::Present(10), &d, true, Some("bytes=2-5"));
    assert_eq!((r.status, header(&r, "content-length")), (200, Some("10")));
    assert_eq!(header(&r, "accept-ranges"), Some("bytes"));
    assert!(matches!(r.body, Body::Empty));
    assert_eq!(error(&get(Query::Absent, &d, false, None)).1, "BLOB_UNKNOWN");
    assert_eq!(get(Query::Failed, &d, false, None).status, 500);
}

#[test]
fn blobs_are_deleted_unless_something_refers_to_them() {
    assert_eq!(removal(1, 0), Removal::Referenced);
    assert_eq!(removal(0, 1), Removal::Removed);
    assert_eq!(removal(0, 0), Removal::Unknown);
    let r = delete(Some(Removal::Referenced));
    assert_eq!(
        error(&r),
        (409, "DENIED", "blob is referenced by one or more manifests")
    );
    assert_eq!(delete(Some(Removal::Unknown)).status, 404);
    assert_eq!(delete(Some(Removal::Removed)).status, 202);
    assert_eq!(delete(None).status, 500);
}
