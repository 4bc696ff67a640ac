use breezy_registry::digest::digest_of;
use breezy_registry::oci::errors::{Body, Reply};
use breezy_registry::oci::manifests::{
    after_check, after_store, answer_delete, answer_push, by_digest, commit, delete, describe,
    find_missing, get, page, push_refs, put, record, referrers, tags_list, Push, PushStep, Query,
    Recorded, ReferrerRow, Stored, MANIFEST_LIMIT,
};
use breezy_registry::oci::query_map;
use breezy_registry::truth::Mutation;

fn sha(c: char) -> String {
    format!("sha256:{}", c.to_string().repeat(64))
}

fn header<'a>(r: &'a Reply, name: &str) -> Option<&'a str> {
    r.headers.iter().find(|(n, _)| n == name).map(|(_, v)| v.as_str())
}

fn error(r: &Reply) -> (u16, &str, &str) {
    match &r.body {
        Body::Error(c, m) => (r.status, c.as_str(), m.as_str()),
        _ => panic!("no error"),
    }
}

fn image() -> String {
    format!(
        r#"{{"schemaVersion":2,"mediaType":"from/body","config":{{"digest":"{}","mediaType":"cfg/type"}},
        "layers":[{{"digest":"{}"}},{{"digest":"{}"}},{{"digest":"{}"}}],
        "subject":{{"digest":"{}"}},"annotations":{{"b":"2","a":[1,null]}}}}"#,
        sha('c'),
        sha('b'),
        sha('a'),
        sha('b'),
        sha('f')
    )
}

fn push(reference: &str, ct: Option<&str>, body: &str) -> Push {
    match put(reference, ct, Some(body.as_bytes().to_vec())) {
        Ok(p) => p,
        Err(r) => panic!("{:?}", error(&r)),
    }
}

fn refusal(reference: &str, body: Option<&str>) -> (u16, String, String) {
    match put(reference, None, body.map(|b| b.as_bytes().to_vec())) {
        Ok(_) => panic!("taken"),
        Err(r) => {
            let (s, c, m) = error(&r);
            (s, c.to_string(), m.to_string())
        }
    }
}

#[test]
fn a_push_is_described() {
    let body = image();
    let p = push("v1", None, &body);
    assert_eq!(p.digest, digest_of(body.as_bytes()));
    assert_eq!(p.tag.as_deref(), Some("v1"));
    assert_eq!(p.payload, body.as_bytes());
    assert_eq!(p.media_type, "from/body");
    assert_eq!(p.subject, Some(sha('f')));
    assert_eq!(p.artifact_type.as_deref(), Some("cfg/type"));
    assert_eq!(p.annotations.as_deref(), Some(r#"{"a":[1,null],"b":"2"}"#));
    assert_eq!(p.blobs, vec![sha('a'), sha('b'), sha('c')]);
    assert!(p.manifests.is_empty());

    let p = push(&digest_of(body.as_bytes()), Some(" text/x ; charset=y"), &body);
    assert_eq!(p.tag, None);
    assert_eq!(p.media_type, "text/x");
    for ct in ["application/octet-stream", "", " ; x"] {
        assert_eq!(push("v1", Some(ct), &body).media_type, "from/body");
    }
    let p = push("v1", None, "{}");
    assert_eq!(p.media_type, "application/vnd.oci.image.manifest.v1+json");
    assert_eq!((p.subject, p.artifact_type, p.annotations), (None, None, None));
    let p = push("v1", None, r#"{"artifactType":"x/y","subject":{"digest":"bad"},"annotations":null}"#);
    assert_eq!(p.artifact_type.as_deref(), Some("x/y"));
    assert_eq!(p.subject, None);
    assert_eq!(p.annotations.as_deref(), Some("null"));
    let p = push(
        "v1",
        None,
        &format!(r#"{{"manifests":[{{"digest":"{}"}},{{"digest":"{}"}}]}}"#, sha('b'), sha('a')),
    );
    assert_eq!(p.manifests, vec![sha('a'), sha('b')]);
    // Not an object: nothing is found in it.
    assert!(push("v1", None, "[1]").blobs.is_empty());
}

#[test]
fn pushes_that_are_refused() {
    let m = |s: &str| (400, "MANIFEST_INVALID".to_string(), s.to_string());
    assert_eq!(refusal("v1", None), m("manifest too large or unreadable"));
    let long = format!("\"{}\"", "x".repeat(MANIFEST_LIMIT));
    assert_eq!(refusal("v1", Some(&long)), m("manifest too large or unreadable"));
    assert_eq!(refusal(".bad", Some("{}")), m("invalid tag"));
    assert_eq!(
        refusal(&sha('a'), Some("{}")),
        (
            400,
            "DIGEST_INVALID".to_string(),
            "provided digest does not match manifest content".to_string()
        )
    );
    assert_eq!(refusal("v1", Some("{")), m("manifest is not valid JSON"));
    assert_eq!(
        refusal("v1", Some(r#"{"manifests":[{}]}"#)),
        m("index entry missing valid digest")
    );
    assert_eq!(
        refusal("v1", Some(r#"{"manifests":[{"digest":7}]}"#)),
        m("index entry missing valid digest")
    );
    assert_eq!(
        refusal("v1", Some(r#"{"config":{"digest":"x"}}"#)),
        (400, "DIGEST_INVALID".to_string(), "config digest invalid".to_string())
    );
    assert_eq!(
        refusal("v1", Some(&format!(r#"{{"layers":[{{"digest":"{}"}},{{"digest":"x"}}]}}"#, sha('a')))),
        m("layer missing valid digest")
    );
    // The list of manifests is looked at first.
    assert_eq!(
        refusal("v1", Some(r#"{"layers":[{}],"config":{"digest":"x"},"manifests":[1]}"#)),
        m("index entry missing valid digest")
    );
}

#[test]
fn a_parsed_manifest_is_described() {
    let v: serde_json::Value = serde_json::from_str(&image()).unwrap();
    let d = match describe(None, &v) {
        Ok(d) => d,
        Err(_) => panic!("refused"),
    };
    assert_eq!(d.blobs, vec![sha('a'), sha('b'), sha('c')]);
    let v: serde_json::Value = serde_json::from_str(r#"{"layers":[{}]}"#).unwrap();
    assert!(describe(None, &v).is_err());
}

#[test]
fn a_push_into_a_bucket_goes_step_by_step() {
    let p = push("v1", None, &image());
    assert!(matches!(after_store(&p, false), PushStep::Answer(Recorded::Failed)));
    assert!(matches!(after_store(&p, true), PushStep::Check(0)));
    assert!(matches!(after_check(&p, 0, Some(true)), PushStep::Check(1)));
    assert!(matches!(after_check(&p, 1, None), PushStep::Answer(Recorded::Failed)));
    assert!(matches!(after_check(&p, 2, Some(true)), PushStep::Commit));
    match after_check(&p, 1, Some(false)) {
        PushStep::Answer(how) => {
            let r = answer_push("team/app", &p, how);
            assert_eq!(
                error(&r),
                (400, "MANIFEST_BLOB_UNKNOWN", format!("blob {} not found", sha('b')).as_str())
            );
        }
        _ => panic!("goes on"),
    }
    assert!(matches!(after_store(&push("v1", None, "{}"), true), PushStep::Commit));
    match commit(&p, 77) {
        Mutation::Push { digest, entry, tag } => {
            assert_eq!(digest, p.digest);
            assert_eq!(tag.as_deref(), Some("v1"));
            assert_eq!(entry.size, p.payload.len() as i64);
            assert_eq!(entry.created_at, 77);
            assert_eq!(entry.blob_refs, p.blobs);
        }
        _ => panic!("no push"),
    }
    let r = answer_push("team/app", &p, Recorded::Done);
    assert_eq!(r.status, 201);
    assert_eq!(
        header(&r, "location"),
        Some(format!("/v2/team/app/manifests/{}", p.digest).as_str())
    );
    assert_eq!(header(&r, "oci-subject"), Some(sha('f').as_str()));
    assert_eq!(answer_push("a", &p, Recorded::Failed).status, 500);
}

#[test]
fn a_local_push_needs_its_references() {
    let p = push(
        "v1",
        None,
        &format!(
            r#"{{"config":{{"digest":"{}"}},"manifests":[{{"digest":"{}"}}]}}"#,
            sha('a'),
            sha('b')
        ),
    );
    assert_eq!(find_missing(&p, &vec![], &vec![]), Some(format!("blob {} not found", sha('a'))));
    assert_eq!(
        find_missing(&p, &vec![sha('a')], &vec![]),
        Some(format!("manifest {} not found in repository", sha('b')))
    );
    assert_eq!(find_missing(&p, &vec![sha('a')], &vec![sha('b')]), None);
    let refs = push_refs(&p, 9);
    let got: Vec<(i64, &str, &str)> =
        refs.iter().map(|r| (r.manifest_id, r.child.as_str(), r.kind.as_str())).collect();
    assert_eq!(got, vec![(9, sha('a').as_str(), "blob"), (9, sha('b').as_str(), "manifest")]);
}

#[test]
fn a_pushed_manifest_reads_back() {
    let p = push("v1", Some("x/y"), "{ }");
    let stored = Stored {
        payload: p.payload.clone(),
        media_type: p.media_type.clone(),
        digest: p.digest.clone(),
    };
    let r = get(Query::Present(stored), false);
    assert_eq!(r.status, 200);
    assert!(matches!(&r.body, Body::Bytes(b) if b == b"{ }"));
    assert_eq!(header(&r, "content-type"), Some("x/y"));
    assert_eq!(header(&r, "content-length"), Some("3"));
    assert_eq!(header(&r, "docker-content-digest"), Some(digest_of(b"{ }").as_str()));
    let s = Stored { payload: vec![1, 2], media_type: "m".into(), digest: "d".into() };
    let r = get(Query::Present(s), true);
    assert!(matches!(r.body, Body::Empty));
    assert_eq!(header(&r, "content-length"), Some("2"));
    assert_eq!(error(&get(Query::Absent, false)).1, "MANIFEST_UNKNOWN");
    assert_eq!(get(Query::Failed, true).status, 500);
}

#[test]
fn rows_of_a_push() {
    let p = push("v1", None, "{}");
    let plan = record(&p, false);
    assert!(plan.insert && !plan.touch);
    assert_eq!(plan.tag.as_deref(), Some("v1"));
    assert!(!record(&p, true).insert && record(&p, true).touch);
    let p = push(&digest_of(b"{}"), None, "{}");
    assert_eq!(record(&p, true).tag, None);
}

#[test]
fn deleting() {
    assert!(by_digest(&sha('a')) && !by_digest("v1"));
    assert!(matches!(delete("v1"), Mutation::DeleteTag(t) if t == "v1"));
    assert!(matches!(delete(&sha('a')), Mutation::DeleteManifest(d) if d == sha('a')));
    assert_eq!(answer_delete(Some(true)).status, 202);
    assert_eq!(answer_delete(Some(false)).status, 404);
    assert_eq!(answer_delete(None).status, 500);
}

fn names(list: &[&str]) -> Vec<String> {
    list.iter().map(|s| s.to_string()).collect()
}

#[test]
fn pages_of_tags() {
    let all = names(&["v2", "v10", "latest", "v1"]);
    assert_eq!(page(&all, None, None), vec!["latest", "v1", "v10", "v2"]);
    assert_eq!(page(&all, None, Some(2)), vec!["latest", "v1"]);
    assert_eq!(page(&all, Some("v1"), Some(2)), vec!["v10", "v2"]);
    assert_eq!(page(&all, Some("v2"), Some(2)), Vec::<String>::new());
    assert_eq!(page(&all, Some("m"), None), vec!["v1", "v10", "v2"]);
    assert!(page(&all, None, Some(0)).is_empty());
    assert!(page(&all, None, Some(-5)).is_empty());
    // Following the pages visits every tag once.
    let mut seen = vec![];
    let mut last: Option<String> = None;
    loop {
        let p = page(&all, last.as_deref(), Some(1));
        match p.last() {
            Some(t) => last = Some(t.clone()),
            None => break,
        }
        seen.extend(p);
    }
    assert_eq!(seen, vec!["latest", "v1", "v10", "v2"]);
}

#[test]
fn tag_lists_link_to_the_next_page() {
    let all = || Query::Present(names(&["b", "a", "c"]));
    let r = tags_list("team/app", all(), &query_map(Some("n=2")));
    assert_eq!(r.status, 200);
    assert!(matches!(&r.body, Body::Tags(n, t) if n == "team/app" && *t == names(&["a", "b"])));
    assert_eq!(
        header(&r, "link"),
        Some("</v2/team/app/tags/list?last=b&n=2>; rel=\"next\"")
    );
    let r = tags_list("team/app", all(), &query_map(Some("n=2&last=b")));
    assert!(matches!(&r.body, Body::Tags(_, t) if *t == names(&["c"])));
    assert_eq!(header(&r, "link"), None);
    let r = tags_list("team/app", all(), &query_map(Some("n=x")));
    assert!(matches!(&r.body, Body::Tags(_, t) if t.len() == 3));
    let r = tags_list("team/app", all(), &query_map(Some("n=0")));
    assert!(matches!(&r.body, Body::Tags(_, t) if t.is_empty()));
    assert_eq!(header(&r, "link"), None);
    assert_eq!(error(&tags_list("a", Query::Absent, &query_map(None))).1, "NAME_UNKNOWN");
    assert_eq!(tags_list("a", Query::Failed, &query_map(None)).status, 500);
}

#[test]
fn listing_referrers() {
    let row = |d: char, at: Option<&str>, ann: Option<&str>| ReferrerRow {
        digest: sha(d),
        media_type: "m".into(),
        size: 4,
        artifact_type: at.map(String::from),
        annotations: ann.map(String::from),
    };
    let rows = || {
        Some(vec![
            row('a', Some("sig"), Some("{\"k\":1}")),
            row('b', Some("sbom"), Some("{broken")),
            row('c', None, None),
        ])
    };
    let r = referrers(rows(), &query_map(None));
    assert_eq!(header(&r, "content-type"), Some("application/vnd.oci.image.index.v1+json"));
    assert_eq!(header(&r, "oci-filters-applied"), None);
    match &r.body {
        Body::Index(list) => {
            assert_eq!(list.len(), 3);
            assert_eq!(list[0].digest, sha('a'));
            assert_eq!(list[0].annotations.as_deref(), Some("{\"k\":1}"));
            assert_eq!(list[1].annotations, None);
            assert_eq!(list[2].artifact_type, None);
        }
        _ => panic!("no index"),
    }
    let r = referrers(rows(), &query_map(Some("artifactType=sbom")));
    assert_eq!(header(&r, "oci-filters-applied"), Some("artifactType"));
    assert!(matches!(&r.body, Body::Index(l) if l.len() == 1 && l[0].digest == sha('b')));
    assert_eq!(referrers(None, &query_map(None)).status, 500);
}

#[test]
fn following_the_links_visits_every_tag() {
    let all: Vec<String> = (0..23).map(|i| format!("v1.{i}-rc_{}", i % 3)).collect();
    let mut seen: Vec<String> = vec![];
    let mut query = "n=5".to_string();
    loop {
        let r = tags_list("team/app", Query::Present(all.clone()), &query_map(Some(&query)));
        match &r.body {
            Body::Tags(_, tags) => seen.extend(tags.iter().cloned()),
            _ => panic!("no tags"),
        }
        let Some(link) = header(&r, "link") else { break };
        let target = link.strip_prefix("</v2/team/app/tags/list?").unwrap();
        query = target.strip_suffix(">; rel=\"next\"").unwrap().to_string();
    }
    let mut sorted = all.clone();
    sorted.sort();
    assert_eq!(seen, sorted);
}
