use breezy_registry::cache::{
    blob_exists, cached_etag, ensure_blob_local, missing_manifests, rebuild_all, refresh_repo,
    sync_repo, Existence, Fill, Found,
};
use breezy_registry::objectstore::Cas;
use breezy_registry::pending::PendingDoc;
use breezy_registry::truth::{
    backoff_millis, blob_key, index_key, log_key, manifest_key, mutate, settle, IndexDoc,
    ManifestEntry, Mutation, Settled, TagEntry,
};

fn entry(blobs: &[&str], manifests: &[&str]) -> ManifestEntry {
    ManifestEntry {
        media_type: "m".into(),
        size: 3,
        subject: None,
        artifact_type: None,
        annotations: None,
        created_at: 7,
        blob_refs: blobs.iter().map(|s| s.to_string()).collect(),
        manifest_refs: manifests.iter().map(|s| s.to_string()).collect(),
    }
}

fn push(digest: &str, tag: Option<&str>, children: &[&str]) -> Mutation {
    Mutation::Push {
        digest: digest.into(),
        entry: entry(&[], children),
        tag: tag.map(String::from),
    }
}

fn collect(digests: &[&str], cutoff: i64) -> Mutation {
    Mutation::Collect { digests: digests.iter().map(|s| s.to_string()).collect(), cutoff }
}

/// The digests of an index, in order.
fn digests(doc: &IndexDoc) -> Vec<&str> {
    (0..doc.manifests.len()).map(|i| doc.manifests.key_at(i).as_str()).collect()
}

#[test]
fn keys() {
    assert_eq!(index_key("team/app"), "repos/team/app/index.json");
    assert_eq!(log_key("team/app", 12), "repos/team/app/log/0000000012.json");
    assert_eq!(manifest_key("sha256:a"), "manifests/sha256:a");
    assert_eq!(blob_key("sha256:a"), "blobs/sha256:a");
    let keys: Vec<String> = [
        "repos/team/app/index.json",
        "repos/team/app/log/0000000001.json",
        "repos/b/index.json",
        "other/b/index.json",
        "repos/index.json",
    ]
    .iter()
    .map(|s| s.to_string())
    .collect();
    assert_eq!(rebuild_all(&keys), vec!["team/app", "b"]);
    assert_eq!(rebuild_all(&vec![index_key("x/y")]), vec!["x/y"]);
}

#[test]
fn a_push_is_recorded_and_versions_count() {
    let p = mutate(None, &push("d1", Some("v1"), &[]), 100).ok().unwrap();
    assert_eq!(p.doc.version, 1);
    assert_eq!(p.etag, None);
    assert_eq!(p.info.action, "push");
    assert_eq!(p.doc.tags.get("v1").unwrap().digest, "d1");
    assert_eq!(p.doc.tags.get("v1").unwrap().pushed_at, 100);
    let p = mutate(Some((p.doc, "e1".into())), &push("d2", None, &["d1"]), 200).ok().unwrap();
    assert_eq!(p.doc.version, 2);
    assert_eq!(p.etag.as_deref(), Some("e1"));
    assert_eq!(p.doc.manifests.len(), 2);
    assert_eq!(p.doc.tags.len(), 1);
    let why = mutate(Some((p.doc, "e2".into())), &push("d3", None, &["d1", "dx"]), 300).err().unwrap();
    assert_eq!(why, "manifest dx not found in repository");
}

#[test]
fn deletes_collections_and_retention() {
    let mut doc = IndexDoc::default();
    for (d, t) in [("d1", "a"), ("d1", "b"), ("d2", "c")] {
        push(d, Some(t), &[]).apply(&mut doc, 1).unwrap();
    }
    let info = Mutation::DeleteTag("a".into()).apply(&mut doc, 2).unwrap();
    assert_eq!((info.action, info.tag.as_deref()), ("delete-tag", Some("a")));
    assert_eq!(Mutation::DeleteTag("a".into()).apply(&mut doc, 2).unwrap_err(), "tag unknown");
    let info = Mutation::DeleteManifest("d1".into()).apply(&mut doc, 2).unwrap();
    assert_eq!((info.action, info.digest.as_deref()), ("delete-manifest", Some("d1")));
    assert!(!doc.manifests.contains_key("d1") && !doc.tags.contains_key("b"));
    assert!(doc.tags.contains_key("c"));
    assert_eq!(
        Mutation::DeleteManifest("d1".into()).apply(&mut doc, 2).unwrap_err(),
        "manifest unknown"
    );
    let given_up = vec![("c".to_string(), 1), ("zz".to_string(), 1)];
    let info = Mutation::Untag(given_up).apply(&mut doc, 3).unwrap();
    assert_eq!(info.action, "retention");
    assert_eq!(doc.tags.len(), 0);
    let info = collect(&["d2"], 7).apply(&mut doc, 3).unwrap();
    assert_eq!(info.action, "gc");
    assert_eq!(doc.manifests.len(), 0);
    assert_eq!(doc.version, 0);
}

#[test]
fn swaps_settle() {
    let p = mutate(None, &push("d1", Some("v1"), &[]), 100).ok().unwrap();
    match settle(Cas::Swapped("e9".into()), &p, "team/app", Some("ci"), 101, 0, false, 0) {
        Settled::Accepted(log, etag) => {
            assert_eq!(etag, "e9");
            assert_eq!(log.key, "repos/team/app/log/0000000001.json");
            assert_eq!((log.version, log.action, log.at), (1, "push", 101));
            assert_eq!(log.tag.as_deref(), Some("v1"));
            assert_eq!(log.digest.as_deref(), Some("d1"));
            assert_eq!(log.by.as_deref(), Some("ci"));
        }
        _ => panic!("not accepted"),
    }
    match settle(Cas::Conflict, &p, "team/app", None, 101, 3, false, 50) {
        Settled::Retry(ms) => assert_eq!(ms, 48),
        _ => panic!("no retry"),
    }
    match settle(Cas::Conflict, &p, "team/app", None, 101, 3, true, 50) {
        Settled::GivenUp(m) => assert_eq!(m, "CAS on team/app did not converge before deadline"),
        _ => panic!("not given up"),
    }
    assert_eq!(backoff_millis(13, 0), 195);
    assert_eq!(backoff_millis(14, 46), 246);
    assert_eq!(backoff_millis(u64::MAX, 47), 200);
}

#[test]
fn the_cache_follows_the_index() {
    let mut doc = IndexDoc::default();
    doc.version = 4;
    for d in ["d1", "d2", "d3"] {
        doc.manifests.insert(d.into(), entry(&[], &[]));
    }
    for (t, d) in [("one", "d1"), ("two", "d2"), ("three", "d3"), ("gone", "dx")] {
        doc.tags.insert(t.into(), TagEntry { digest: d.into(), pushed_at: 5 });
    }
    let have = vec!["d1".to_string(), "old".to_string()];
    assert_eq!(missing_manifests(&doc, &have), vec!["d2", "d3"]);
    // The bytes of d3 could not be found.
    let rows = vec![(10, "d1".to_string()), (11, "old".to_string())];
    let plan = sync_repo(&doc, "e7", &rows, &vec!["d2".to_string()]);
    assert_eq!((plan.version, plan.etag.as_str()), (4, "e7"));
    assert_eq!(plan.delete, vec![11]);
    assert_eq!(plan.update, vec!["d1"]);
    assert_eq!(plan.insert, vec!["d2"]);
    let tags: Vec<(&str, &str)> =
        plan.tags.iter().map(|t| (t.name.as_str(), t.digest.as_str())).collect();
    assert_eq!(tags, vec![("one", "d1"), ("two", "d2")]);
    // Once everything is there, rows are only written anew: a push may have changed what the
    // index records of them.
    let rows: Vec<(i64, String)> =
        ["d1", "d2", "d3"].iter().enumerate().map(|(i, d)| (i as i64, d.to_string())).collect();
    let plan = sync_repo(&doc, "e7", &rows, &vec![]);
    assert!(plan.delete.is_empty() && plan.insert.is_empty());
    assert_eq!(plan.update, vec!["d1", "d2", "d3"]);
    assert_eq!(plan.tags.len(), 3);
}

#[test]
fn refreshing() {
    assert_eq!(cached_etag(None), None);
    assert_eq!(cached_etag(Some(None)), None);
    assert_eq!(cached_etag(Some(Some("e".into()))), Some("e".to_string()));
    assert!(refresh_repo(true, Found::NotModified).is_none());
    assert!(refresh_repo(false, Found::Missing).is_none());
    let (doc, etag) = refresh_repo(true, Found::Missing).unwrap();
    assert_eq!((doc.manifests.len(), etag.as_str()), (0, ""));
    let (_, etag) = refresh_repo(true, Found::New(IndexDoc::default(), "e2".into())).unwrap();
    assert_eq!(etag, "e2");
}

#[test]
fn blobs_read_through() {
    assert!(matches!(ensure_blob_local(Some(5), true, true, "d"), Fill::Ready(5)));
    assert!(matches!(ensure_blob_local(Some(5), true, false, "d"), Fill::Ready(5)));
    assert!(matches!(ensure_blob_local(None, false, false, "d"), Fill::Unknown));
    assert!(matches!(ensure_blob_local(Some(5), false, false, "d"), Fill::Unknown));
    // A row without a file, or a file without a row, is no blob on the disk.
    assert!(matches!(ensure_blob_local(Some(5), false, true, "d"), Fill::Download(_, _)));
    assert!(matches!(ensure_blob_local(None, true, true, "d"), Fill::Download(_, _)));
    match ensure_blob_local(None, false, true, "d") {
        Fill::Download(key, staging) => {
            assert_eq!(key, "blobs/d");
            assert!(staging.starts_with("fill-"));
            assert_eq!(staging.len(), 41);
        }
        _ => panic!("no download"),
    }
    let mut ledger = PendingDoc::default();
    assert_eq!(blob_exists(None, true, "d"), Existence::Yes);
    assert_eq!(blob_exists(None, false, "d"), Existence::No);
    assert_eq!(blob_exists(Some(&ledger), true, "d"), Existence::Yes);
    assert_eq!(blob_exists(Some(&ledger), false, "d"), Existence::InBucket("blobs/d".into()));
    ledger.digests.insert("d".into(), 1);
    assert_eq!(blob_exists(Some(&ledger), true, "d"), Existence::No);
    assert!(ledger.claim_pending("d", "me", 2));
    assert_eq!(blob_exists(Some(&ledger), false, "d"), Existence::No);
}

#[test]
fn a_repushed_tag_survives_retention() {
    let mut doc = IndexDoc::default();
    push("d1", Some("v1"), &[]).apply(&mut doc, 10).unwrap();
    push("d1", Some("v2"), &[]).apply(&mut doc, 10).unwrap();
    let given_up = vec![("v1".to_string(), 10), ("v2".to_string(), 10)];
    // Another replica pushes one of them anew before the index is changed.
    push("d2", Some("v1"), &[]).apply(&mut doc, 500).unwrap();
    Mutation::Untag(given_up).apply(&mut doc, 501).unwrap();
    assert_eq!(doc.tags.len(), 1);
    assert_eq!(doc.tags.get("v1").unwrap().digest, "d2");
    assert_eq!(doc.tags.get("v1").unwrap().pushed_at, 500);
    assert_eq!(digests(&doc), vec!["d1", "d2"]);
}

#[test]
fn a_collection_spares_what_the_index_has_come_to_need() {
    let aged = |subject: Option<&str>, children: &[&str]| {
        let mut e = entry(&[], children);
        e.subject = subject.map(String::from);
        e
    };
    let mut doc = IndexDoc::default();
    doc.manifests.insert("child".into(), aged(None, &[]));
    doc.manifests.insert("grandchild".into(), aged(None, &[]));
    doc.manifests.insert("index".into(), aged(None, &["child"]));
    doc.manifests.insert("loose".into(), aged(None, &["grandchild"]));
    doc.manifests.insert("sig".into(), aged(Some("index"), &[]));
    doc.manifests.insert("sig-of-loose".into(), aged(Some("loose"), &[]));
    let chosen = ["child", "grandchild", "index", "loose", "sig", "sig-of-loose", "unknown"];

    // Nothing is as old as that.
    collect(&chosen, 6).apply(&mut doc, 100).unwrap();
    assert_eq!(doc.manifests.len(), 6);
    // The index was tagged since it was chosen: it stays, with its child and its signature.
    doc.tags.insert("latest".into(), TagEntry { digest: "index".into(), pushed_at: 99 });
    collect(&chosen, 7).apply(&mut doc, 100).unwrap();
    assert_eq!(digests(&doc), vec!["child", "index", "sig"]);
    // What was not chosen keeps what it lists, too.
    doc.tags.remove("latest");
    collect(&["child", "sig"], 7).apply(&mut doc, 101).unwrap();
    assert_eq!(digests(&doc), vec!["child", "index", "sig"]);
    collect(&chosen, 7).apply(&mut doc, 102).unwrap();
    assert_eq!(doc.manifests.len(), 0);
}

#[test]
fn a_push_in_flight_survives_a_collection() {
    let mut doc = IndexDoc::default();
    push("child", None, &[]).apply(&mut doc, 1).unwrap();
    // The child was chosen, and then an index that lists it was pushed.
    let mut late = entry(&[], &["child"]);
    late.created_at = 90;
    let change =
        Mutation::Push { digest: "late".into(), entry: late, tag: Some("v1".into()) };
    change.apply(&mut doc, 90).unwrap();
    collect(&["child", "late"], 50).apply(&mut doc, 91).unwrap();
    assert_eq!(digests(&doc), vec!["child", "late"]);
    // The other way round the push is refused.
    let mut doc = IndexDoc::default();
    push("child", None, &[]).apply(&mut doc, 1).unwrap();
    collect(&["child"], 50).apply(&mut doc, 91).unwrap();
    assert_eq!(
        change.apply(&mut doc, 92).unwrap_err(),
        "manifest child not found in repository"
    );
}

#[test]
fn two_writers_lose_no_update() {
    let start = mutate(None, &push("d1", Some("v1"), &[]), 1).ok().unwrap().doc;
    let copy = mutate(None, &push("d1", Some("v1"), &[]), 1).ok().unwrap().doc;
    // Both read the same state; the first to write wins, and the other starts over from there.
    let f = mutate(Some((start, "e1".into())), &push("d2", Some("v2"), &[]), 2).ok().unwrap();
    let g = mutate(Some((copy, "e1".into())), &push("d3", Some("v3"), &[]), 2).ok().unwrap();
    assert_eq!((f.etag.as_deref(), g.etag.as_deref()), (Some("e1"), Some("e1")));
    let again = mutate(Some((f.doc, "e2".into())), &push("d3", Some("v3"), &[]), 3).ok().unwrap();
    assert_eq!(again.etag.as_deref(), Some("e2"));
    assert_eq!(again.doc.version, 3);
    assert_eq!(digests(&again.doc), vec!["d1", "d2", "d3"]);
    assert_eq!(again.doc.tags.len(), 3);
}
