use breezy_registry::db::{ref_rows, BlobRow, ManifestRow, RefRow};
use breezy_registry::gc::{cutoff, droppable, mark, removals, report, Rows, Victim};

fn manifest(id: i64, repo: i64, digest: &str, subject: Option<&str>, created: i64) -> ManifestRow {
    ManifestRow {
        id,
        repo_id: repo,
        digest: digest.into(),
        subject: subject.map(String::from),
        created_at: created,
    }
}

fn refer(id: i64, child: &str, kind: &str) -> RefRow {
    RefRow { manifest_id: id, child: child.into(), kind: kind.into() }
}

fn blob(digest: &str, size: i64, created: i64) -> BlobRow {
    BlobRow { digest: digest.into(), size, created_at: created }
}

fn ids(v: &[Victim]) -> Vec<i64> {
    v.iter().map(|v| v.id).collect()
}

/// An index with two images, a signature of one of them, and a signature of that signature.
fn rows() -> Rows {
    Rows {
        manifests: vec![
            manifest(1, 1, "index", None, 0),
            manifest(2, 1, "image-a", None, 0),
            manifest(3, 1, "image-b", None, 0),
            manifest(4, 1, "sig", Some("image-b"), 0),
            manifest(5, 1, "sig-of-sig", Some("sig"), 0),
            manifest(6, 1, "loose", None, 0),
            manifest(7, 2, "image-a", None, 0),
            manifest(8, 2, "other-sig", Some("image-b"), 0),
            manifest(9, 1, "young", None, 95),
            manifest(10, 3, "nameless", None, 0),
        ],
        refs: vec![
            refer(1, "image-a", "manifest"),
            refer(1, "image-b", "manifest"),
            refer(2, "layer-1", "blob"),
            refer(6, "layer-2", "blob"),
            refer(6, "layer-1", "blob"),
            refer(9, "layer-3", "blob"),
        ],
        tagged: vec![1],
        repos: vec![(1, "team/app".into()), (2, "team/other".into())],
        blobs: vec![
            blob("layer-1", 10, 0),
            blob("layer-2", 20, 0),
            blob("layer-3", 30, 0),
            blob("layer-4", 40, 0),
            blob("layer-5", 50, 99),
        ],
    }
}

#[test]
fn what_tags_reach_stays() {
    let m = mark(&rows(), 100, 10);
    // The other repository's manifests are reached by nothing: references do not cross
    // repositories. The young one stays, and so does the one without a known repository.
    assert_eq!(ids(&m.victims), vec![6, 7, 8]);
    assert_eq!(m.victims[0].repo, "team/app");
    assert_eq!(m.victims[1].digest, "image-a");
    assert_eq!(
        m.blob_victims,
        vec![("layer-2".to_string(), 20), ("layer-4".to_string(), 40)]
    );
    assert!(m.known_manifests.contains("loose") && m.known_manifests.contains("young"));
    assert!(!m.known_manifests.contains("layer-1"));
    assert!(m.known_blobs.contains("layer-4") && m.known_blobs.contains("layer-3"));
    assert!(!m.known_blobs.contains("layer-9"));
}

#[test]
fn without_the_tag_everything_goes() {
    let mut r = rows();
    r.tagged = vec![];
    let m = mark(&r, 100, 10);
    assert_eq!(ids(&m.victims), vec![1, 2, 3, 4, 5, 6, 7, 8]);
    assert_eq!(m.blob_victims.len(), 3);
    // Nothing younger than the grace window goes.
    let m = mark(&r, 100, 101);
    assert!(m.victims.is_empty() && m.blob_victims.is_empty());
    let m = mark(&r, 100, 100);
    assert_eq!(ids(&m.victims).len(), 8);
    assert!(mark(&r, i64::MIN, i64::MAX).victims.is_empty());
}

#[test]
fn what_is_young_keeps_what_it_needs() {
    let r = Rows {
        manifests: vec![
            manifest(1, 1, "young-index", None, 95),
            manifest(2, 1, "old-child", None, 0),
            manifest(3, 1, "young-image", None, 95),
            manifest(4, 1, "old-sig", Some("young-image"), 0),
            manifest(5, 1, "old-index", None, 0),
            manifest(6, 1, "lost-child", None, 0),
        ],
        refs: vec![
            refer(1, "old-child", "manifest"),
            refer(2, "layer", "blob"),
            refer(5, "lost-child", "manifest"),
            refer(6, "lost-layer", "blob"),
        ],
        tagged: vec![],
        repos: vec![(1, "r".into())],
        blobs: vec![blob("layer", 1, 0), blob("lost-layer", 2, 0)],
    };
    let m = mark(&r, 100, 10);
    assert_eq!(ids(&m.victims), vec![5, 6]);
    assert_eq!(m.blob_victims, vec![("lost-layer".to_string(), 2)]);
    // Ten seconds later the young ones are old.
    assert_eq!(ids(&mark(&r, 110, 10).victims), vec![1, 2, 3, 4, 5, 6]);
}

#[test]
fn cutoffs() {
    assert_eq!(cutoff(100, 10), Some(90));
    assert_eq!(cutoff(i64::MAX, -1), Some(i64::MAX));
    assert_eq!(cutoff(i64::MIN, 1), None);
    assert_eq!(cutoff(i64::MIN, 0), Some(i64::MIN));
}

#[test]
fn a_cycle_alone_does_not_keep_itself() {
    let r = Rows {
        manifests: vec![
            manifest(1, 1, "a", Some("b"), 0),
            manifest(2, 1, "b", Some("a"), 0),
            manifest(3, 1, "c", None, 0),
        ],
        refs: vec![refer(3, "a", "manifest")],
        tagged: vec![99],
        repos: vec![(1, "r".into())],
        blobs: vec![],
    };
    assert_eq!(ids(&mark(&r, 1, 0).victims), vec![1, 2, 3]);
    let kept = Rows { tagged: vec![3], ..r };
    assert!(mark(&kept, 1, 0).victims.is_empty());
}

#[test]
fn a_long_chain_is_followed() {
    let n = 200;
    let mut manifests = vec![manifest(0, 1, "m0", None, 0)];
    for i in 1..n {
        // Stored backwards, so that one pass over the rows does not suffice.
        let id = n - i;
        manifests.push(manifest(id, 1, &format!("m{id}"), Some(&format!("m{}", id - 1)), 0));
    }
    let r = Rows {
        manifests,
        refs: vec![],
        tagged: vec![0],
        repos: vec![(1, "r".into())],
        blobs: vec![],
    };
    assert!(mark(&r, 1, 0).victims.is_empty());
}

#[test]
fn a_collection_reports_and_plans() {
    let m = mark(&rows(), 100, 10);
    let r = report(&m, true);
    assert!(r.dry_run);
    assert_eq!((r.manifests_deleted, r.blobs_deleted, r.bytes_freed), (3, 2, 60));
    assert_eq!((r.orphan_manifests_deleted, r.orphans_marked), (0, 0));

    let by_repo = removals(&m.victims);
    assert_eq!(by_repo.len(), 2);
    assert_eq!(by_repo.get("team/app").unwrap(), &vec!["loose".to_string()]);
    assert_eq!(
        by_repo.get("team/other").unwrap(),
        &vec!["image-a".to_string(), "other-sig".to_string()]
    );
    // The image is still in the first repository's index.
    assert_eq!(droppable(&m.victims, &vec!["image-a".to_string()]), vec!["loose", "other-sig"]);
}

#[test]
fn reference_rows() {
    let rows = ref_rows(3, &vec!["x".to_string()], &vec!["y".to_string(), "z".to_string()]);
    assert_eq!(
        rows,
        vec![refer(3, "x", "blob"), refer(3, "y", "manifest"), refer(3, "z", "manifest")]
    );
}
