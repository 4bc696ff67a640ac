use breezy_registry::api::{
    asked_repo, check, dry_run, repos, size_table, stats, tags, tags_of, whoami, Endpoint, Known,
    ManifestInfo, RepoRow, TagRow,
};
use breezy_registry::auth::{Identity, Role};
use breezy_registry::config::Config;
use breezy_registry::db::{BlobRow, RefRow};
use breezy_registry::oci::errors::Body;
use breezy_registry::oci::query_map;
use breezy_registry::ui::{answer_asset, asset_name, ui_assets};

fn strings(list: &[&str]) -> Vec<String> {
    list.iter().map(|s| s.to_string()).collect()
}

fn blob(digest: &str, size: i64) -> BlobRow {
    BlobRow { digest: digest.into(), size, created_at: 0 }
}

#[test]
fn who_and_what() {
    let id = Identity { username: Some("ci".into()), role: Role::Push };
    assert_eq!(whoami(&id), (Some("ci".to_string()), "push"));
    let nobody = Identity { username: None, role: Role::Anonymous };
    assert_eq!(whoami(&nobody), (None, "anonymous"));
    let s = stats(1, 2, 3, 4, None, true);
    assert_eq!((s.repos, s.tags, s.manifests, s.blobs), (1, 2, 3, 4));
    assert_eq!((s.storage_bytes, s.mode), (0, "object"));
    assert_eq!(stats(0, 0, 0, 0, Some(9), false).mode, "local");

    let mut cfg = Config::default();
    cfg.public_pull = false;
    assert!(check(&cfg, &nobody, Endpoint::Whoami).is_ok());
    for e in [Endpoint::Stats, Endpoint::Repos, Endpoint::Tags] {
        assert!(check(&cfg, &id, e).is_ok());
        assert_eq!(check(&cfg, &nobody, e).unwrap_err().status, 401);
    }
    for e in [Endpoint::Gc, Endpoint::Retention] {
        assert_eq!(check(&cfg, &id, e).unwrap_err().status, 403);
    }
    assert!(dry_run(&query_map(Some("dry_run=1"))));
    assert!(dry_run(&query_map(Some("dry_run=true"))));
    assert!(!dry_run(&query_map(Some("dry_run=yes"))));
    assert!(!dry_run(&query_map(None)));
}

#[test]
fn repositories_are_summed_up() {
    let sizes = size_table(&vec![blob("a", 10), blob("b", 5)]);
    let rows = vec![
        RepoRow { name: "z".into(), pushed: vec![3, 9, 4], blobs: strings(&["a", "b", "a", "x"]) },
        RepoRow { name: "m".into(), pushed: vec![], blobs: vec![] },
    ];
    let t = repos(&rows, &sizes).unwrap();
    assert_eq!(t.key_at(0), "m");
    let m = t.value_at(0);
    assert_eq!((m.tags, m.size_bytes, m.last_pushed), (0, 0, None));
    let z = t.get("z").unwrap();
    assert_eq!((z.tags, z.size_bytes, z.last_pushed), (3, 15, Some(9)));
    let huge = size_table(&vec![blob("a", i64::MAX), blob("b", 1)]);
    assert!(repos(&rows, &huge).is_none());
}

#[test]
fn tags_are_shown_with_what_they_reach() {
    let m = |id: i64, d: &str| ManifestInfo { id, digest: d.into(), media_type: "t".into(), size: id };
    let r = |id: i64, c: &str, k: &str| RefRow { manifest_id: id, child: c.into(), kind: k.into() };
    let ms = vec![m(1, "index"), m(2, "amd"), m(3, "arm"), m(4, "deep")];
    let refs = vec![
        r(1, "amd", "manifest"),
        r(1, "arm", "manifest"),
        r(1, "missing", "manifest"),
        r(2, "base", "blob"),
        r(2, "x", "blob"),
        r(3, "base", "blob"),
        r(3, "deep", "manifest"),
        r(4, "far", "blob"),
    ];
    let sizes = size_table(&vec![blob("base", 100), blob("x", 20), blob("far", 1000)]);
    let tag = |n: &str, id: i64| TagRow { name: n.into(), manifest_id: id, pushed_at: 7 };
    let list = tags(&vec![tag("multi", 1), tag("one", 2)], &ms, &refs, &sizes).unwrap();
    assert_eq!(list.len(), 2);
    // The shared layer counts once, and what lies two levels down does not count.
    assert_eq!((list[0].size, list[0].is_index), (121, true));
    assert_eq!((list[0].name.as_str(), list[0].digest.as_str()), ("multi", "index"));
    assert_eq!((list[1].size, list[1].is_index, list[1].pushed_at), (122, false, 7));
    assert!(tags(&vec![tag("lost", 9)], &ms, &refs, &sizes).is_none());
    let huge = size_table(&vec![blob("base", i64::MAX)]);
    assert!(tags(&vec![tag("one", 2)], &ms, &refs, &huge).is_none());

    let known = Known { rows: vec![tag("one", 2)], manifests: ms, refs, sizes };
    assert_eq!(tags_of(Some(&known)).unwrap()[0].size, 122);
    assert!(tags_of(None).unwrap().is_empty());
    let lost = Known { rows: vec![tag("lost", 9)], ..known };
    assert!(tags_of(Some(&lost)).is_none());
    assert_eq!(asked_repo(&query_map(Some("repo=team/app&x=1"))).as_deref(), Some("team/app"));
    assert_eq!(asked_repo(&query_map(Some("x=1"))), None);
}

#[test]
fn assets() {
    assert_eq!(asset_name("/"), "index.html");
    assert_eq!(asset_name("//assets/a.js"), "assets/a.js");
    let r = ui_assets("assets/a.css", Some(vec![1]));
    assert_eq!(r.status, 200);
    assert_eq!(
        r.headers,
        vec![
            ("content-type".to_string(), "text/css".to_string()),
            ("cache-control".to_string(), "public, max-age=31536000, immutable".to_string()),
        ]
    );
    let r = ui_assets("some/page", Some(vec![2]));
    assert_eq!(r.headers[0].1, "application/octet-stream");
    assert_eq!(r.headers[1].1, "no-cache");
    let r = answer_asset("x", "a/b", None);
    assert_eq!(r.status, 404);
    assert!(r.headers.is_empty());
    assert!(matches!(&r.body, Body::Bytes(b) if b == b"not found"));
}
