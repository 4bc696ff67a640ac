use breezy_registry::auth::{Identity, Role};
use breezy_registry::config::{Config, Sharding, UserCfg};
use breezy_registry::oci::errors::{Body, Reply};
use breezy_registry::oci::{
    handle, lookup, parse_route, query_map, valid_digest, valid_name, valid_tag, Dispatch, Method,
    Route, Task,
};
use breezy_registry::shard::owner;

fn open() -> (Config, Identity) {
    (Config::default(), Identity { username: Some("anonymous-admin".to_string()), role: Role::Admin })
}

fn header<'a>(r: &'a Reply, name: &str) -> Option<&'a str> {
    r.headers.iter().find(|(n, _)| n == name).map(|(_, v)| v.as_str())
}

fn reply(d: Dispatch) -> Reply {
    match d {
        Dispatch::Reply(r) => r,
        Dispatch::Task(t) => panic!("a task: {:?}", t),
    }
}

fn task(d: Dispatch) -> Task {
    match d {
        Dispatch::Reply(r) => panic!("a reply with status {}", r.status),
        Dispatch::Task(t) => t,
    }
}

fn code(r: &Reply) -> &str {
    match &r.body {
        Body::Error(code, _) => code.as_str(),
        _ => panic!("no error"),
    }
}

#[test]
fn routes_parse() {
    assert_eq!(parse_route(""), Some(Route::Base));
    assert_eq!(
        parse_route("team/app/blobs/uploads/"),
        Some(Route::UploadStart("team/app".into()))
    );
    assert_eq!(
        parse_route("team/app/blobs/uploads/abc-123"),
        Some(Route::Upload("team/app".into(), "abc-123".into()))
    );
    assert_eq!(
        parse_route("team/app/blobs/sha256:aa"),
        Some(Route::Blob("team/app".into(), "sha256:aa".into()))
    );
    assert_eq!(
        parse_route("team/app/manifests/v1"),
        Some(Route::Manifest("team/app".into(), "v1".into()))
    );
    assert_eq!(parse_route("a/tags/list"), Some(Route::Tags("a".into())));
    // Repos with marker-like components resolve to the rightmost marker.
    assert_eq!(
        parse_route("a/manifests/b/blobs/sha256:aa"),
        Some(Route::Blob("a/manifests/b".into(), "sha256:aa".into()))
    );
    assert_eq!(
        parse_route("a/blobs/b/manifests/latest"),
        Some(Route::Manifest("a/blobs/b".into(), "latest".into()))
    );
}

#[test]
fn more_routes() {
    assert_eq!(
        parse_route("a/referrers/sha256:bb"),
        Some(Route::Referrers("a".into(), "sha256:bb".into()))
    );
    assert_eq!(parse_route("team/app"), None);
    assert_eq!(parse_route("team/app/tags/lists"), None);
    assert_eq!(
        parse_route("x/tags/list/manifests/v1"),
        Some(Route::Manifest("x/tags/list".into(), "v1".into()))
    );
    assert_eq!(
        parse_route("é/blobs/uploads/ü"),
        Some(Route::Upload("é".into(), "ü".into()))
    );
}

#[test]
fn names_digests_and_tags() {
    assert!(valid_name("team/app"));
    assert!(valid_name("a"));
    assert!(valid_name("a1/b.c_d-e/9"));
    assert!(!valid_name(""));
    assert!(!valid_name("/a"));
    assert!(!valid_name("a/"));
    assert!(!valid_name("a//b"));
    assert!(!valid_name("Team/app"));
    assert!(!valid_name("a/../b"));
    assert!(!valid_name("-a"));
    assert!(!valid_name("a-"));
    assert!(!valid_name("naïve"));
    assert!(valid_name(&"a".repeat(255)));
    assert!(!valid_name(&"a".repeat(256)));

    let hex = "0123456789abcdefABCDEF00".repeat(3);
    assert!(valid_digest(&format!("sha256:{}", &hex[..64])));
    assert!(!valid_digest(&format!("sha256:{}", &hex[..63])));
    assert!(!valid_digest(&format!("sha256:{}", &hex[..65])));
    assert!(!valid_digest(&format!("sha512:{}", &hex[..64])));
    assert!(!valid_digest(&format!("sha256:{}g", &hex[..63])));
    assert!(!valid_digest(&hex[..64]));

    assert!(valid_tag("latest"));
    assert!(valid_tag("V1.2_3-x"));
    assert!(!valid_tag(""));
    assert!(!valid_tag(".hidden"));
    assert!(!valid_tag("a:b"));
    assert!(valid_tag(&"t".repeat(128)));
    assert!(!valid_tag(&"t".repeat(129)));
}

#[test]
fn queries() {
    let q = query_map(Some("n=5&last=a=b&flag&n=7&x="));
    assert_eq!(lookup(&q, "n"), Some("7"));
    assert_eq!(lookup(&q, "last"), Some("a=b"));
    assert_eq!(lookup(&q, "flag"), None);
    assert_eq!(lookup(&q, "x"), Some(""));
    assert_eq!(q.len(), 3);
    assert_eq!(query_map(None).len(), 0);
}

#[test]
fn requests_become_tasks() {
    let (cfg, id) = open();
    let go = |m, p: &str| handle(&cfg, &id, m, p, None);
    assert_eq!(
        task(go(Method::Post, "/v2/team/app/blobs/uploads/")),
        Task::StartUpload("team/app".into())
    );
    assert_eq!(
        task(go(Method::Patch, "/v2/a/blobs/uploads/u1")),
        Task::AppendUpload("a".into(), "u1".into())
    );
    assert_eq!(
        task(go(Method::Put, "/v2/a/blobs/uploads/u1")),
        Task::FinishUpload("a".into(), "u1".into())
    );
    assert_eq!(
        task(go(Method::Get, "/v2/a/blobs/uploads/u1")),
        Task::UploadStatus("a".into(), "u1".into())
    );
    assert_eq!(
        task(go(Method::Delete, "/v2/a/blobs/uploads/u1")),
        Task::CancelUpload("a".into(), "u1".into())
    );
    let d = format!("sha256:{}", "a".repeat(64));
    assert_eq!(
        task(go(Method::Head, &format!("/v2/a/blobs/{d}"))),
        Task::GetBlob("a".into(), d.clone(), true)
    );
    assert_eq!(
        task(go(Method::Get, &format!("/v2/a/blobs/{d}"))),
        Task::GetBlob("a".into(), d.clone(), false)
    );
    assert_eq!(
        task(go(Method::Delete, &format!("/v2/a/blobs/{d}"))),
        Task::DeleteBlob("a".into(), d.clone())
    );
    assert_eq!(
        task(go(Method::Get, "/v2/a/manifests/v1")),
        Task::GetManifest("a".into(), "v1".into(), false)
    );
    assert_eq!(
        task(go(Method::Head, "/v2/a/manifests/v1")),
        Task::GetManifest("a".into(), "v1".into(), true)
    );
    assert_eq!(
        task(go(Method::Put, "/v2/a/manifests/v1")),
        Task::PutManifest("a".into(), "v1".into())
    );
    assert_eq!(
        task(go(Method::Delete, "/v2/a/manifests/v1")),
        Task::DeleteManifest("a".into(), "v1".into())
    );
    assert_eq!(task(go(Method::Get, "/v2/a/tags/list")), Task::ListTags("a".into()));
    assert_eq!(
        task(go(Method::Get, &format!("/v2/a/referrers/{d}"))),
        Task::ListReferrers("a".into(), d)
    );
}

#[test]
fn requests_that_are_answered_at_once() {
    let (cfg, id) = open();
    let base = reply(handle(&cfg, &id, Method::Get, "/v2/", None));
    assert_eq!(base.status, 200);
    assert!(matches!(base.body, Body::EmptyObject));
    assert_eq!(header(&base, "docker-distribution-api-version"), Some("registry/2.0"));
    assert_eq!(reply(handle(&cfg, &id, Method::Head, "/v2", None)).status, 200);
    assert_eq!(reply(handle(&cfg, &id, Method::Post, "/v2/", None)).status, 405);

    let r = reply(handle(&cfg, &id, Method::Get, "/v2/team/app", None));
    assert_eq!((r.status, code(&r)), (404, "NAME_UNKNOWN"));
    let r = reply(handle(&cfg, &id, Method::Get, "/v2/Team/manifests/v1", None));
    assert_eq!((r.status, code(&r)), (400, "NAME_INVALID"));
    let r = reply(handle(&cfg, &id, Method::Post, "/v2/a/manifests/v1", None));
    assert_eq!((r.status, code(&r)), (405, "UNSUPPORTED"));
    let r = reply(handle(&cfg, &id, Method::Get, "/v2/a/blobs/sha256:aa", None));
    assert_eq!((r.status, code(&r)), (400, "DIGEST_INVALID"));
}

#[test]
fn tasks_need_permission() {
    let mut cfg = Config::default();
    cfg.users.push(UserCfg {
        username: "ci".into(),
        password: "secret".into(),
        role: "push".into(),
    });
    let pusher = Identity { username: Some("ci".into()), role: Role::Push };
    let nobody = Identity { username: None, role: Role::Anonymous };
    let r = reply(handle(&cfg, &pusher, Method::Delete, "/v2/a/manifests/v1", None));
    assert_eq!((r.status, code(&r)), (403, "DENIED"));
    let r = reply(handle(&cfg, &nobody, Method::Put, "/v2/a/manifests/v1", None));
    assert_eq!((r.status, code(&r)), (401, "UNAUTHORIZED"));
    assert_eq!(header(&r, "www-authenticate"), Some("Basic realm=\"breezy-registry\""));
    // Pulling is public unless that is switched off.
    task(handle(&cfg, &nobody, Method::Get, "/v2/a/manifests/v1", None));
    cfg.public_pull = false;
    let r = reply(handle(&cfg, &nobody, Method::Get, "/v2/a/manifests/v1", None));
    assert_eq!(r.status, 401);
    assert_eq!(reply(handle(&cfg, &nobody, Method::Get, "/v2/", None)).status, 401);
}

#[test]
fn repositories_of_other_shards_are_redirected() {
    let (mut cfg, id) = open();
    let shards = vec!["http://a/".to_string(), "http://b".to_string()];
    let mut moved = 0;
    for i in 0..20 {
        let repo = format!("repo-{i}");
        let own = owner(&repo, &shards).to_string();
        let other = shards.iter().find(|s| **s != own).unwrap().clone();
        cfg.sharding = Some(Sharding { self_url: other, shards: shards.clone() });
        let path = format!("/v2/{repo}/tags/list");
        let r = reply(handle(&cfg, &id, Method::Get, &path, Some("n=1")));
        assert_eq!(r.status, 307);
        let want = format!("{}{}?n=1", own.trim_end_matches('/'), path);
        assert_eq!(header(&r, "location"), Some(want.as_str()));
        cfg.sharding = Some(Sharding { self_url: own, shards: shards.clone() });
        task(handle(&cfg, &id, Method::Get, &path, Some("n=1")));
        moved += 1;
    }
    assert_eq!(moved, 20);
}

#[test]
fn stable_and_distributed() {
    let shards = vec![
        "http://a".to_string(),
        "http://b".to_string(),
        "http://c".to_string(),
    ];
    let o1 = owner("team/app", &shards);
    let o2 = owner("team/app", &shards);
    assert_eq!(o1, o2);
    // Every shard owns something across a spread of repo names.
    let mut seen = std::collections::HashSet::new();
    for i in 0..100 {
        seen.insert(owner(&format!("repo-{i}"), &shards));
    }
    assert_eq!(seen.len(), 3);
}

#[test]
fn shards_change_little() {
    let two = vec!["http://a".to_string(), "http://b".to_string()];
    let three = vec![
        "http://a".to_string(),
        "http://b".to_string(),
        "http://c".to_string(),
    ];
    let turned = vec![
        "http://c".to_string(),
        "http://a".to_string(),
        "http://b".to_string(),
    ];
    for i in 0..200 {
        let repo = format!("repo-{i}");
        let before = owner(&repo, &two);
        let after = owner(&repo, &three);
        assert!(after == before || after == "http://c");
        assert_eq!(after, owner(&repo, &turned));
    }
    assert_eq!(owner("x", &[]), "");
    assert_eq!(owner("x", &["http://only".to_string()]), "http://only");
}
