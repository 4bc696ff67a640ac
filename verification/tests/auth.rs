use base64::Engine;
use breezy_registry::auth::{
    authorize, challenge, hash_password, identify, identity_of, middleware, password_ok,
    role_from_str, Action, Identity, Role,
};
use breezy_registry::config::{Backend, Config, ObjectStorageCfg, Overrides, Sharding, UserCfg};
use breezy_registry::oci::errors::{Body, Reply};

fn user(name: &str, password: &str, role: &str) -> UserCfg {
    UserCfg { username: name.into(), password: password.into(), role: role.into() }
}

fn basic(creds: &str) -> String {
    format!("Basic {}", base64::engine::general_purpose::STANDARD.encode(creds))
}

fn refused(r: Result<Identity, Reply>) {
    match r {
        Err(reply) => {
            assert_eq!(reply.status, 401);
            assert!(matches!(&reply.body, Body::Error(c, m)
                if c == "UNAUTHORIZED" && m == "authentication required"));
        }
        Ok(id) => panic!("{:?} was let in", id),
    }
}

#[test]
fn roles() {
    assert_eq!(role_from_str("admin"), Role::Admin);
    assert_eq!(role_from_str("pull"), Role::Pull);
    assert_eq!(role_from_str("push"), Role::Push);
    assert_eq!(role_from_str("anything"), Role::Push);
    assert!(Role::Anonymous < Role::Pull && Role::Pull < Role::Push && Role::Push < Role::Admin);
}

#[test]
fn passwords() {
    assert!(password_ok("secret", "secret"));
    assert!(!password_ok("secret", "Secret"));
    let hash = hash_password("secret");
    assert!(hash.starts_with("$argon2id$"));
    assert_ne!(hash, hash_password("secret"));
    assert!(password_ok(&hash, "secret"));
    assert!(!password_ok(&hash, "wrong"));
    // A hash is no password, and a malformed one fits nothing.
    assert!(!password_ok(&hash, &hash));
    assert!(!password_ok("$argon2id$broken", "$argon2id$broken"));
    // Numbers of lanes that argon2 does not allow fit nothing, however large they are.
    for lanes in ["16777216", "99999999", "536870912", "4294967295", "99999999999"] {
        let many = hash.replace(",p=1$", &format!(",p={lanes}$"));
        assert_ne!(many, hash);
        assert!(!password_ok(&many, "secret"));
    }
    assert!(!password_ok("$argon2id$v=19$p=536870912$c29tZXNhbHQ$YWJjZGVmZ2hpamtsbW5v", "x"));
}

#[test]
fn credentials_resolve() {
    let mut cfg = Config::default();
    // No users: everyone is admin, whatever they send.
    let id = middleware(&cfg, Some("Bearer x")).unwrap();
    assert_eq!((id.username.as_deref(), id.role), (Some("anonymous-admin"), Role::Admin));

    cfg.users = vec![
        user("ci", "one", "push"),
        user("ci", "two", "pull"),
        user("root", "a:b", "admin"),
    ];
    let id = middleware(&cfg, None).unwrap();
    assert_eq!((id.username, id.role), (None, Role::Anonymous));
    let id = middleware(&cfg, Some(&basic("ci:one"))).unwrap();
    assert_eq!((id.username.as_deref(), id.role), (Some("ci"), Role::Push));
    let id = middleware(&cfg, Some(&basic("ci:two"))).unwrap();
    assert_eq!(id.role, Role::Pull);
    // Everything after the first colon is the password.
    let id = middleware(&cfg, Some(&basic("root:a:b"))).unwrap();
    assert_eq!((id.username.as_deref(), id.role), (Some("root"), Role::Admin));
    // White space around the encoded part does not matter.
    let padded = format!("Basic \u{2003} {} \t", &basic("ci:one")[6..]);
    assert_eq!(middleware(&cfg, Some(&padded)).unwrap().role, Role::Push);

    refused(middleware(&cfg, Some(&basic("ci:three"))));
    refused(middleware(&cfg, Some(&basic("nobody:one"))));
    refused(middleware(&cfg, Some(&basic("no colon"))));
    refused(middleware(&cfg, Some("Basic not*base64")));
    refused(middleware(&cfg, Some("Bearer abc")));
    refused(middleware(&cfg, Some("basic abc")));
    // "ci:" and a byte that is no UTF-8.
    let raw = base64::engine::general_purpose::STANDARD.encode([b'c', b'i', b':', 0xff]);
    refused(middleware(&cfg, Some(&format!("Basic {raw}"))));
}

#[test]
fn decoded_credentials() {
    let users = vec![user("ci", "one", "push")];
    assert_eq!(identify(&users, Some(b"ci:one".to_vec())).unwrap().role, Role::Push);
    refused(identify(&users, Some(b"ci:on".to_vec())));
    refused(identify(&users, Some(vec![0xc3, 0x28])));
    refused(identify(&users, None));
}

#[test]
fn permissions() {
    let mut cfg = Config::default();
    cfg.public_pull = false;
    let named = |role| Identity { username: Some("u".into()), role };
    let anon = Identity { username: None, role: Role::Anonymous };
    assert!(authorize(&cfg, &named(Role::Pull), Action::Pull).is_ok());
    assert_eq!(authorize(&cfg, &named(Role::Pull), Action::Push).unwrap_err().status, 403);
    assert!(authorize(&cfg, &named(Role::Push), Action::Push).is_ok());
    assert_eq!(authorize(&cfg, &named(Role::Push), Action::Admin).unwrap_err().status, 403);
    assert!(authorize(&cfg, &named(Role::Admin), Action::Admin).is_ok());
    assert_eq!(authorize(&cfg, &anon, Action::Pull).unwrap_err().status, 401);
    cfg.public_pull = true;
    assert!(authorize(&cfg, &anon, Action::Pull).is_ok());
    assert_eq!(authorize(&cfg, &anon, Action::Push).unwrap_err().status, 401);
    assert_eq!(challenge().headers.len(), 2);

    assert_eq!(identity_of(None).role, Role::Anonymous);
    assert_eq!(identity_of(Some(named(Role::Push))).role, Role::Push);
}

#[test]
fn defaults_and_overrides() {
    let c = Config::default();
    assert_eq!(c.listen, "0.0.0.0:5100");
    assert_eq!(c.data_dir, "./data");
    assert!(c.public_pull && c.ui && c.users.is_empty());
    assert_eq!(c.gc_grace_seconds, 3600);
    assert!(!c.retention.enabled);
    assert_eq!(c.retention.tag_pattern, "^[0-9a-f]{40}$");

    let none = Overrides {
        listen: None,
        data_dir: None,
        public_pull: None,
        ui: None,
        self_url: Some("http://x".into()),
    };
    let c = c.apply_env(none);
    assert_eq!(c.listen, "0.0.0.0:5100");
    assert!(c.sharding.is_none());

    let mut c = Config::default();
    c.sharding = Some(Sharding { self_url: "http://a".into(), shards: vec!["http://b".into()] });
    assert_eq!(
        c.check_sharding().unwrap_err(),
        "sharding.self_url must be listed in sharding.shards"
    );
    let c = c.apply_env(Overrides {
        listen: Some(":1".into()),
        data_dir: Some("/data".into()),
        public_pull: Some("0".into()),
        ui: Some("1".into()),
        self_url: Some("http://b".into()),
    });
    assert_eq!((c.listen.as_str(), c.data_dir.as_str()), (":1", "/data"));
    assert!(!c.public_pull && c.ui);
    assert_eq!(c.sharding.as_ref().unwrap().self_url, "http://b");
    assert!(c.check_sharding().is_ok());
    assert!(Config::default().check_sharding().is_ok());
}

#[test]
fn backends_and_plaintext_users() {
    let empty = || ObjectStorageCfg {
        path: None,
        endpoint: None,
        bucket: None,
        region: None,
        access_key: None,
        secret_key: None,
    };
    assert_eq!(
        empty().backend().unwrap_err(),
        "[object_storage] needs either `path` or `endpoint`/`bucket`"
    );
    assert_eq!(empty().bucket_name(), "breezy");
    let both = ObjectStorageCfg { path: Some("/b".into()), bucket: Some("x".into()), ..empty() };
    assert!(matches!(both.backend().unwrap(), Backend::Directory(p) if p == "/b"));
    let s3 = ObjectStorageCfg { bucket: Some("x".into()), ..empty() };
    assert!(matches!(s3.backend().unwrap(), Backend::S3));
    assert_eq!(s3.bucket_name(), "x");
    let s3 = ObjectStorageCfg { endpoint: Some("http://m".into()), ..empty() };
    assert!(matches!(s3.backend().unwrap(), Backend::S3));

    let mut c = Config::default();
    c.users = vec![user("a", "x", "push"), user("b", "$argon2id$", "push"), user("c", "", "pull")];
    assert_eq!(c.plaintext_users(), vec![0, 2]);
}
