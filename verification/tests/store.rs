use breezy_registry::objectstore::{
    after_put, current, get, get_if_none_match, is_listed, put_if_match, unchanged, AfterPut, Cas,
    Fetch, FsObjectStore, Put,
};
use breezy_registry::storage::{join, placement, Placement, Store};
use std::collections::HashMap;
use std::path::Path;

fn sha(c: char) -> String {
    format!("sha256:{}", c.to_string().repeat(64))
}

#[test]
fn paths() {
    for (a, b) in [("a", "b"), ("a/", "b"), ("", "b"), ("a", ""), ("a", "/b"), ("/", "b"), ("", "")] {
        assert_eq!(join(a, b), Path::new(a).join(b).to_str().unwrap());
    }
    let s = Store::new("./data");
    assert_eq!(s.staging_path("u1"), "./data/staging/u1");
    assert_eq!(
        s.blob_path(&sha('a')),
        format!("./data/blobs/sha256/aa/{}", "a".repeat(64))
    );
    assert_eq!(s.blob_path("abc"), "./data/blobs/sha256/ab/abc");
    assert_eq!(s.blob_path("sha512:éx"), "./data/blobs/sha512/é/éx");
    assert_eq!(s.directories(), ("./data/staging".to_string(), "./data/blobs".to_string()));
    assert_eq!(placement(true), Placement::Drop);
    assert_eq!(placement(false), Placement::Move);
}

#[test]
fn files_of_an_object() {
    let s = FsObjectStore::new("/bucket");
    assert_eq!(s.root(), "/bucket");
    assert_eq!(s.path_of("a/index.json"), "/bucket/a/index.json");
    assert_eq!(s.etag_path("a/index.json"), "/bucket/a/index.json.__etag");
    assert_eq!(s.lock_path("a/index.json"), "/bucket/a/index.json.__lock");
    assert_eq!(
        s.delete("k"),
        vec!["/bucket/k", "/bucket/k.__etag", "/bucket/k.__lock"]
    );
    let w = s.write_atomic("k", b"abc");
    assert_eq!(w.etag, "ba7816bf8f01cfea414140de5dae2223");
    assert_eq!((w.content.as_str(), w.etag_file.as_str()), ("/bucket/k", "/bucket/k.__etag"));
    assert!(w.content_temp.starts_with("/bucket/.tmp-"));
    assert_ne!(w.content_temp, w.etag_temp);
    assert!(is_listed("index.json"));
    assert!(!is_listed(".tmp-1") && !is_listed("k.__etag") && !is_listed("k.__lock"));
}

/// A bucket in memory: content by key, and entity tags beside it.
#[derive(Default)]
struct Memory {
    objects: HashMap<String, Vec<u8>>,
    etags: HashMap<String, String>,
}

impl Memory {
    fn put_if_match(&mut self, key: &str, bytes: &[u8], etag: Option<&str>) -> Cas {
        let recorded = self.etags.get(key).map(|e| e.as_str());
        let current = current(self.objects.get(key).map(|b| b.as_slice()), recorded);
        if put_if_match(etag, current.as_deref()) {
            let w = FsObjectStore::new("m").write_atomic(key, bytes);
            self.objects.insert(key.into(), bytes.to_vec());
            self.etags.insert(key.into(), w.etag.clone());
            Cas::Swapped(w.etag)
        } else {
            Cas::Conflict
        }
    }

    fn get_if_none_match(&self, key: &str, etag: &str) -> Fetch {
        let recorded = self.etags.get(key);
        if unchanged(recorded.map(|e| e.as_str()), etag) {
            return Fetch::NotModified;
        }
        get_if_none_match(self.objects.get(key).cloned(), recorded.cloned(), etag)
    }
}

#[test]
fn fs_cas() {
    let mut store = Memory::default();
    // Create-only succeeds once.
    let e1 = match store.put_if_match("a/index.json", b"v1", None) {
        Cas::Swapped(e) => e,
        Cas::Conflict => panic!("create failed"),
    };
    assert!(matches!(store.put_if_match("a/index.json", b"v1b", None), Cas::Conflict));
    // Update with the right etag succeeds; a stale etag conflicts.
    let e2 = match store.put_if_match("a/index.json", b"v2", Some(&e1)) {
        Cas::Swapped(e) => e,
        Cas::Conflict => panic!("update failed"),
    };
    assert!(matches!(store.put_if_match("a/index.json", b"v3", Some(&e1)), Cas::Conflict));
    // Conditional GET: NotModified on current etag, New on stale.
    assert!(matches!(store.get_if_none_match("a/index.json", &e2), Fetch::NotModified));
    assert!(matches!(store.get_if_none_match("a/index.json", &e1), Fetch::New(_, _)));
    assert!(matches!(store.get_if_none_match("b", &e1), Fetch::Missing));
    assert!(matches!(store.put_if_match("b", b"x", Some(&e1)), Cas::Conflict));
}

#[test]
fn a_copied_object_is_not_created_over() {
    let mut store = Memory::default();
    // A file was copied in: there is an object, and no entity tag beside it.
    store.objects.insert("k".into(), b"abc".to_vec());
    assert!(matches!(store.put_if_match("k", b"new", None), Cas::Conflict));
    assert_eq!(store.objects["k"], b"abc");
    // Whoever read it may replace it.
    let (_, etag) = get(store.objects["k"].clone(), None);
    assert!(matches!(store.put_if_match("k", b"new", Some(&etag)), Cas::Swapped(_)));
    assert_eq!(store.objects["k"], b"new");
    // An entity tag that lost its object stands for nothing.
    assert_eq!(current(None, Some("left over")), None);
    assert_eq!(current(Some(b"abc"), Some("recorded")).as_deref(), Some("recorded"));
    assert_eq!(
        current(Some(b"abc"), None).as_deref(),
        Some("ba7816bf8f01cfea414140de5dae2223")
    );
}

#[test]
fn reads_without_a_recorded_tag() {
    let (b, e) = get(b"abc".to_vec(), None);
    assert_eq!((b.as_slice(), e.as_str()), (b"abc".as_slice(), "ba7816bf8f01cfea414140de5dae2223"));
    let (_, e) = get(b"abc".to_vec(), Some("recorded".into()));
    assert_eq!(e, "recorded");
    assert!(matches!(get_if_none_match(Some(b"abc".to_vec()), None, &"x"), Fetch::New(_, _)));
    assert!(matches!(
        get_if_none_match(Some(b"abc".to_vec()), None, "ba7816bf8f01cfea414140de5dae2223"),
        Fetch::NotModified
    ));
    assert!(!unchanged(None, "x"));
}

#[test]
fn conditional_writes_to_s3() {
    assert!(matches!(after_put(Put::Stored("e".into()), true), AfterPut::Done(Cas::Swapped(_))));
    assert!(matches!(after_put(Put::Refused, false), AfterPut::Done(Cas::Conflict)));
    assert!(matches!(after_put(Put::NotFound, true), AfterPut::LookAndPut));
    assert!(matches!(after_put(Put::NotFound, false), AfterPut::Fail));
    assert!(matches!(after_put(Put::Failed, true), AfterPut::Fail));
}
