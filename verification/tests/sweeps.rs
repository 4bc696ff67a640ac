use breezy_registry::cache::{blob_exists, Existence};
use breezy_registry::db::{BlobRow, ManifestRow, RefRow};
use breezy_registry::gc::{mark, report, GcReport, Rows};
use breezy_registry::pending::{Claim, PendingDoc, Rescue, CLAIM_TTL_SECS, PENDING_KEY};
use breezy_registry::sweep::{
    after_claim, after_delete, after_recheck, after_renew, after_stat, candidates, claim_owner,
    consider, marked_digests, still_unaccounted, survivors, totals, Kind, Listed, Outcome, Step,
};
use breezy_registry::truth::{blob_key, manifest_key};
use std::collections::BTreeMap;

fn sha(c: char) -> String {
    format!("sha256:{}", c.to_string().repeat(64))
}

/// A bucket and a database in memory, with a clock that stands still unless it is moved.
struct World {
    now: i64,
    grace: i64,
    /// Key, time of the last write, content.
    objects: BTreeMap<String, (i64, Vec<u8>)>,
    ledger: PendingDoc,
    rows: Rows,
    /// A digest whose mark is cleared just before the ledger is rewritten.
    rescue: Option<String>,
}

impl World {
    fn new(grace: i64) -> World {
        let mut w = World {
            now: 1_000_000,
            grace,
            objects: BTreeMap::new(),
            ledger: PendingDoc::default(),
            rows: Rows {
                manifests: vec![],
                refs: vec![],
                tagged: vec![1],
                repos: vec![(1, "team/app".into())],
                blobs: vec![],
            },
            rescue: None,
        };
        w.put(&manifest_key(&sha('a')), b"{\"schemaVersion\":2}");
        w.put(&blob_key(&sha('b')), b"live layer");
        w.put(&manifest_key(&sha('c')), b"{\"schemaVersion\":2}");
        w.put(&blob_key(&sha('d')), b"orphaned layer");
        w.record(1, &sha('a'), &sha('b'));
        w
    }

    fn put(&mut self, key: &str, content: &[u8]) {
        self.objects.insert(key.to_string(), (self.now, content.to_vec()));
    }

    fn has(&self, key: &str) -> bool {
        self.objects.contains_key(key)
    }

    fn record(&mut self, id: i64, digest: &str, blob: &str) {
        self.rows.manifests.push(ManifestRow {
            id,
            repo_id: 1,
            digest: digest.into(),
            subject: None,
            created_at: self.now,
        });
        self.rows.refs.push(RefRow {
            manifest_id: id,
            child: blob.into(),
            kind: "blob".into(),
        });
    }

    /// Commits a tagged manifest that refers to a blob.
    fn adopt(&mut self, blob: &str) {
        self.put(&manifest_key(&sha('e')), b"{\"schemaVersion\":2}");
        self.record(3, &sha('e'), blob);
        self.rows.tagged.push(3);
    }

    fn row(&mut self, blob: &str) {
        self.rows.blobs.push(BlobRow { digest: blob.into(), size: 14, created_at: self.now });
    }

    fn unaccounted(&self, key: &str) -> bool {
        let digest = key.split_once('/').unwrap().1;
        still_unaccounted(
            key,
            self.rows.manifests.iter().any(|m| m.digest == digest),
            self.rows.blobs.iter().any(|b| b.digest == digest),
            self.rows.refs.iter().any(|r| r.child == digest && r.kind == "blob"),
        )
    }

    fn adoptable(&self, blob: &str) -> bool {
        let cached = self.rows.blobs.iter().any(|b| b.digest == blob);
        match blob_exists(Some(&self.ledger), cached, blob) {
            Existence::Yes => true,
            Existence::No => false,
            Existence::InBucket(key) => self.has(&key),
        }
    }

    fn list(&self, prefix: &str) -> Vec<Listed> {
        self.objects
            .iter()
            .filter(|(k, _)| k.starts_with(prefix))
            .map(|(k, (modified, content))| Listed {
                key: k.clone(),
                modified: *modified,
                size: content.len() as i64,
            })
            .collect()
    }

    /// One collection, as far as the bucket is concerned.
    fn run(&mut self, dry_run: bool) -> GcReport {
        let marked = mark(&self.rows, self.now, self.grace);
        let mut r = report(&marked, dry_run);
        let list = candidates(
            &self.list("manifests/"),
            &self.list("blobs/"),
            &marked.known_manifests,
            &marked.known_blobs,
        );
        let upfront = marked_digests(&self.ledger);
        let mut seen = PendingDoc::default();
        for d in &upfront {
            seen.digests.insert(d.clone(), *self.ledger.digests.get(d).unwrap());
        }
        let mut outcomes = vec![];
        for c in &list {
            let mut step = consider(c, &seen, self.now, self.grace, dry_run);
            let outcome = loop {
                step = match step {
                    Step::Claim => {
                        after_claim(Some(self.ledger.claim_pending(&c.digest, "me", self.now)))
                    }
                    Step::Stat => {
                        let at = self.objects.get(&c.key).map(|(m, _)| *m);
                        after_stat(at, self.now, self.grace)
                    }
                    Step::Recheck => after_recheck(self.unaccounted(&c.key)),
                    Step::Renew => {
                        after_renew(Some(self.ledger.renew_pending(&c.digest, "me", self.now)))
                    }
                    Step::Delete => {
                        self.objects.remove(&c.key);
                        after_delete(true)
                    }
                    Step::Release(remark, o) => {
                        self.ledger.release_pending(&c.digest, "me", remark, self.now);
                        break o;
                    }
                    Step::Done(o) => break o,
                };
            };
            outcomes.push(outcome);
        }
        let t = totals(&list, &outcomes);
        r.orphan_manifests_deleted = t.manifests;
        r.orphan_blobs_deleted = t.blobs;
        r.orphan_bytes_freed = t.bytes;
        r.orphans_marked = t.marked;
        if !dry_run {
            if let Some(d) = self.rescue.take() {
                assert_eq!(self.ledger.clear_pending(&d, false, self.now), Rescue::Cleared(true));
            }
            let keep = survivors(&list, &outcomes);
            self.ledger.merge(&keep, &upfront, self.now);
        }
        r
    }
}

#[test]
fn orphans_are_marked_then_deleted_on_the_next_sweep() {
    let mut w = World::new(0);
    // First sighting records, never deletes: the push that owns it may
    // simply not have committed its index yet.
    let r1 = w.run(false);
    assert_eq!(r1.orphan_manifests_deleted, 0);
    assert_eq!(r1.orphan_blobs_deleted, 0);
    assert_eq!(r1.orphans_marked, 2);
    assert!(w.has(&manifest_key(&sha('c'))));
    assert!(w.has(&blob_key(&sha('d'))));

    // A dry run previews what the second sighting will delete.
    let dry = w.run(true);
    assert_eq!(dry.orphan_manifests_deleted, 1);
    assert_eq!(dry.orphan_blobs_deleted, 1);
    assert_eq!(dry.orphan_bytes_freed, "orphaned layer".len() as i64);
    assert!(w.has(&manifest_key(&sha('c'))));

    let r2 = w.run(false);
    assert_eq!(r2.orphan_manifests_deleted, 1);
    assert_eq!(r2.orphan_blobs_deleted, 1);
    assert!(!w.has(&manifest_key(&sha('c'))));
    assert!(!w.has(&blob_key(&sha('d'))));
    // What the index references stays.
    assert!(w.has(&manifest_key(&sha('a'))));
    assert!(w.has(&blob_key(&sha('b'))));
    assert_eq!((w.ledger.digests.len(), w.ledger.deleting.len()), (0, 0));
}

#[test]
fn a_push_adopting_an_orphan_between_sweeps_rescues_it() {
    let mut w = World::new(0);
    w.run(false);
    w.adopt(&sha('d'));
    let report = w.run(false);
    // The manifest orphan still goes; the adopted blob is live now.
    assert_eq!(report.orphan_blobs_deleted, 0);
    assert!(w.has(&blob_key(&sha('d'))));
    assert!(!w.has(&manifest_key(&sha('c'))));
}

#[test]
fn a_fresh_blob_row_protects_an_old_bucket_object() {
    let mut w = World::new(3600);
    let orphan = sha('d');
    w.now -= 7200;
    w.put(&blob_key(&orphan), b"orphaned layer");
    w.now += 7200;
    w.row(&orphan);
    // Neither sweep may touch it.
    w.run(false);
    w.run(false);
    assert!(w.has(&blob_key(&orphan)));
}

#[test]
fn delete_time_guard_sees_references_the_listing_predates() {
    let mut w = World::new(0);
    // The orphan blob is unaccounted.
    let key = blob_key(&sha('d'));
    assert!(w.unaccounted(&key));
    // Then a manifest commits referencing it.
    w.record(9, &sha('e'), &sha('d'));
    assert!(!w.unaccounted(&key));
    assert!(!still_unaccounted("repos/x", false, false, false));
    assert!(!still_unaccounted("nothing", false, false, false));
    assert!(!still_unaccounted(&key, true, true, false));
    assert!(still_unaccounted(&manifest_key(&sha('c')), false, true, true));
}

#[test]
fn a_marked_orphan_is_not_adoptable_until_reuploaded() {
    let mut w = World::new(0);
    w.run(false); // mark the orphans

    let orphan = sha('d');
    assert!(w.has(&blob_key(&orphan)));
    assert!(!w.adoptable(&orphan));

    // What the end of an upload does: fresh object, mark cleared, row written.
    w.put(&blob_key(&orphan), b"orphaned layer");
    assert_eq!(w.ledger.clear_pending(&orphan, false, w.now), Rescue::Cleared(true));
    w.row(&orphan);
    assert!(w.adoptable(&orphan));

    // ...and the push the client retries commits a manifest over it.
    w.adopt(&orphan);
    let report = w.run(false);
    assert_eq!(report.orphan_blobs_deleted, 0);
    assert!(w.has(&blob_key(&orphan)));
    assert!(!w.has(&manifest_key(&sha('c'))));
}

#[test]
fn a_concurrent_rescue_is_not_resurrected_by_the_ledger_rewrite() {
    let mut w = World::new(3600);
    w.run(false); // first sweep marks both orphans
    let victim = sha('d');
    w.rescue = Some(victim.clone());
    w.run(false);
    assert!(!w.ledger.digests.contains_key(&victim));
    assert!(w.ledger.digests.contains_key(&sha('c')));
}

#[test]
fn a_rescue_waits_out_a_deletion_claim_then_rewrites() {
    let mut w = World::new(0);
    w.run(false); // mark the orphans

    // A sweep claims the blob — its delete is imminent.
    let orphan = sha('d');
    assert!(w.ledger.claim_pending(&orphan, "sweep-1", w.now));
    assert!(!w.ledger.claim_pending(&orphan, "sweep-2", w.now));

    // A rescuer arriving mid-claim must wait, not clear-and-write past it.
    assert_eq!(w.ledger.clear_pending(&orphan, false, w.now), Rescue::Wait);

    // The delete completes and the claim is released.
    w.objects.remove(&blob_key(&orphan));
    w.ledger.release_pending(&orphan, "sweep-1", false, w.now);
    assert_eq!(w.ledger.clear_pending(&orphan, true, w.now), Rescue::Cleared(true));

    // The rescuer's caller re-PUTs; the object is back and unmarked.
    w.put(&blob_key(&orphan), b"orphaned layer");
    assert!(w.adoptable(&orphan));
}

#[test]
fn a_stalled_sweeps_late_delete_is_fenced_off() {
    let mut w = World::new(0);
    // A sweep claimed the orphan blob, then stalled past the claim TTL.
    let orphan = sha('d');
    w.ledger.deleting.insert(
        orphan.clone(),
        Claim { at: w.now - CLAIM_TTL_SECS - 1, owner: "dead-sweep".into() },
    );

    // The rescuer force-clears the stale claim and rewrites the object.
    assert_eq!(w.ledger.clear_pending(&orphan, false, w.now), Rescue::Cleared(true));
    w.put(&blob_key(&orphan), b"rescued layer");

    // The dead sweep wakes and asks to renew — the claim isn't its own
    // anymore, so the delete it was about to run is fenced off.
    assert!(!w.ledger.renew_pending(&orphan, "dead-sweep", w.now));
    assert_eq!(after_renew(Some(false)), Step::Done(Outcome::Rescued));
    assert!(w.has(&blob_key(&orphan)));
    assert_eq!(w.ledger.clear_pending(&orphan, false, w.now), Rescue::Cleared(false));
}

#[test]
fn orphan_sweep_respects_the_grace_window() {
    let mut w = World::new(3600);
    // The orphans were written moments ago: even on their second sighting they stay.
    w.run(false);
    let report = w.run(false);
    assert_eq!(report.orphan_manifests_deleted, 0);
    assert_eq!(report.orphan_blobs_deleted, 0);
    assert!(w.has(&manifest_key(&sha('c'))));
    assert!(w.has(&blob_key(&sha('d'))));
    // A window later both the marks and the objects are old enough.
    w.now += 3600;
    let report = w.run(false);
    assert_eq!((report.orphan_manifests_deleted, report.orphan_blobs_deleted), (1, 1));
}

#[test]
fn an_object_rewritten_after_its_mark_waits_again() {
    let mut w = World::new(3600);
    w.run(false);
    w.now += 3600;
    w.put(&blob_key(&sha('d')), b"again");
    let report = w.run(false);
    assert_eq!((report.orphan_manifests_deleted, report.orphan_blobs_deleted), (1, 0));
    assert_eq!(report.orphans_marked, 1);
    assert_eq!(after_stat(Some(5), 10, 5), Step::Recheck);
    assert_eq!(after_stat(Some(6), 10, 5), Step::Release(true, Outcome::Marked));
    assert_eq!(after_stat(None, 10, 5), Step::Release(false, Outcome::Deleted));
}

#[test]
fn steps_of_a_delete() {
    assert_eq!(PENDING_KEY, "gc/pending.json");
    assert_eq!(after_claim(Some(true)), Step::Stat);
    assert_eq!(after_claim(Some(false)), Step::Done(Outcome::Rescued));
    assert_eq!(after_claim(None), Step::Done(Outcome::Failed));
    assert_eq!(after_recheck(true), Step::Renew);
    assert_eq!(after_recheck(false), Step::Release(true, Outcome::Rescued));
    assert_eq!(after_renew(Some(true)), Step::Delete);
    assert_eq!(after_renew(None), Step::Done(Outcome::Failed));
    assert_eq!(after_delete(true), Step::Release(false, Outcome::Deleted));
    assert_eq!(after_delete(false), Step::Release(true, Outcome::Failed));
}

#[test]
fn failed_deletes_keep_their_mark() {
    let w = World::new(0);
    let known = mark(&w.rows, w.now, 0);
    let list = candidates(
        &w.list("manifests/"),
        &w.list("blobs/"),
        &known.known_manifests,
        &known.known_blobs,
    );
    assert_eq!(list.len(), 2);
    assert_eq!((list[0].kind, list[1].kind), (Kind::Manifest, Kind::Blob));
    assert_eq!(list[1].digest, sha('d'));
    assert_eq!(survivors(&list, &vec![Outcome::Failed, Outcome::Deleted]), vec![sha('c')]);
    assert_eq!(survivors(&list, &vec![Outcome::Rescued, Outcome::Marked]), vec![sha('d')]);
    let t = totals(&list, &vec![Outcome::Failed, Outcome::Deleted]);
    assert_eq!((t.manifests, t.blobs, t.bytes, t.marked), (0, 1, 14, 0));
}

#[test]
fn the_ledger_merges() {
    let mut l = PendingDoc::default();
    l.digests.insert("mine".into(), 1);
    l.digests.insert("gone".into(), 2);
    l.digests.insert("theirs".into(), 3);
    l.deleting.insert("busy".into(), Claim { at: 1000, owner: "o".into() });
    l.deleting.insert("dead".into(), Claim { at: 1000 - CLAIM_TTL_SECS, owner: "o".into() });
    let keep: Vec<String> =
        ["mine", "new", "busy", "dead", "cleared"].iter().map(|s| s.to_string()).collect();
    let upfront: Vec<String> =
        ["mine", "gone", "cleared"].iter().map(|s| s.to_string()).collect();
    l.merge(&keep, &upfront, 1000);
    assert_eq!(l.digests.get("mine"), Some(&1));
    assert_eq!(l.digests.get("gone"), None);
    assert_eq!(l.digests.get("theirs"), Some(&3));
    assert_eq!(l.digests.get("new"), Some(&1000));
    assert_eq!(l.digests.get("dead"), Some(&1000));
    assert_eq!(l.digests.get("busy"), None);
    assert_eq!(l.digests.get("cleared"), None);
    assert!(l.deleting.contains_key("busy") && !l.deleting.contains_key("dead"));
    assert!(l.renew_pending("busy", "o", 2000));
    assert!(!l.renew_pending("busy", "x", 2000));
    l.release_pending("busy", "x", true, 2000);
    assert!(l.deleting.contains_key("busy"));
    l.release_pending("busy", "o", true, 2000);
    assert_eq!(l.digests.get("busy"), Some(&2000));
    assert!(!l.deleting.contains_key("busy"));
}

#[test]
fn claims_live_and_are_lost() {
    let mut l = PendingDoc::default();
    l.digests.insert("d".into(), 0);
    assert!(l.claim_pending("d", "a", 100));
    // While the claim lives, nobody else gets past it.
    assert!(!l.claim_pending("d", "b", 150));
    l.release_pending("d", "b", true, 160);
    l.merge(&vec!["d".to_string()], &vec![], 170);
    assert_eq!(l.clear_pending("d", false, 100 + CLAIM_TTL_SECS - 1), Rescue::Wait);
    assert!(!l.digests.contains_key("d") && l.deleting.contains_key("d"));
    // Once it is stale a rescue clears it, and its owner cannot get it back.
    assert_eq!(l.clear_pending("d", false, 100 + CLAIM_TTL_SECS), Rescue::Cleared(true));
    assert!(!l.renew_pending("d", "a", 500));
    l.merge(&vec!["d".to_string()], &vec![], 510);
    assert!(l.claim_pending("d", "b", 520));
    assert!(!l.renew_pending("d", "a", 530));
    assert!(l.renew_pending("d", "b", 530));
}

#[test]
fn sweeps_have_names_of_their_own() {
    let (a, b) = (claim_owner(), claim_owner());
    assert_ne!(a, b);
    assert_eq!(a.len(), 36);
    for (i, c) in a.chars().enumerate() {
        if [8, 13, 18, 23].contains(&i) {
            assert_eq!(c, '-');
        } else {
            assert!(c.is_ascii_digit() || ('a'..='f').contains(&c));
        }
    }
    assert_eq!(&a[14..15], "4");
    assert!(["8", "9", "a", "b"].contains(&&a[19..20]));
}
