//! The sweep of the bucket: objects that no index ever recorded.
//!
//! Such an object is marked when it is first sighted and deleted by a later sweep at the
//! earliest. Before a delete the sweep claims the mark, looks at the object once more, asks
//! whether anything has come to account for it, and renews its claim.

use crate::gc;
use crate::ident;
use crate::ident::new_uuid;
use crate::pending::PendingDoc;
use crate::pending::PendingView;
use crate::table;
use crate::text;
use vstd::hash_set::StringHashSet;
use vstd::prelude::*;
use vstd::string::*;

verus! {

/// An object of the bucket: its key, the time of its last write and its size.
#[derive(Debug)]
pub struct Listed {
    pub key: String,
    pub modified: i64,
    pub size: i64,
}

/// What an object holds.
#[derive(Debug, Clone, Copy, PartialEq, Eq)]
pub enum Kind {
    Manifest,
    Blob,
}

/// An object that nothing accounts for.
#[derive(Debug)]
pub struct Candidate {
    pub key: String,
    pub digest: String,
    pub kind: Kind,
    pub modified: i64,
    pub size: i64,
}

#[verifier::ext_equal]
pub struct CandidateView {
    pub key: Seq<char>,
    pub digest: Seq<char>,
    pub kind: Kind,
    pub modified: i64,
    pub size: i64,
}

impl View for Candidate {
    type V = CandidateView;

    open spec fn view(&self) -> CandidateView {
        CandidateView {
            key: self.key@,
            digest: self.digest@,
            kind: self.kind,
            modified: self.modified,
            size: self.size,
        }
    }
}

/// The views of some candidates.
pub open spec fn candidate_views(v: Seq<Candidate>) -> Seq<CandidateView> {
    v.map_values(|c: Candidate| c@)
}

/// The prefix of the keys of one kind of object.
pub open spec fn prefix_of(kind: Kind) -> Seq<char> {
    match kind {
        Kind::Manifest => "manifests/"@,
        Kind::Blob => "blobs/"@,
    }
}

/// The objects of one kind that `known` does not account for, of any age, in the order of the
/// listing.
pub open spec fn unaccounted(listing: Seq<Listed>, kind: Kind, known: Set<Seq<char>>) -> Seq<
    CandidateView,
>
    decreases listing.len(),
{
    if listing.len() == 0 {
        Seq::empty()
    } else {
        let before = unaccounted(listing.drop_last(), kind, known);
        let e = listing.last();
        match text::after_prefix(e.key@, prefix_of(kind)) {
            Some(d) => if known.contains(d) {
                before
            } else {
                before.push(
                    CandidateView {
                        key: e.key@,
                        digest: d,
                        kind,
                        modified: e.modified,
                        size: e.size,
                    },
                )
            },
            None => before,
        }
    }
}

fn add_unaccounted(
    out: &mut Vec<Candidate>,
    listing: &Vec<Listed>,
    kind: Kind,
    known: &StringHashSet,
)
    ensures
        candidate_views(final(out)@) == candidate_views(old(out)@) + unaccounted(
            listing@,
            kind,
            known@,
        ),
{
    let ghost start = candidate_views(out@);
    let mut i: usize = 0;
    proof {
        assert(start =~= start + unaccounted(listing@.take(0), kind, known@));
    }
    while i < listing.len()
        invariant
            i <= listing@.len(),
            candidate_views(out@) == start + unaccounted(listing@.take(i as int), kind, known@),
        decreases listing@.len() - i,
    {
        let e = &listing[i];
        let ghost before = candidate_views(out@);
        let ghost found = unaccounted(listing@.take(i as int), kind, known@);
        proof {
            assert(listing@.take(i + 1).drop_last() =~= listing@.take(i as int));
            assert(listing@.take(i + 1).last() == *e);
        }
        let rest = match kind {
            Kind::Manifest => text::strip_prefix(e.key.as_str(), "manifests/"),
            Kind::Blob => text::strip_prefix(e.key.as_str(), "blobs/"),
        };
        if let Some(digest) = rest {
            if !known.contains(digest.as_str()) {
                let c = Candidate {
                    key: e.key.clone(),
                    digest,
                    kind,
                    modified: e.modified,
                    size: e.size,
                };
                out.push(c);
                proof {
                    assert(candidate_views(out@) =~= before.push(c@));
                    assert(start + found.push(c@) =~= (start + found).push(c@));
                }
            }
        }
        i += 1;
    }
    proof {
        assert(listing@.take(i as int) =~= listing@);
    }
}

/// Everything under the two content prefixes that nothing accounts for.
pub fn candidates(
    manifests: &Vec<Listed>,
    blobs: &Vec<Listed>,
    known_manifests: &StringHashSet,
    known_blobs: &StringHashSet,
) -> (r: Vec<Candidate>)
    ensures
        candidate_views(r@) == unaccounted(manifests@, Kind::Manifest, known_manifests@)
            + unaccounted(blobs@, Kind::Blob, known_blobs@),
{
    let mut r: Vec<Candidate> = Vec::new();
    add_unaccounted(&mut r, manifests, Kind::Manifest, known_manifests);
    add_unaccounted(&mut r, blobs, Kind::Blob, known_blobs);
    proof {
        assert(candidate_views(r@) =~= unaccounted(manifests@, Kind::Manifest, known_manifests@)
            + unaccounted(blobs@, Kind::Blob, known_blobs@));
    }
    r
}

/// The name under which a sweep makes its claims: a random one, so that no two sweeps take each
/// other's claims for their own.
pub fn claim_owner() -> (s: String)
    ensures
        ident::is_uuid(s@),
{
    new_uuid()
}

/// How a candidate fared.
#[derive(Debug, Clone, Copy, PartialEq, Eq)]
pub enum Outcome {
    /// It is gone, or would be.
    Deleted,
    /// Something has come to need it.
    Rescued,
    /// It waits for a later sweep.
    Marked,
    /// It could not be deleted; its mark stays.
    Failed,
}

/// What a sweep does next about a candidate.
#[derive(Debug, Clone, Copy, PartialEq, Eq)]
pub enum Step {
    /// Move the mark into a claim.
    Claim,
    /// Look at the object again.
    Stat,
    /// Ask whether anything accounts for it by now.
    Recheck,
    /// Make sure that the claim is still there.
    Renew,
    /// Delete the object.
    Delete,
    /// Give the claim up, with a fresh mark where the flag says so, and be done.
    Release(bool, Outcome),
    /// Be done.
    Done(Outcome),
}

/// Both the object and its mark have aged past the grace window.
pub open spec fn deletable(
    c: CandidateView,
    upfront: PendingView,
    now: i64,
    grace: i64,
) -> bool {
    &&& gc::aged(c.modified, now, grace)
    &&& upfront.digests.contains_key(c.digest)
    &&& gc::aged(upfront.digests[c.digest], now, grace)
}

/// What a sweep does first about a candidate, by the marks that it found when it began.
pub open spec fn first_step(
    c: CandidateView,
    upfront: PendingView,
    now: i64,
    grace: i64,
    dry_run: bool,
) -> Step {
    if !deletable(c, upfront, now, grace) {
        Step::Done(Outcome::Marked)
    } else if dry_run {
        Step::Done(Outcome::Deleted)
    } else {
        Step::Claim
    }
}

/// What follows a claim: `None` where it could not be made, `Some(false)` where the mark was gone.
pub open spec fn claimed(result: Option<bool>) -> Step {
    match result {
        Some(true) => Step::Stat,
        Some(false) => Step::Done(Outcome::Rescued),
        None => Step::Done(Outcome::Failed),
    }
}

/// What follows a second look: the time of the last write, or `None` where the object is gone.
pub open spec fn looked_at(modified: Option<i64>, now: i64, grace: i64) -> Step {
    match modified {
        None => Step::Release(false, Outcome::Deleted),
        Some(m) => if gc::aged(m, now, grace) {
            Step::Recheck
        } else {
            Step::Release(true, Outcome::Marked)
        },
    }
}

/// What follows the question whether anything accounts for the object.
pub open spec fn rechecked(unaccounted: bool) -> Step {
    if unaccounted {
        Step::Renew
    } else {
        Step::Release(true, Outcome::Rescued)
    }
}

/// What follows a renewal: `None` where it could not be made, `Some(false)` where the claim is
/// no longer this sweep's.
pub open spec fn renewed(result: Option<bool>) -> Step {
    match result {
        Some(true) => Step::Delete,
        Some(false) => Step::Done(Outcome::Rescued),
        None => Step::Done(Outcome::Failed),
    }
}

/// What follows a delete.
pub open spec fn deleted(ok: bool) -> Step {
    if ok {
        Step::Release(false, Outcome::Deleted)
    } else {
        Step::Release(true, Outcome::Failed)
    }
}

fn old_enough(at: i64, now: i64, grace: i64) -> (r: bool)
    ensures
        r == gc::aged(at, now, grace),
{
    at as i128 <= now as i128 - grace as i128
}

/// What a sweep does first about a candidate.
pub fn consider(c: &Candidate, upfront: &PendingDoc, now: i64, grace: i64, dry_run: bool) -> (r:
    Step)
    ensures
        r == first_step(c@, upfront@, now, grace, dry_run),
{
    let ready = old_enough(c.modified, now, grace) && match upfront.digests.get(c.digest.as_str()) {
        Some(seen) => old_enough(*seen, now, grace),
        None => false,
    };
    if !ready {
        Step::Done(Outcome::Marked)
    } else if dry_run {
        Step::Done(Outcome::Deleted)
    } else {
        Step::Claim
    }
}

/// What follows a claim.
pub fn after_claim(result: Option<bool>) -> (r: Step)
    ensures
        r == claimed(result),
{
    match result {
        Some(true) => Step::Stat,
        Some(false) => Step::Done(Outcome::Rescued),
        None => Step::Done(Outcome::Failed),
    }
}

/// What follows a second look.
pub fn after_stat(modified: Option<i64>, now: i64, grace: i64) -> (r: Step)
    ensures
        r == looked_at(modified, now, grace),
{
    match modified {
        None => Step::Release(false, Outcome::Deleted),
        Some(m) => {
            if old_enough(m, now, grace) {
                Step::Recheck
            } else {
                Step::Release(true, Outcome::Marked)
            }
        },
    }
}

/// What follows the question whether anything accounts for the object.
pub fn after_recheck(unaccounted: bool) -> (r: Step)
    ensures
        r == rechecked(unaccounted),
{
    if unaccounted {
        Step::Renew
    } else {
        Step::Release(true, Outcome::Rescued)
    }
}

/// What follows a renewal.
pub fn after_renew(result: Option<bool>) -> (r: Step)
    ensures
        r == renewed(result),
{
    match result {
        Some(true) => Step::Delete,
        Some(false) => Step::Done(Outcome::Rescued),
        None => Step::Done(Outcome::Failed),
    }
}

/// What follows a delete.
pub fn after_delete(ok: bool) -> (r: Step)
    ensures
        r == deleted(ok),
{
    if ok {
        Step::Release(false, Outcome::Deleted)
    } else {
        Step::Release(true, Outcome::Failed)
    }
}

/// What a key names nothing accounts for: no manifest row has a manifest's digest, and neither
/// a blob row nor a reference has a blob's. Other keys are not the sweep's.
pub open spec fn unaccounted_key(
    key: Seq<char>,
    manifest_row: bool,
    blob_row: bool,
    blob_ref: bool,
) -> bool {
    match text::cut(key, '/') {
        Some((prefix, _)) => if prefix == "manifests"@ {
            !manifest_row
        } else if prefix == "blobs"@ {
            !(blob_row || blob_ref)
        } else {
            false
        },
        None => false,
    }
}

/// Whether nothing accounts for an object at the moment of its delete.
pub fn still_unaccounted(key: &str, manifest_row: bool, blob_row: bool, blob_ref: bool) -> (r:
    bool)
    ensures
        r == unaccounted_key(key@, manifest_row, blob_row, blob_ref),
{
    match text::split_once(key, '/') {
        None => false,
        Some((prefix, _)) => {
            if text::same(prefix.as_str(), "manifests") {
                !manifest_row
            } else if text::same(prefix.as_str(), "blobs") {
                !(blob_row || blob_ref)
            } else {
                false
            }
        },
    }
}

/// What a sweep reports.
#[derive(Debug, Clone, Copy, PartialEq, Eq)]
pub struct Totals {
    pub manifests: usize,
    pub blobs: usize,
    pub bytes: i64,
    pub marked: usize,
}

/// How many candidates of a kind fared so.
pub open spec fn count(
    list: Seq<CandidateView>,
    outcomes: Seq<Outcome>,
    kind: Kind,
    outcome: Outcome,
) -> nat
    decreases list.len(),
{
    if list.len() == 0 {
        0
    } else {
        count(list.drop_last(), outcomes, kind, outcome) + if list.last().kind == kind
            && outcomes[list.len() - 1] == outcome {
            1nat
        } else {
            0nat
        }
    }
}

/// The sizes of the blobs among the candidates that are gone.
pub open spec fn bytes_gone(list: Seq<CandidateView>, outcomes: Seq<Outcome>) -> int
    decreases list.len(),
{
    if list.len() == 0 {
        0
    } else {
        bytes_gone(list.drop_last(), outcomes) + if list.last().kind == Kind::Blob
            && outcomes[list.len() - 1] == Outcome::Deleted {
            list.last().size as int
        } else {
            0
        }
    }
}

proof fn count_bound(list: Seq<CandidateView>, outcomes: Seq<Outcome>, outcome: Outcome)
    ensures
        count(list, outcomes, Kind::Manifest, outcome) + count(
            list,
            outcomes,
            Kind::Blob,
            outcome,
        ) <= list.len(),
    decreases list.len(),
{
    if list.len() > 0 {
        count_bound(list.drop_last(), outcomes, outcome);
    }
}

/// Adds up how the candidates of a sweep fared.
pub fn totals(list: &Vec<Candidate>, outcomes: &Vec<Outcome>) -> (t: Totals)
    requires
        list@.len() == outcomes@.len(),
        i64::MIN <= bytes_gone(candidate_views(list@), outcomes@) <= i64::MAX,
    ensures
        t.manifests == count(
            candidate_views(list@),
            outcomes@,
            Kind::Manifest,
            Outcome::Deleted,
        ),
        t.blobs == count(candidate_views(list@), outcomes@, Kind::Blob, Outcome::Deleted),
        t.bytes == bytes_gone(candidate_views(list@), outcomes@),
        t.marked == count(candidate_views(list@), outcomes@, Kind::Manifest, Outcome::Marked)
            + count(candidate_views(list@), outcomes@, Kind::Blob, Outcome::Marked),
{
    let ghost all = candidate_views(list@);
    let n = list.len();
    let mut manifests: usize = 0;
    let mut blobs: usize = 0;
    let mut marked: usize = 0;
    let mut bytes: i128 = 0;
    let mut i: usize = 0;
    while i < n
        invariant
            i <= n,
            n == list@.len(),
            n == outcomes@.len(),
            all == candidate_views(list@),
            manifests == count(all.take(i as int), outcomes@, Kind::Manifest, Outcome::Deleted),
            blobs == count(all.take(i as int), outcomes@, Kind::Blob, Outcome::Deleted),
            marked == count(all.take(i as int), outcomes@, Kind::Manifest, Outcome::Marked) + count(
                all.take(i as int),
                outcomes@,
                Kind::Blob,
                Outcome::Marked,
            ),
            bytes == bytes_gone(all.take(i as int), outcomes@),
            i * i64::MIN <= bytes <= i * i64::MAX,
        decreases n - i,
    {
        proof {
            assert(all.take(i + 1).drop_last() =~= all.take(i as int));
            assert(all.take(i + 1).last() == list@[i as int]@);
            count_bound(all.take(i as int), outcomes@, Outcome::Deleted);
            count_bound(all.take(i as int), outcomes@, Outcome::Marked);
            assert(i * i64::MIN >= 0xffff_ffff_ffff_ffff * i64::MIN && i * i64::MAX
                <= 0xffff_ffff_ffff_ffff * i64::MAX) by (nonlinear_arith)
                requires
                    0 <= i <= 0xffff_ffff_ffff_ffff,
            ;
            assert((i + 1) * i64::MIN == i * i64::MIN + i64::MIN && (i + 1) * i64::MAX == i
                * i64::MAX + i64::MAX) by (nonlinear_arith);
        }
        match outcomes[i] {
            Outcome::Deleted => match list[i].kind {
                Kind::Manifest => {
                    manifests += 1;
                },
                Kind::Blob => {
                    blobs += 1;
                    bytes = bytes + list[i].size as i128;
                },
            },
            Outcome::Marked => {
                marked += 1;
            },
            Outcome::Rescued => {},
            Outcome::Failed => {},
        }
        i += 1;
    }
    proof {
        assert(all.take(i as int) =~= all);
    }
    Totals { manifests, blobs, bytes: bytes as i64, marked }
}

/// Some object under that key is gone or needed.
pub open spec fn settled(list: Seq<CandidateView>, outcomes: Seq<Outcome>, key: Seq<char>) -> bool {
    exists|i: int|
        0 <= i < list.len() && (#[trigger] list[i]).key == key && (outcomes[i] == Outcome::Deleted
            || outcomes[i] == Outcome::Rescued)
}

/// The digest of some candidate that is neither gone nor needed.
pub open spec fn still_sighted(
    list: Seq<CandidateView>,
    outcomes: Seq<Outcome>,
    digest: Seq<char>,
) -> bool {
    exists|i: int|
        0 <= i < list.len() && (#[trigger] list[i]).digest == digest && !settled(
            list,
            outcomes,
            list[i].key,
        )
}

fn settled_keys(list: &Vec<Candidate>, outcomes: &Vec<Outcome>) -> (s: StringHashSet)
    requires
        list@.len() == outcomes@.len(),
    ensures
        forall|k: Seq<char>|
            #[trigger] s@.contains(k) <==> settled(candidate_views(list@), outcomes@, k),
{
    let ghost all = candidate_views(list@);
    let mut s = StringHashSet::new();
    let mut i: usize = 0;
    while i < list.len()
        invariant
            i <= list@.len(),
            list@.len() == outcomes@.len(),
            all == candidate_views(list@),
            forall|k: Seq<char>|
                #[trigger] s@.contains(k) <==> exists|x: int|
                    0 <= x < i && (#[trigger] all[x]).key == k && (outcomes@[x] == Outcome::Deleted
                        || outcomes@[x] == Outcome::Rescued),
        decreases list@.len() - i,
    {
        let ghost before = s@;
        let hit = match outcomes[i] {
            Outcome::Deleted => true,
            Outcome::Rescued => true,
            Outcome::Marked => false,
            Outcome::Failed => false,
        };
        if hit {
            s.insert(list[i].key.clone());
        }
        proof {
            assert(all[i as int].key == list@[i as int].key@);
            assert forall|k: Seq<char>| #[trigger] s@.contains(k) <==> exists|x: int|
                0 <= x < i + 1 && (#[trigger] all[x]).key == k && (outcomes@[x] == Outcome::Deleted
                    || outcomes@[x] == Outcome::Rescued) by {
                if before.contains(k) {
                    let x = choose|x: int|
                        0 <= x < i && (#[trigger] all[x]).key == k && (outcomes@[x]
                            == Outcome::Deleted || outcomes@[x] == Outcome::Rescued);
                    assert(all[x].key == k);
                }
                if s@.contains(k) && !before.contains(k) {
                    assert(all[i as int].key == k);
                }
            }
        }
        i += 1;
    }
    s
}

/// The digests that stay under observation after a sweep.
pub fn survivors(list: &Vec<Candidate>, outcomes: &Vec<Outcome>) -> (keep: Vec<String>)
    requires
        list@.len() == outcomes@.len(),
    ensures
        forall|d: Seq<char>|
            #[trigger] text::views(keep@).contains(d) <==> still_sighted(
                candidate_views(list@),
                outcomes@,
                d,
            ),
{
    let ghost all = candidate_views(list@);
    let done = settled_keys(list, outcomes);
    let mut keep: Vec<String> = Vec::new();
    let mut i: usize = 0;
    while i < list.len()
        invariant
            i <= list@.len(),
            list@.len() == outcomes@.len(),
            all == candidate_views(list@),
            forall|k: Seq<char>| #[trigger] done@.contains(k) <==> settled(all, outcomes@, k),
            forall|d: Seq<char>|
                #[trigger] text::views(keep@).contains(d) <==> exists|x: int|
                    0 <= x < i && (#[trigger] all[x]).digest == d && !settled(
                        all,
                        outcomes@,
                        all[x].key,
                    ),
        decreases list@.len() - i,
    {
        let ghost before = text::views(keep@);
        let hit = !done.contains(list[i].key.as_str());
        if hit {
            keep.push(list[i].digest.clone());
            proof {
                assert(text::views(keep@) =~= before.push(list@[i as int].digest@));
            }
        }
        proof {
            let d0 = list@[i as int].digest@;
            assert(all[i as int].digest == d0);
            assert(hit == !settled(all, outcomes@, all[i as int].key));
            assert forall|d: Seq<char>| #[trigger] text::views(keep@).contains(d) <==> exists|
                x: int,
            |
                0 <= x < i + 1 && (#[trigger] all[x]).digest == d && !settled(
                    all,
                    outcomes@,
                    all[x].key,
                ) by {
                text::contains_push(before, d0, d);
                if before.contains(d) {
                    let x = choose|x: int|
                        0 <= x < i && (#[trigger] all[x]).digest == d && !settled(
                            all,
                            outcomes@,
                            all[x].key,
                        );
                    assert(all[x].digest == d);
                }
                if exists|x: int|
                    0 <= x < i + 1 && (#[trigger] all[x]).digest == d && !settled(
                        all,
                        outcomes@,
                        all[x].key,
                    ) {
                    let x = choose|x: int|
                        0 <= x < i + 1 && (#[trigger] all[x]).digest == d && !settled(
                            all,
                            outcomes@,
                            all[x].key,
                        );
                    if x < i {
                        assert(before.contains(d));
                    }
                }
            }
        }
        i += 1;
    }
    keep
}

/// The digests that a ledger marks, in order.
pub fn marked_digests(ledger: &PendingDoc) -> (r: Vec<String>)
    ensures
        table::ascending(text::views(r@)),
        text::views(r@).to_set() == ledger@.digests.dom(),
{
    let n = ledger.digests.len();
    let ghost keys = ledger.digests.keys();
    let mut r: Vec<String> = Vec::new();
    let mut i: usize = 0;
    while i < n
        invariant
            i <= n,
            n == keys.len(),
            keys == ledger.digests.keys(),
            text::views(r@) == keys.take(i as int),
        decreases n - i,
    {
        let ghost before = text::views(r@);
        r.push(ledger.digests.key_at(i).clone());
        proof {
            assert(text::views(r@) =~= before.push(keys[i as int]));
            assert(keys.take(i + 1) =~= keys.take(i as int).push(keys[i as int]));
        }
        i += 1;
    }
    proof {
        assert(keys.take(i as int) =~= keys);
        assert(keys.to_set() =~= ledger@.digests.dom()) by {
            assert(ledger.digests@ == table::paired(keys, ledger.digests.values()));
        }
    }
    r
}

/// Nothing is claimed before it was sighted by an earlier sweep, and before both the sighting
/// and the last write of the object have aged past the grace window; a dry run claims nothing.
pub proof fn two_sightings_before_a_claim(
    c: CandidateView,
    upfront: PendingView,
    now: i64,
    grace: i64,
    dry_run: bool,
)
    requires
        first_step(c, upfront, now, grace, dry_run) == Step::Claim,
    ensures
        !dry_run,
        upfront.digests.contains_key(c.digest),
        upfront.digests[c.digest] <= now - grace,
        c.modified <= now - grace,
{
}

/// What a sweep finds out about a candidate, step by step.
pub struct Findings {
    pub claim: Option<bool>,
    pub modified: Option<i64>,
    pub unaccounted: bool,
    pub renewal: Option<bool>,
    pub deletion: bool,
}

/// The step that follows a step.
pub open spec fn next_step(step: Step, f: Findings, now: i64, grace: i64) -> Step {
    match step {
        Step::Claim => claimed(f.claim),
        Step::Stat => looked_at(f.modified, now, grace),
        Step::Recheck => rechecked(f.unaccounted),
        Step::Renew => renewed(f.renewal),
        Step::Delete => deleted(f.deletion),
        last => last,
    }
}

/// The step that a sweep is at after so many steps.
pub open spec fn step_at(first: Step, f: Findings, now: i64, grace: i64, n: nat) -> Step
    decreases n,
{
    if n == 0 {
        first
    } else {
        next_step(step_at(first, f, now, grace, (n - 1) as nat), f, now, grace)
    }
}

/// The step takes nothing further.
pub open spec fn is_last(step: Step) -> bool {
    step is Release || step is Done
}

proof fn stays_last(first: Step, f: Findings, now: i64, grace: i64, m: nat, n: nat)
    requires
        m <= n,
        is_last(step_at(first, f, now, grace, m)),
    ensures
        step_at(first, f, now, grace, n) == step_at(first, f, now, grace, m),
    decreases n - m,
{
    if m < n {
        stays_last(first, f, now, grace, m, (n - 1) as nat);
    }
}

/// An object is deleted exactly behind every guard: the run is no dry run, the object and its
/// mark have aged, the mark was claimed, the object was still old at a second look, nothing had
/// come to account for it, and the claim was still this sweep's at the last moment.
pub proof fn every_guard_stands_before_a_delete(
    c: CandidateView,
    upfront: PendingView,
    now: i64,
    grace: i64,
    dry_run: bool,
    f: Findings,
)
    ensures
        (exists|n: nat|
            #[trigger] step_at(first_step(c, upfront, now, grace, dry_run), f, now, grace, n)
                == Step::Delete) <==> {
            &&& !dry_run
            &&& deletable(c, upfront, now, grace)
            &&& f.claim == Some(true)
            &&& f.modified matches Some(m) && gc::aged(m, now, grace)
            &&& f.unaccounted
            &&& f.renewal == Some(true)
        },
{
    let first = first_step(c, upfront, now, grace, dry_run);
    reveal_with_fuel(step_at, 6);
    if exists|n: nat| #[trigger] step_at(first, f, now, grace, n) == Step::Delete {
        let n = choose|n: nat| #[trigger] step_at(first, f, now, grace, n) == Step::Delete;
        assert(is_last(step_at(first, f, now, grace, 5)));
        if n >= 5 {
            stays_last(first, f, now, grace, 5, n);
        }
        if is_last(step_at(first, f, now, grace, 4)) && n >= 4 {
            stays_last(first, f, now, grace, 4, n);
        }
        if is_last(step_at(first, f, now, grace, 3)) && n >= 3 {
            stays_last(first, f, now, grace, 3, n);
        }
        if is_last(step_at(first, f, now, grace, 2)) && n >= 2 {
            stays_last(first, f, now, grace, 2, n);
        }
        if is_last(step_at(first, f, now, grace, 1)) && n >= 1 {
            stays_last(first, f, now, grace, 1, n);
        }
        if is_last(step_at(first, f, now, grace, 0)) {
            stays_last(first, f, now, grace, 0, n);
        }
    }
    assert(step_at(first, f, now, grace, 4) == Step::Delete || is_last(
        step_at(first, f, now, grace, 4),
    ));
}

/// A sweep is done with a candidate after five steps at most. A claim that it made is given up
/// at the end, unless it turned out to be somebody else's by then or could not be renewed. What
/// it reports as deleted after a claim is gone.
pub proof fn claims_are_given_up(first: Step, f: Findings, now: i64, grace: i64)
    requires
        first == Step::Claim || is_last(first),
    ensures
        is_last(step_at(first, f, now, grace, 5)),
        first == Step::Claim && f.claim == Some(true) && f.renewal == Some(true) ==> step_at(
            first,
            f,
            now,
            grace,
            5,
        ) is Release,
        first == Step::Claim ==> match step_at(first, f, now, grace, 5) {
            Step::Release(_, o) => o == Outcome::Deleted ==> f.modified is None || f.deletion,
            Step::Done(o) => o != Outcome::Deleted,
            _ => false,
        },
{
    reveal_with_fuel(step_at, 6);
}

/// An object that is sighted for the first time is marked with the time of the sweep, and the
/// sweep that marks it does not claim it.
pub proof fn a_first_sighting_only_marks(
    c: CandidateView,
    upfront: PendingView,
    keep: Set<Seq<char>>,
    now: i64,
    grace: i64,
    dry_run: bool,
)
    requires
        !upfront.holds(c.digest),
        keep.contains(c.digest),
    ensures
        first_step(c, upfront, now, grace, dry_run) == Step::Done(Outcome::Marked),
        upfront.merge(keep, upfront.digests.dom(), now).digests.contains_key(c.digest),
        upfront.merge(keep, upfront.digests.dom(), now).digests[c.digest] == now,
{
}

/// An object that a sweep marked and that nobody rescued is claimed by the first sweep that
/// comes a grace window later.
pub proof fn the_next_sweep_claims_it(
    c: CandidateView,
    later: CandidateView,
    upfront: PendingView,
    keep: Set<Seq<char>>,
    now: i64,
    then: i64,
    grace: i64,
)
    requires
        !upfront.holds(c.digest),
        keep.contains(c.digest),
        later.digest == c.digest,
        now <= then - grace,
        later.modified <= then - grace,
    ensures
        first_step(
            later,
            upfront.merge(keep, upfront.digests.dom(), now),
            then,
            grace,
            false,
        ) == Step::Claim,
{
}

proof fn unaccounted_is_unknown(
    listing: Seq<Listed>,
    kind: Kind,
    known: Set<Seq<char>>,
    c: CandidateView,
)
    requires
        unaccounted(listing, kind, known).contains(c),
    ensures
        !known.contains(c.digest),
        c.kind == kind,
        c.key == prefix_of(kind) + c.digest,
    decreases listing.len(),
{
    if listing.len() > 0 {
        let before = unaccounted(listing.drop_last(), kind, known);
        if before.contains(c) {
            unaccounted_is_unknown(listing.drop_last(), kind, known, c);
        } else {
            let e = listing.last();
            if let Some(d) = text::after_prefix(e.key@, prefix_of(kind)) {
                if !known.contains(d) {
                    let x = CandidateView {
                        key: e.key@,
                        digest: d,
                        kind,
                        modified: e.modified,
                        size: e.size,
                    };
                    text::contains_push(before, x, c);
                    let p = prefix_of(kind);
                    assert(e.key@ =~= p + d) by {
                        assert(e.key@.subrange(0, p.len() as int) == p);
                        assert(e.key@ =~= e.key@.subrange(0, p.len() as int) + e.key@.skip(
                            p.len() as int,
                        ));
                    }
                }
            }
        }
    }
}

/// Nothing that the rows account for is ever a candidate: no manifest that some index records,
/// and no blob that some row or some manifest that stays refers to.
pub proof fn accounted_objects_are_no_candidates(
    manifests: Seq<Listed>,
    blobs: Seq<Listed>,
    known_manifests: Set<Seq<char>>,
    known_blobs: Set<Seq<char>>,
    c: CandidateView,
)
    requires
        (unaccounted(manifests, Kind::Manifest, known_manifests) + unaccounted(
            blobs,
            Kind::Blob,
            known_blobs,
        )).contains(c),
    ensures
        c.kind == Kind::Manifest ==> !known_manifests.contains(c.digest),
        c.kind == Kind::Blob ==> !known_blobs.contains(c.digest),
        c.key == prefix_of(c.kind) + c.digest,
{
    let a = unaccounted(manifests, Kind::Manifest, known_manifests);
    let b = unaccounted(blobs, Kind::Blob, known_blobs);
    let i = (a + b).index_of(c);
    assert((a + b)[i] == c);
    if i < a.len() {
        assert(a[i] == c);
        unaccounted_is_unknown(manifests, Kind::Manifest, known_manifests, c);
    } else {
        assert(b[i - a.len()] == c);
        unaccounted_is_unknown(blobs, Kind::Blob, known_blobs, c);
    }
}

/// Every object that nothing accounts for is a candidate, under its digest and with what the
/// listing says of it, and nothing else is: manifests are listed under `manifests/` and blobs
/// under `blobs/`.
pub proof fn every_unaccounted_object_is_a_candidate(
    listing: Seq<Listed>,
    kind: Kind,
    known: Set<Seq<char>>,
    c: CandidateView,
)
    ensures
        unaccounted(listing, kind, known).contains(c) <==> {
            &&& c.kind == kind
            &&& !known.contains(c.digest)
            &&& c.key == (match kind {
                Kind::Manifest => "manifests/"@,
                Kind::Blob => "blobs/"@,
            }) + c.digest
            &&& exists|i: int|
                0 <= i < listing.len() && (#[trigger] listing[i]).key@ == c.key
                    && listing[i].modified == c.modified && listing[i].size == c.size
        },
        unaccounted(listing, kind, known).len() <= listing.len(),
    decreases listing.len(),
{
    if listing.len() > 0 {
        let rest = listing.drop_last();
        let e = listing.last();
        let p = match kind {
            Kind::Manifest => "manifests/"@,
            Kind::Blob => "blobs/"@,
        };
        let before = unaccounted(rest, kind, known);
        every_unaccounted_object_is_a_candidate(rest, kind, known, c);
        assert(forall|i: int| 0 <= i < rest.len() ==> rest[i] == listing[i]);
        if before.contains(c) {
            let i = choose|i: int|
                0 <= i < rest.len() && (#[trigger] rest[i]).key@ == c.key && rest[i].modified
                    == c.modified && rest[i].size == c.size;
            assert(listing[i].key@ == c.key);
        }
        assert(listing[listing.len() - 1] == e);
        match text::after_prefix(e.key@, p) {
            Some(d) => {
                text::what_is_stripped_comes_off(e.key@, p, d);
                let x = CandidateView {
                    key: e.key@,
                    digest: d,
                    kind,
                    modified: e.modified,
                    size: e.size,
                };
                text::contains_push(before, x, c);
                if c.key == p + c.digest && c.key == e.key@ {
                    text::what_is_stripped_comes_off(e.key@, p, c.digest);
                }
            },
            None => {
                text::what_is_stripped_comes_off(e.key@, p, c.digest);
            },
        }
    }
}

/// What a sweep does first. It claims a candidate exactly where the run is no dry run, and both
/// the last write of the object and its mark are at least as old as the grace window; a dry run
/// counts just these as deleted, and everything else is marked.
pub proof fn what_a_sweep_does_first(
    c: CandidateView,
    upfront: PendingView,
    now: i64,
    grace: i64,
    dry_run: bool,
)
    ensures
        ({
            let ready = c.modified <= now - grace && upfront.digests.contains_key(c.digest)
                && upfront.digests[c.digest] <= now - grace;
            &&& ready && !dry_run ==> first_step(c, upfront, now, grace, dry_run) == Step::Claim
            &&& ready && dry_run ==> first_step(c, upfront, now, grace, dry_run) == Step::Done(
                Outcome::Deleted,
            )
            &&& !ready ==> first_step(c, upfront, now, grace, dry_run) == Step::Done(
                Outcome::Marked,
            )
        }),
{
}

/// How a sweep goes on from a claim. An object that was written again waits with a fresh mark,
/// one that is needed by now is rescued, and so is one whose claim is gone; one that is gone
/// counts as deleted; where something fails the candidate stays.
pub proof fn how_a_sweep_goes_on(m: i64, now: i64, grace: i64)
    ensures
        claimed(Some(true)) == Step::Stat,
        claimed(Some(false)) == Step::Done(Outcome::Rescued),
        claimed(None) == Step::Done(Outcome::Failed),
        m <= now - grace ==> looked_at(Some(m), now, grace) == Step::Recheck,
        m > now - grace ==> looked_at(Some(m), now, grace) == Step::Release(true, Outcome::Marked),
        looked_at(None, now, grace) == Step::Release(false, Outcome::Deleted),
        rechecked(true) == Step::Renew,
        rechecked(false) == Step::Release(true, Outcome::Rescued),
        renewed(Some(true)) == Step::Delete,
        renewed(Some(false)) == Step::Done(Outcome::Rescued),
        renewed(None) == Step::Done(Outcome::Failed),
        deleted(true) == Step::Release(false, Outcome::Deleted),
        deleted(false) == Step::Release(true, Outcome::Failed),
{
}

/// Whether something accounts for an object at the last moment: a manifest by its row, a blob by
/// its row or by a reference to it. What lies elsewhere in the bucket is never the sweep's.
pub proof fn what_accounts_for_an_object(
    digest: Seq<char>,
    key: Seq<char>,
    manifest_row: bool,
    blob_row: bool,
    blob_ref: bool,
)
    ensures
        unaccounted_key("manifests/"@ + digest, manifest_row, blob_row, blob_ref) == !manifest_row,
        unaccounted_key("blobs/"@ + digest, manifest_row, blob_row, blob_ref) == (!blob_row
            && !blob_ref),
        !"manifests/"@.is_prefix_of(key) && !"blobs/"@.is_prefix_of(key) ==> !unaccounted_key(
            key,
            manifest_row,
            blob_row,
            blob_ref,
        ),
{
    reveal_strlit("manifests");
    reveal_strlit("manifests/");
    reveal_strlit("blobs");
    reveal_strlit("blobs/");
    assert("manifests/"@ + digest =~= "manifests"@ + seq!['/'] + digest);
    assert("blobs/"@ + digest =~= "blobs"@ + seq!['/'] + digest);
    assert(!"manifests"@.contains('/'));
    assert(!"blobs"@.contains('/'));
    text::a_cut_takes_out_the_first("manifests"@, digest, '/');
    text::a_cut_takes_out_the_first("blobs"@, digest, '/');
    assert("manifests"@.len() != "blobs"@.len());
    if let Some((a, b)) = text::cut(key, '/') {
        text::first_of_is_first(key, '/');
        assert(key =~= a + seq!['/'] + b);
        if a == "manifests"@ {
            assert("manifests/"@ =~= key.subrange(0, 10));
        }
        if a == "blobs"@ {
            assert("blobs/"@ =~= key.subrange(0, 6));
        }
    }
}

proof fn counts_ignore_what_follows(
    list: Seq<CandidateView>,
    a: Seq<Outcome>,
    b: Seq<Outcome>,
    kind: Kind,
    outcome: Outcome,
)
    requires
        forall|i: int| 0 <= i < list.len() ==> a[i] == b[i],
    ensures
        count(list, a, kind, outcome) == count(list, b, kind, outcome),
        bytes_gone(list, a) == bytes_gone(list, b),
    decreases list.len(),
{
    if list.len() > 0 {
        counts_ignore_what_follows(list.drop_last(), a, b, kind, outcome);
    }
}

/// What a sweep reports counts every candidate once, by its kind and by how it fared; and its
/// bytes are the sizes of the blobs that were deleted.
pub proof fn reports_count_every_candidate(
    list: Seq<CandidateView>,
    outcomes: Seq<Outcome>,
    c: CandidateView,
    how: Outcome,
    kind: Kind,
    outcome: Outcome,
)
    requires
        list.len() == outcomes.len(),
    ensures
        count(Seq::empty(), outcomes, kind, outcome) == 0,
        count(list.push(c), outcomes.push(how), kind, outcome) == count(
            list,
            outcomes,
            kind,
            outcome,
        ) + if c.kind == kind && how == outcome {
            1int
        } else {
            0
        },
        bytes_gone(Seq::empty(), outcomes) == 0,
        bytes_gone(list.push(c), outcomes.push(how)) == bytes_gone(list, outcomes) + if c.kind
            == Kind::Blob && how == Outcome::Deleted {
            c.size as int
        } else {
            0
        },
{
    assert(list.push(c).drop_last() =~= list);
    counts_ignore_what_follows(list, outcomes, outcomes.push(how), kind, outcome);
}

/// A digest stays under observation exactly where some candidate has it whose object was neither
/// deleted nor rescued, under any of its outcomes.
pub proof fn what_stays_under_observation(
    list: Seq<CandidateView>,
    outcomes: Seq<Outcome>,
    digest: Seq<char>,
)
    ensures
        still_sighted(list, outcomes, digest) <==> exists|i: int|
            0 <= i < list.len() && (#[trigger] list[i]).digest == digest && forall|j: int|
                0 <= j < list.len() && (#[trigger] list[j]).key == list[i].key ==> outcomes[j]
                    != Outcome::Deleted && outcomes[j] != Outcome::Rescued,
{
    if still_sighted(list, outcomes, digest) {
        let i = choose|i: int|
            0 <= i < list.len() && (#[trigger] list[i]).digest == digest && !settled(
                list,
                outcomes,
                list[i].key,
            );
        assert(list[i].digest == digest);
    }
}

/// What is deleted in the end: only what was old when the sweep began and marked by then, with a
/// mark that was old as well, in a run that is no dry run; what the sweep could claim, and what
/// was still there, old and unaccounted for when it looked again, with the claim still its own.
pub proof fn what_is_deleted_in_the_end(
    c: CandidateView,
    upfront: PendingView,
    now: i64,
    grace: i64,
    dry_run: bool,
    f: Findings,
)
    ensures
        (exists|n: nat|
            #[trigger] step_at(first_step(c, upfront, now, grace, dry_run), f, now, grace, n)
                == Step::Delete) <==> {
            &&& !dry_run
            &&& c.modified <= now - grace
            &&& upfront.digests.contains_key(c.digest)
            &&& upfront.digests[c.digest] <= now - grace
            &&& f.claim == Some(true)
            &&& f.modified matches Some(m) && m <= now - grace
            &&& f.unaccounted
            &&& f.renewal == Some(true)
        },
{
    every_guard_stands_before_a_delete(c, upfront, now, grace, dry_run, f);
}

} // verus!
