//! The ledger of objects that are up for deletion.
//!
//! An object that no index accounts for is marked first. A later sweep moves the mark into a
//! claim before it deletes the object, and an upload of the same content clears the mark, or
//! waits while a claim is alive.

use crate::table;
use crate::table::Table;
use crate::text;
use vstd::hash_set::StringHashSet;
use vstd::prelude::*;
use vstd::string::*;

verus! {

/// The key of the ledger.
pub const PENDING_KEY: &'static str = "gc/pending.json";

/// A claim older than this is the residue of a sweep that died.
pub const CLAIM_TTL_SECS: i64 = 300;

/// A sweep is about to delete an object.
#[derive(Debug)]
pub struct Claim {
    pub at: i64,
    pub owner: String,
}

#[verifier::ext_equal]
pub struct ClaimView {
    pub at: i64,
    pub owner: Seq<char>,
}

impl View for Claim {
    type V = ClaimView;

    open spec fn view(&self) -> ClaimView {
        ClaimView { at: self.at, owner: self.owner@ }
    }
}

/// The marks, each with the time of the first sighting, and the claims.
pub struct PendingDoc {
    pub digests: Table<i64>,
    pub deleting: Table<Claim>,
}

#[verifier::ext_equal]
pub struct PendingView {
    pub digests: Map<Seq<char>, i64>,
    pub deleting: Map<Seq<char>, ClaimView>,
}

impl View for PendingDoc {
    type V = PendingView;

    open spec fn view(&self) -> PendingView {
        PendingView {
            digests: self.digests@,
            deleting: self.deleting@.map_values(|c: Claim| c@),
        }
    }
}

impl PendingView {
    /// The digest is marked or claimed: nothing may come to depend on it.
    pub open spec fn holds(self, digest: Seq<char>) -> bool {
        self.digests.contains_key(digest) || self.deleting.contains_key(digest)
    }

    /// `owner` holds the claim on the digest.
    pub open spec fn claimed_by(self, digest: Seq<char>, owner: Seq<char>) -> bool {
        self.deleting.contains_key(digest) && self.deleting[digest].owner == owner
    }

    /// Somebody's claim on the digest is alive.
    pub open spec fn live_claim(self, digest: Seq<char>, now: i64) -> bool {
        self.deleting.contains_key(digest) && now - self.deleting[digest].at < CLAIM_TTL_SECS
    }

    /// The mark has become a claim.
    pub open spec fn claim(self, digest: Seq<char>, owner: Seq<char>, now: i64) -> PendingView {
        if self.digests.contains_key(digest) {
            PendingView {
                digests: self.digests.remove(digest),
                deleting: self.deleting.insert(digest, ClaimView { at: now, owner }),
            }
        } else {
            self
        }
    }

    /// The owner's claim starts over.
    pub open spec fn renew(self, digest: Seq<char>, owner: Seq<char>, now: i64) -> PendingView {
        if self.claimed_by(digest, owner) {
            PendingView {
                deleting: self.deleting.insert(digest, ClaimView { at: now, owner }),
                ..self
            }
        } else {
            self
        }
    }

    /// The owner's claim is gone; in its place stands a fresh mark where one is asked for.
    pub open spec fn release(
        self,
        digest: Seq<char>,
        owner: Seq<char>,
        remark: bool,
        now: i64,
    ) -> PendingView {
        if self.claimed_by(digest, owner) {
            PendingView {
                deleting: self.deleting.remove(digest),
                digests: if remark {
                    self.digests.insert(digest, now)
                } else {
                    self.digests
                },
            }
        } else {
            self
        }
    }

    /// Neither a mark nor a claim is left.
    pub open spec fn clear(self, digest: Seq<char>) -> PendingView {
        PendingView {
            digests: self.digests.remove(digest),
            deleting: self.deleting.remove(digest),
        }
    }

    /// The ledger at the end of a sweep that sighted `keep` and found the marks `upfront` when
    /// it began. Claims that died are gone. Marks that the sweep knew of and no longer sights
    /// are gone. What it sights is marked, now or since earlier, unless a claim is alive on it
    /// or its mark was cleared while the sweep ran.
    pub open spec fn merge(
        self,
        keep: Set<Seq<char>>,
        upfront: Set<Seq<char>>,
        now: i64,
    ) -> PendingView {
        let deleting = self.deleting.remove_keys(
            Set::new(
                |d: Seq<char>| self.deleting.contains_key(d) && now - self.deleting[d].at
                    >= CLAIM_TTL_SECS,
            ),
        );
        PendingView {
            deleting,
            digests: Map::new(
                |d: Seq<char>|
                    {
                        ||| self.digests.contains_key(d) && (keep.contains(d) || !upfront.contains(d))
                        ||| keep.contains(d) && !deleting.contains_key(d) && !upfront.contains(d)
                    },
                |d: Seq<char>|
                    if self.digests.contains_key(d) {
                        self.digests[d]
                    } else {
                        now
                    },
            ),
        }
    }

    /// No digest is marked and claimed at once.
    pub open spec fn separate(self) -> bool {
        forall|d: Seq<char>|
            !(#[trigger] self.digests.contains_key(d) && self.deleting.contains_key(d))
    }
}

/// The ledger of a bucket that has none yet.
pub open spec fn empty_ledger() -> PendingView {
    PendingView { digests: Map::empty(), deleting: Map::empty() }
}

impl Default for PendingDoc {
    fn default() -> (d: PendingDoc)
        ensures
            d@ == empty_ledger(),
    {
        let d = PendingDoc { digests: Table::new(), deleting: Table::new() };
        assert(d@ =~= empty_ledger());
        d
    }
}

/// What an upload that wants to clear a digest does next.
#[derive(Debug, PartialEq, Eq, Clone, Copy)]
pub enum Rescue {
    /// A claim is alive: look again later.
    Wait,
    /// The digest is clear; the flag says whether there was anything to clear or to wait for.
    Cleared(bool),
}

/// What a rescue does next.
pub open spec fn rescue_of(doc: PendingView, digest: Seq<char>, waited: bool, now: i64) -> Rescue {
    if doc.live_claim(digest, now) {
        Rescue::Wait
    } else {
        Rescue::Cleared(waited || doc.holds(digest))
    }
}

fn older(now: i64, at: i64) -> (r: bool)
    ensures
        r == (now - at >= CLAIM_TTL_SECS),
{
    (now as i128) - (at as i128) >= CLAIM_TTL_SECS as i128
}

impl PendingDoc {
    /// Whether the digest is marked or claimed.
    pub fn holds(&self, digest: &str) -> (r: bool)
        ensures
            r == self@.holds(digest@),
    {
        self.digests.contains_key(digest) || self.deleting.contains_key(digest)
    }

    fn is_claimed_by(&self, digest: &str, owner: &str) -> (r: bool)
        ensures
            r == self@.claimed_by(digest@, owner@),
    {
        match self.deleting.get(digest) {
            Some(c) => text::same(c.owner.as_str(), owner),
            None => false,
        }
    }

    /// Moves a mark into a claim; without a mark there is nothing to claim.
    pub fn claim_pending(&mut self, digest: &str, owner: &str, now: i64) -> (r: bool)
        ensures
            r == old(self)@.digests.contains_key(digest@),
            final(self)@ == old(self)@.claim(digest@, owner@, now),
    {
        match self.digests.remove(digest) {
            None => {
                assert(self@ =~= old(self)@);
                false
            },
            Some(_) => {
                let c = Claim { at: now, owner: owner.to_owned() };
                proof {
                    table::mapped_insert(self.deleting@, |c: Claim| c@, digest@, c);
                }
                self.deleting.insert(digest.to_owned(), c);
                true
            },
        }
    }

    /// Starts the owner's claim over; says whether the claim is still the owner's.
    pub fn renew_pending(&mut self, digest: &str, owner: &str, now: i64) -> (r: bool)
        ensures
            r == old(self)@.claimed_by(digest@, owner@),
            final(self)@ == old(self)@.renew(digest@, owner@, now),
    {
        if !self.is_claimed_by(digest, owner) {
            return false;
        }
        let c = Claim { at: now, owner: owner.to_owned() };
        proof {
            table::mapped_insert(self.deleting@, |c: Claim| c@, digest@, c);
        }
        self.deleting.insert(digest.to_owned(), c);
        true
    }

    /// Gives the owner's claim up, leaving a fresh mark where one is asked for.
    pub fn release_pending(&mut self, digest: &str, owner: &str, remark: bool, now: i64)
        ensures
            final(self)@ == old(self)@.release(digest@, owner@, remark, now),
    {
        if self.is_claimed_by(digest, owner) {
            proof {
                table::mapped_remove(self.deleting@, |c: Claim| c@, digest@);
            }
            self.deleting.remove(digest);
            if remark {
                self.digests.insert(digest.to_owned(), now);
            }
        }
    }

    /// Clears a digest, unless a claim on it is alive.
    pub fn clear_pending(&mut self, digest: &str, waited: bool, now: i64) -> (r: Rescue)
        ensures
            r == rescue_of(old(self)@, digest@, waited, now),
            final(self)@ == match r {
                Rescue::Wait => old(self)@,
                Rescue::Cleared(_) => old(self)@.clear(digest@),
            },
    {
        let held = self.holds(digest);
        if let Some(c) = self.deleting.get(digest) {
            if !older(now, c.at) {
                return Rescue::Wait;
            }
        }
        proof {
            table::mapped_remove(self.deleting@, |c: Claim| c@, digest@);
        }
        self.digests.remove(digest);
        self.deleting.remove(digest);
        Rescue::Cleared(waited || held)
    }

    /// Takes out the claims of sweeps that died.
    fn expire_claims(&mut self, now: i64)
        ensures
            final(self)@.digests == old(self)@.digests,
            final(self)@.deleting == old(self)@.deleting.remove_keys(
                Set::new(
                    |d: Seq<char>|
                        old(self)@.deleting.contains_key(d) && now - old(self)@.deleting[d].at
                            >= CLAIM_TTL_SECS,
                ),
            ),
    {
        let mut gone: Vec<String> = Vec::new();
        let n = self.deleting.len();
        let ghost keys = self.deleting.keys();
        let ghost map = self.deleting@;
        let mut i: usize = 0;
        while i < n
            invariant
                i <= n,
                n == keys.len(),
                keys == self.deleting.keys(),
                map == self.deleting@,
                self@ == old(self)@,
                map == table::paired(keys, self.deleting.values()),
                forall|k: Seq<char>|
                    #[trigger] text::views(gone@).contains(k) <==> keys.take(i as int).contains(k)
                        && now - map[k].at >= CLAIM_TTL_SECS,
            decreases n - i,
        {
            let ghost before = text::views(gone@);
            let hit = older(now, self.deleting.value_at(i).at);
            if hit {
                gone.push(self.deleting.key_at(i).clone());
                proof {
                    assert(text::views(gone@) =~= before.push(keys[i as int]));
                }
            }
            proof {
                let next = keys.take(i + 1);
                assert(next =~= keys.take(i as int).push(keys[i as int]));
                assert forall|k: Seq<char>| #[trigger]
                    text::views(gone@).contains(k) <==> next.contains(k) && now - map[k].at
                        >= CLAIM_TTL_SECS by {
                    text::contains_push(keys.take(i as int), keys[i as int], k);
                    text::contains_push(before, keys[i as int], k);
                }
            }
            i += 1;
        }
        self.deleting.remove_all(&gone);
        proof {
            assert(keys.take(n as int) =~= keys);
            table::mapped_remove_keys(map, |c: Claim| c@, text::views(gone@).to_set());
            let t = map.map_values(|c: Claim| c@);
            let stale = Set::new(
                |k: Seq<char>| t.contains_key(k) && now - t[k].at >= CLAIM_TTL_SECS,
            );
            assert forall|k: Seq<char>| text::views(gone@).to_set().contains(k) == stale.contains(
                k,
            ) by {
                assert(text::views(gone@).contains(k) <==> keys.contains(k) && now - map[k].at
                    >= CLAIM_TTL_SECS);
            }
            assert(text::views(gone@).to_set() =~= stale);
        }
    }

    /// Takes out the marks that a sweep knew of and no longer sights.
    fn drop_unsighted(&mut self, keep: &StringHashSet, upfront: &StringHashSet)
        ensures
            final(self)@.deleting == old(self)@.deleting,
            final(self)@.digests == old(self)@.digests.remove_keys(
                Set::new(|d: Seq<char>| !keep@.contains(d) && upfront@.contains(d)),
            ),
    {
        let mut gone: Vec<String> = Vec::new();
        let n = self.digests.len();
        let ghost keys = self.digests.keys();
        let ghost map = self.digests@;
        let mut i: usize = 0;
        while i < n
            invariant
                i <= n,
                n == keys.len(),
                keys == self.digests.keys(),
                map == self.digests@,
                self@ == old(self)@,
                map == table::paired(keys, self.digests.values()),
                forall|k: Seq<char>|
                    #[trigger] text::views(gone@).contains(k) <==> keys.take(i as int).contains(k)
                        && !keep@.contains(k) && upfront@.contains(k),
            decreases n - i,
        {
            let ghost before = text::views(gone@);
            let d = self.digests.key_at(i);
            let hit = !keep.contains(d.as_str()) && upfront.contains(d.as_str());
            if hit {
                gone.push(d.clone());
                proof {
                    assert(text::views(gone@) =~= before.push(keys[i as int]));
                }
            }
            proof {
                let next = keys.take(i + 1);
                assert(next =~= keys.take(i as int).push(keys[i as int]));
                assert forall|k: Seq<char>| #[trigger]
                    text::views(gone@).contains(k) <==> next.contains(k) && !keep@.contains(k)
                        && upfront@.contains(k) by {
                    text::contains_push(keys.take(i as int), keys[i as int], k);
                    text::contains_push(before, keys[i as int], k);
                }
            }
            i += 1;
        }
        self.digests.remove_all(&gone);
        proof {
            assert(keys.take(n as int) =~= keys);
            let stale = Set::new(|k: Seq<char>| !keep@.contains(k) && upfront@.contains(k));
            assert(self.digests@ =~= map.remove_keys(stale)) by {
                assert forall|k: Seq<char>| map.contains_key(k) implies text::views(
                    gone@,
                ).to_set().contains(k) == stale.contains(k) by {
                    assert(text::views(gone@).contains(k) <==> keys.contains(k) && !keep@.contains(
                        k,
                    ) && upfront@.contains(k));
                }
            }
        }
    }

    /// Brings the ledger up to date at the end of a sweep.
    pub fn merge(&mut self, keep: &Vec<String>, upfront: &Vec<String>, now: i64)
        ensures
            final(self)@ == old(self)@.merge(
                text::views(keep@).to_set(),
                text::views(upfront@).to_set(),
                now,
            ),
    {
        let ghost before = self@;
        let kept = text::set_of(keep);
        let known = text::set_of(upfront);
        self.expire_claims(now);
        self.drop_unsighted(&kept, &known);
        let ghost base = self@;
        let ghost all = text::views(keep@);
        let mut i: usize = 0;
        while i < keep.len()
            invariant
                i <= keep@.len(),
                all == text::views(keep@),
                known@ == text::views(upfront@).to_set(),
                self@.deleting == base.deleting,
                forall|d: Seq<char>| #[trigger]
                    self@.digests.contains_key(d) <==> base.digests.contains_key(d) || (all.take(
                        i as int,
                    ).contains(d) && !base.deleting.contains_key(d) && !known@.contains(d)),
                forall|d: Seq<char>| #[trigger]
                    self@.digests.contains_key(d) ==> self@.digests[d]
                        == if base.digests.contains_key(d) {
                        base.digests[d]
                    } else {
                        now
                    },
            decreases keep@.len() - i,
        {
            let d = &keep[i];
            let ghost prev = self@.digests;
            proof {
                assert(all.take(i + 1) =~= all.take(i as int).push(d@));
                assert forall|x: Seq<char>| all.take(i + 1).contains(x) == (all.take(
                    i as int,
                ).contains(x) || x == d@) by {
                    text::contains_push(all.take(i as int), d@, x);
                }
            }
            if !self.deleting.contains_key(d.as_str()) && !self.digests.contains_key(d.as_str())
                && !known.contains(d.as_str()) {
                self.digests.insert(d.clone(), now);
            }
            proof {
                assert(self.deleting@.contains_key(d@) == base.deleting.contains_key(d@));
                assert forall|x: Seq<char>| #[trigger]
                    self@.digests.contains_key(x) <==> base.digests.contains_key(x) || (all.take(
                        i + 1,
                    ).contains(x) && !base.deleting.contains_key(x) && !known@.contains(x)) by {
                    assert(prev.contains_key(x) <==> base.digests.contains_key(x) || (all.take(
                        i as int,
                    ).contains(x) && !base.deleting.contains_key(x) && !known@.contains(x)));
                }
                assert forall|x: Seq<char>| #[trigger]
                    self@.digests.contains_key(x) implies self@.digests[x]
                    == if base.digests.contains_key(x) {
                    base.digests[x]
                } else {
                    now
                } by {
                    assert(prev.contains_key(x) || x == d@);
                    assert(prev.contains_key(d@) || !base.digests.contains_key(d@));
                }
            }
            i += 1;
        }
        proof {
            assert(all.take(i as int) =~= all);
            let after = before.merge(all.to_set(), known@, now);
            assert forall|d: Seq<char>|
                #![trigger self@.digests.contains_key(d)]
                #![trigger self@.digests[d]]
                self@.digests.contains_key(d) == after.digests.contains_key(d) && (
                self@.digests.contains_key(d) ==> self@.digests[d] == after.digests[d]) by {
                assert(all.contains(d) == all.to_set().contains(d));
            }
            assert(self@.digests =~= after.digests);
            assert(self@ =~= after);
        }
    }
}

/// No operation leaves a digest marked and claimed at once.
pub proof fn marks_and_claims_stay_separate(
    doc: PendingView,
    digest: Seq<char>,
    owner: Seq<char>,
    remark: bool,
    keep: Set<Seq<char>>,
    upfront: Set<Seq<char>>,
    now: i64,
)
    requires
        doc.separate(),
    ensures
        empty_ledger().separate(),
        doc.claim(digest, owner, now).separate(),
        doc.renew(digest, owner, now).separate(),
        doc.release(digest, owner, remark, now).separate(),
        doc.clear(digest).separate(),
        doc.merge(keep, upfront, now).separate(),
{
    let m = doc.merge(keep, upfront, now);
    assert forall|d: Seq<char>| !(#[trigger] m.digests.contains_key(d) && m.deleting.contains_key(
        d,
    )) by {
        assert(!(doc.digests.contains_key(d) && doc.deleting.contains_key(d)));
    }
    assert forall|d: Seq<char>|
        !(#[trigger] doc.claim(digest, owner, now).digests.contains_key(d) && doc.claim(
            digest,
            owner,
            now,
        ).deleting.contains_key(d)) by {
        assert(!(doc.digests.contains_key(d) && doc.deleting.contains_key(d)));
    }
    assert forall|d: Seq<char>|
        !(#[trigger] doc.renew(digest, owner, now).digests.contains_key(d) && doc.renew(
            digest,
            owner,
            now,
        ).deleting.contains_key(d)) by {
        assert(!(doc.digests.contains_key(d) && doc.deleting.contains_key(d)));
    }
    assert forall|d: Seq<char>|
        !(#[trigger] doc.release(digest, owner, remark, now).digests.contains_key(d) && doc.release(
            digest,
            owner,
            remark,
            now,
        ).deleting.contains_key(d)) by {
        assert(!(doc.digests.contains_key(d) && doc.deleting.contains_key(d)));
    }
    assert forall|d: Seq<char>|
        !(#[trigger] doc.clear(digest).digests.contains_key(d) && doc.clear(
            digest,
        ).deleting.contains_key(d)) by {
        assert(!(doc.digests.contains_key(d) && doc.deleting.contains_key(d)));
    }
}

/// A claim that was just taken keeps a rescue waiting, and is its owner's and nobody else's.
pub proof fn a_rescue_waits_for_a_claim(
    doc: PendingView,
    digest: Seq<char>,
    owner: Seq<char>,
    waited: bool,
    at: i64,
    now: i64,
)
    requires
        doc.digests.contains_key(digest),
        now - at < CLAIM_TTL_SECS,
    ensures
        rescue_of(doc.claim(digest, owner, at), digest, waited, now) == Rescue::Wait,
        doc.claim(digest, owner, at).claimed_by(digest, owner),
        forall|other: Seq<char>|
            other != owner ==> !doc.claim(digest, owner, at).claimed_by(digest, other),
{
}

/// Once a digest is clear it is neither marked nor claimed, so a sweep that had claimed it
/// before can neither renew its claim nor leave a mark behind.
pub proof fn a_cleared_digest_is_fenced_off(
    doc: PendingView,
    digest: Seq<char>,
    owner: Seq<char>,
    remark: bool,
    now: i64,
)
    ensures
        !doc.clear(digest).holds(digest),
        !doc.clear(digest).claimed_by(digest, owner),
        doc.clear(digest).renew(digest, owner, now) == doc.clear(digest),
        doc.clear(digest).release(digest, owner, remark, now) == doc.clear(digest),
        doc.clear(digest).claim(digest, owner, now) == doc.clear(digest),
{
}

/// A claim that is older than its lifetime keeps no rescue waiting.
pub proof fn a_stale_claim_is_cleared(
    doc: PendingView,
    digest: Seq<char>,
    waited: bool,
    now: i64,
)
    requires
        doc.deleting.contains_key(digest),
        now - doc.deleting[digest].at >= CLAIM_TTL_SECS,
    ensures
        rescue_of(doc, digest, waited, now) == Rescue::Cleared(true),
{
}

/// Giving a claim up after the object is gone leaves nothing behind; giving it up with a mark
/// leaves a mark as old as that moment.
pub proof fn a_released_claim_is_gone(
    doc: PendingView,
    digest: Seq<char>,
    owner: Seq<char>,
    at: i64,
    now: i64,
)
    requires
        doc.separate(),
        doc.digests.contains_key(digest),
    ensures
        ({
            let claimed = doc.claim(digest, owner, at);
            &&& !claimed.release(digest, owner, false, now).holds(digest)
            &&& claimed.release(digest, owner, true, now).digests[digest] == now
            &&& !claimed.release(digest, owner, true, now).deleting.contains_key(digest)
        }),
{
}

/// A mark that was cleared while a sweep ran is not put back at its end, even though the sweep
/// still sights the object.
pub proof fn a_rescue_is_not_undone(
    doc: PendingView,
    keep: Set<Seq<char>>,
    upfront: Set<Seq<char>>,
    digest: Seq<char>,
    now: i64,
)
    requires
        upfront.contains(digest),
        !doc.digests.contains_key(digest),
    ensures
        !doc.merge(keep, upfront, now).digests.contains_key(digest),
{
}

/// The marks of other sweeps survive the end of a sweep, with the time of their sighting.
pub proof fn foreign_marks_survive(
    doc: PendingView,
    keep: Set<Seq<char>>,
    upfront: Set<Seq<char>>,
    digest: Seq<char>,
    now: i64,
)
    requires
        doc.digests.contains_key(digest),
        !upfront.contains(digest),
    ensures
        doc.merge(keep, upfront, now).digests.contains_key(digest),
        doc.merge(keep, upfront, now).digests[digest] == doc.digests[digest],
{
}

/// An operation on one digest leaves every other digest as it was.
pub proof fn other_digests_are_untouched(
    doc: PendingView,
    digest: Seq<char>,
    other: Seq<char>,
    owner: Seq<char>,
    remark: bool,
    now: i64,
)
    requires
        other != digest,
    ensures
        forall|after: PendingView|
            after == doc.claim(digest, owner, now) || after == doc.renew(digest, owner, now)
                || after == doc.release(digest, owner, remark, now) || after == doc.clear(digest)
                ==> {
                &&& #[trigger] after.digests.contains_key(other) == doc.digests.contains_key(other)
                &&& after.digests.contains_key(other) ==> after.digests[other] == doc.digests[other]
                &&& after.deleting.contains_key(other) == doc.deleting.contains_key(other)
                &&& after.deleting.contains_key(other) ==> after.deleting[other]
                    == doc.deleting[other]
            },
{
}

/// An operation on the ledger. A rescue only clears a digest on which no claim is alive.
pub enum LedgerOp {
    Claim { digest: Seq<char>, owner: Seq<char>, now: i64 },
    Renew { digest: Seq<char>, owner: Seq<char>, now: i64 },
    Release { digest: Seq<char>, owner: Seq<char>, remark: bool, now: i64 },
    Rescue { digest: Seq<char>, now: i64 },
    Merge { keep: Set<Seq<char>>, upfront: Set<Seq<char>>, now: i64 },
}

impl LedgerOp {
    /// When the operation takes place.
    pub open spec fn at(self) -> i64 {
        match self {
            LedgerOp::Claim { now, .. } => now,
            LedgerOp::Renew { now, .. } => now,
            LedgerOp::Release { now, .. } => now,
            LedgerOp::Rescue { now, .. } => now,
            LedgerOp::Merge { now, .. } => now,
        }
    }

    /// `owner` claims the digest by it.
    pub open spec fn claims(self, d: Seq<char>, o: Seq<char>) -> bool {
        self matches LedgerOp::Claim { digest, owner, .. } && digest == d && owner == o
    }

    /// `owner` gives the digest up by it.
    pub open spec fn gives_up(self, d: Seq<char>, o: Seq<char>) -> bool {
        self matches LedgerOp::Release { digest, owner, .. } && digest == d && owner == o
    }
}

impl PendingView {
    /// The ledger after an operation.
    pub open spec fn after(self, op: LedgerOp) -> PendingView {
        match op {
            LedgerOp::Claim { digest, owner, now } => self.claim(digest, owner, now),
            LedgerOp::Renew { digest, owner, now } => self.renew(digest, owner, now),
            LedgerOp::Release { digest, owner, remark, now } => self.release(
                digest,
                owner,
                remark,
                now,
            ),
            LedgerOp::Rescue { digest, now } => if self.live_claim(digest, now) {
                self
            } else {
                self.clear(digest)
            },
            LedgerOp::Merge { keep, upfront, now } => self.merge(keep, upfront, now),
        }
    }

    /// The ledger after some operations, one after the other.
    pub open spec fn after_all(self, ops: Seq<LedgerOp>) -> PendingView
        decreases ops.len(),
    {
        if ops.len() == 0 {
            self
        } else {
            self.after_all(ops.drop_last()).after(ops.last())
        }
    }
}

/// As long as a claim lives nothing but its owner ends it: whatever other sweeps and rescues do
/// in the meantime, the claim is still there, and every rescue waits.
pub proof fn a_living_claim_holds(
    doc: PendingView,
    ops: Seq<LedgerOp>,
    digest: Seq<char>,
    owner: Seq<char>,
    waited: bool,
    now: i64,
)
    requires
        doc.separate(),
        doc.claimed_by(digest, owner),
        forall|i: int|
            0 <= i < ops.len() ==> doc.deleting[digest].at <= (#[trigger] ops[i]).at()
                < doc.deleting[digest].at + CLAIM_TTL_SECS && !ops[i].gives_up(digest, owner),
        doc.deleting[digest].at <= now < doc.deleting[digest].at + CLAIM_TTL_SECS,
    ensures
        doc.after_all(ops).separate(),
        doc.after_all(ops).claimed_by(digest, owner),
        doc.after_all(ops).deleting[digest].at >= doc.deleting[digest].at,
        rescue_of(doc.after_all(ops), digest, waited, now) == Rescue::Wait,
    decreases ops.len(),
{
    if ops.len() > 0 {
        let op = ops.last();
        let rest = ops.drop_last();
        assert forall|i: int| 0 <= i < rest.len() implies doc.deleting[digest].at <= (
        #[trigger] rest[i]).at() < doc.deleting[digest].at + CLAIM_TTL_SECS && !rest[i].gives_up(
            digest,
            owner,
        ) by {
            assert(rest[i] == ops[i]);
        }
        a_living_claim_holds(doc, rest, digest, owner, waited, now);
        let before = doc.after_all(rest);
        assert(ops[ops.len() - 1] == op);
        assert(!(before.digests.contains_key(digest) && before.deleting.contains_key(digest)));
        match op {
            LedgerOp::Claim { digest: d, owner: o, now: t } => {
                marks_and_claims_stay_separate(before, d, o, true, Set::empty(), Set::empty(), t);
            },
            LedgerOp::Renew { digest: d, owner: o, now: t } => {
                marks_and_claims_stay_separate(before, d, o, true, Set::empty(), Set::empty(), t);
            },
            LedgerOp::Release { digest: d, owner: o, remark, now: t } => {
                marks_and_claims_stay_separate(before, d, o, remark, Set::empty(), Set::empty(), t);
            },
            LedgerOp::Rescue { digest: d, now: t } => {
                marks_and_claims_stay_separate(before, d, owner, true, Set::empty(), Set::empty(), t);
            },
            LedgerOp::Merge { keep, upfront, now: t } => {
                marks_and_claims_stay_separate(before, digest, owner, true, keep, upfront, t);
            },
        }
    }
}

/// A claim that is lost is lost for good: once a rescue has cleared a digest, no sweep that had
/// claimed it before can renew its claim, whatever happens in the meantime, unless it claims the
/// digest anew.
pub proof fn a_lost_claim_stays_lost(
    doc: PendingView,
    ops: Seq<LedgerOp>,
    digest: Seq<char>,
    owner: Seq<char>,
)
    requires
        forall|i: int| 0 <= i < ops.len() ==> !(#[trigger] ops[i]).claims(digest, owner),
    ensures
        !doc.clear(digest).after_all(ops).claimed_by(digest, owner),
    decreases ops.len(),
{
    if ops.len() > 0 {
        let rest = ops.drop_last();
        assert forall|i: int| 0 <= i < rest.len() implies !(#[trigger] rest[i]).claims(
            digest,
            owner,
        ) by {
            assert(rest[i] == ops[i]);
        }
        a_lost_claim_stays_lost(doc, rest, digest, owner);
        assert(!ops[ops.len() - 1].claims(digest, owner));
    }
}

/// What becomes of a mark. A claim takes it away and stands in its place, with the time and the
/// name of whoever made it; without a mark nothing is claimed.
pub proof fn a_claim_takes_the_place_of_a_mark(
    doc: PendingView,
    digest: Seq<char>,
    owner: Seq<char>,
    now: i64,
)
    ensures
        doc.digests.contains_key(digest) ==> {
            &&& !doc.claim(digest, owner, now).digests.contains_key(digest)
            &&& doc.claim(digest, owner, now).deleting.contains_key(digest)
            &&& doc.claim(digest, owner, now).deleting[digest].at == now
            &&& doc.claim(digest, owner, now).deleting[digest].owner == owner
        },
        !doc.digests.contains_key(digest) ==> doc.claim(digest, owner, now) == doc,
{
}

/// What becomes of a claim. Its owner can start it over, which changes nothing but its time, and
/// can give it up, with a fresh mark or without one. Nobody else can do either.
pub proof fn a_claim_is_its_owners(
    doc: PendingView,
    digest: Seq<char>,
    owner: Seq<char>,
    now: i64,
)
    ensures
        doc.deleting.contains_key(digest) && doc.deleting[digest].owner == owner ==> {
            let renewed = doc.renew(digest, owner, now);
            let dropped = doc.release(digest, owner, false, now);
            let marked = doc.release(digest, owner, true, now);
            &&& renewed.digests == doc.digests
            &&& renewed.deleting.contains_key(digest)
            &&& renewed.deleting[digest].at == now
            &&& renewed.deleting[digest].owner == owner
            &&& !dropped.deleting.contains_key(digest)
            &&& dropped.digests == doc.digests
            &&& !marked.deleting.contains_key(digest)
            &&& marked.digests.contains_key(digest)
            &&& marked.digests[digest] == now
        },
        !(doc.deleting.contains_key(digest) && doc.deleting[digest].owner == owner) ==> {
            &&& doc.renew(digest, owner, now) == doc
            &&& doc.release(digest, owner, false, now) == doc
            &&& doc.release(digest, owner, true, now) == doc
        },
        doc.claimed_by(digest, owner) <==> doc.deleting.contains_key(digest)
            && doc.deleting[digest].owner == owner,
        doc.holds(digest) <==> doc.digests.contains_key(digest) || doc.deleting.contains_key(digest),
{
}

/// A rescue waits exactly where a claim was made less than five minutes ago. Else it clears the
/// digest, mark and claim, and says whether there was either, or whether it has waited.
pub proof fn a_rescue_waits_for_five_minutes(
    doc: PendingView,
    digest: Seq<char>,
    waited: bool,
    now: i64,
)
    ensures
        rescue_of(doc, digest, waited, now) == Rescue::Wait <==> doc.deleting.contains_key(digest)
            && now - doc.deleting[digest].at < 5 * 60,
        rescue_of(doc, digest, waited, now) == Rescue::Cleared(true) <==> !(
        doc.deleting.contains_key(digest) && now - doc.deleting[digest].at < 5 * 60) && (waited
            || doc.digests.contains_key(digest) || doc.deleting.contains_key(digest)),
        doc.clear(digest).digests == doc.digests.remove(digest),
        doc.clear(digest).deleting == doc.deleting.remove(digest),
{
}

/// What the end of a sweep leaves. Claims stay, as they were, until they are five minutes old. A
/// digest is marked afterwards exactly where it was marked and is sighted still or the sweep did
/// not know of the mark, or where it is sighted for the first time and no claim stays on it. A
/// mark keeps its time, and a new one has that of the sweep.
pub proof fn what_a_sweep_leaves(
    doc: PendingView,
    keep: Set<Seq<char>>,
    upfront: Set<Seq<char>>,
    now: i64,
    d: Seq<char>,
)
    ensures
        ({
            let after = doc.merge(keep, upfront, now);
            let claim_stays = doc.deleting.contains_key(d) && now - doc.deleting[d].at < 5 * 60;
            &&& after.deleting.contains_key(d) <==> claim_stays
            &&& claim_stays ==> after.deleting[d] == doc.deleting[d]
            &&& after.digests.contains_key(d) <==> {
                ||| doc.digests.contains_key(d) && keep.contains(d)
                ||| doc.digests.contains_key(d) && !upfront.contains(d)
                ||| keep.contains(d) && !upfront.contains(d) && !claim_stays
            }
            &&& doc.digests.contains_key(d) && after.digests.contains_key(d) ==> after.digests[d]
                == doc.digests[d]
            &&& !doc.digests.contains_key(d) && after.digests.contains_key(d) ==> after.digests[d]
                == now
        }),
{
}

} // verus!
