//! Garbage collection: what is tagged or young stays, with everything that is reachable from
//! it, and the rest goes.

use crate::db::{BlobRow, ManifestRow, RefRow};
use crate::number;
use crate::number::signed_of;
use crate::table::Table;
use crate::text;
use crate::truth;
use std::collections::{HashMap, HashSet};
use vstd::hash_map::StringHashMap;
use vstd::hash_set::StringHashSet;
use vstd::prelude::*;
use vstd::string::*;

verus! {

broadcast use vstd::std_specs::hash::group_hash_axioms;

/// What a collection looks at.
pub struct Rows {
    pub manifests: Vec<ManifestRow>,
    pub refs: Vec<RefRow>,
    /// The manifests that tags point at.
    pub tagged: Vec<i64>,
    /// The repositories by their ids.
    pub repos: Vec<(i64, String)>,
    pub blobs: Vec<BlobRow>,
}

/// The position of the row with that id, or `-1`. Where an id occurs twice the last row counts.
pub open spec fn row_of(rows: Seq<ManifestRow>, id: i64) -> int
    decreases rows.len(),
{
    if rows.len() == 0 {
        -1
    } else if rows.last().id == id {
        rows.len() - 1
    } else {
        row_of(rows.drop_last(), id)
    }
}

/// The position of the row of a repository with that digest, or `-1`. Where it occurs twice
/// the last row counts.
pub open spec fn row_at(rows: Seq<ManifestRow>, repo: i64, digest: Seq<char>) -> int
    decreases rows.len(),
{
    if rows.len() == 0 {
        -1
    } else if rows.last().repo_id == repo && rows.last().digest@ == digest {
        rows.len() - 1
    } else {
        row_at(rows.drop_last(), repo, digest)
    }
}

/// The name of a repository.
pub open spec fn repo_name(repos: Seq<(i64, String)>, id: i64) -> Option<Seq<char>>
    decreases repos.len(),
{
    if repos.len() == 0 {
        None
    } else if repos.last().0 == id {
        Some(repos.last().1@)
    } else {
        repo_name(repos.drop_last(), id)
    }
}

/// `b` is a manifest of the index `a`: a reference of `a` names it, in the repository of `a`.
pub open spec fn is_child(rows: Rows, a: i64, b: i64) -> bool {
    exists|k: int| #[trigger] child_through(rows, a, b, k)
}

/// `b` is a manifest of the index `a` through reference `k`.
pub open spec fn child_through(rows: Rows, a: i64, b: i64, k: int) -> bool {
    let m = rows.manifests@;
    let p = row_of(m, a);
    &&& 0 <= k < rows.refs@.len()
    &&& rows.refs@[k].manifest_id == a
    &&& rows.refs@[k].kind@ == "manifest"@
    &&& p >= 0
    &&& row_at(m, m[p].repo_id, rows.refs@[k].child@) >= 0
    &&& m[row_at(m, m[p].repo_id, rows.refs@[k].child@)].id == b
}

/// `b` refers to `a` as its subject, in the same repository.
pub open spec fn is_referrer(rows: Rows, a: i64, b: i64) -> bool {
    exists|i: int| #[trigger] referrer_at(rows, a, b, i)
}

/// `b`, in row `i`, refers to `a` as its subject.
pub open spec fn referrer_at(rows: Rows, a: i64, b: i64, i: int) -> bool {
    let m = rows.manifests@;
    let p = row_of(m, a);
    &&& 0 <= i < m.len()
    &&& m[i].id == b
    &&& p >= 0
    &&& m[i].repo_id == m[p].repo_id
    &&& text::opt_view(m[i].subject) == Some(m[p].digest@)
}

/// As long as `a` stays, so does `b`.
pub open spec fn keeps(rows: Rows, a: i64, b: i64) -> bool {
    is_child(rows, a, b) || is_referrer(rows, a, b)
}

/// Something is old enough to go.
pub open spec fn aged(created_at: i64, now: i64, grace: i64) -> bool {
    created_at <= now - grace
}

/// A manifest with that id, in row `i`, is younger than the grace window.
pub open spec fn young_at(rows: Rows, now: i64, grace: i64, id: i64, i: int) -> bool {
    &&& 0 <= i < rows.manifests@.len()
    &&& rows.manifests@[i].id == id
    &&& !aged(rows.manifests@[i].created_at, now, grace)
}

/// `id` stays by itself: it is tagged, or younger than the grace window.
pub open spec fn is_root(rows: Rows, now: i64, grace: i64, id: i64) -> bool {
    rows.tagged@.contains(id) || exists|i: int| #[trigger] young_at(rows, now, grace, id, i)
}

/// `id` stays through a chain of at most `n` manifests that starts at one that stays by itself.
pub open spec fn stays_within(rows: Rows, now: i64, grace: i64, id: i64, n: nat) -> bool
    decreases n,
{
    is_root(rows, now, grace, id) || (n > 0 && exists|a: i64|
        #[trigger] keeps(rows, a, id) && stays_within(rows, now, grace, a, (n - 1) as nat))
}

/// `id` is tagged or young, or something that stays keeps it.
pub open spec fn stays(rows: Rows, now: i64, grace: i64, id: i64) -> bool {
    exists|n: nat| stays_within(rows, now, grace, id, n)
}

/// Manifest `i` goes: it does not stay, and its repository is known.
pub open spec fn is_victim(rows: Rows, now: i64, grace: i64, i: int) -> bool {
    &&& 0 <= i < rows.manifests@.len()
    &&& !stays(rows, now, grace, rows.manifests@[i].id)
    &&& repo_name(rows.repos@, rows.manifests@[i].repo_id) is Some
}

/// A manifest that goes, with the name of its repository.
#[derive(Debug)]
pub struct Victim {
    pub id: i64,
    pub repo: String,
    pub digest: String,
}

#[verifier::ext_equal]
pub struct VictimView {
    pub id: i64,
    pub repo: Seq<char>,
    pub digest: Seq<char>,
}

impl View for Victim {
    type V = VictimView;

    open spec fn view(&self) -> VictimView {
        VictimView { id: self.id, repo: self.repo@, digest: self.digest@ }
    }
}

/// The views of some victims.
pub open spec fn victim_views(v: Seq<Victim>) -> Seq<VictimView> {
    v.map_values(|x: Victim| x@)
}

/// The manifests that go among the first `n`, in order.
pub open spec fn victims_among(rows: Rows, now: i64, grace: i64, n: nat) -> Seq<VictimView>
    decreases n,
{
    if n == 0 {
        Seq::empty()
    } else {
        let i = n - 1;
        let before = victims_among(rows, now, grace, i as nat);
        if is_victim(rows, now, grace, i) {
            before.push(
                VictimView {
                    id: rows.manifests@[i].id,
                    repo: repo_name(rows.repos@, rows.manifests@[i].repo_id)->0,
                    digest: rows.manifests@[i].digest@,
                },
            )
        } else {
            before
        }
    }
}

/// The manifest with that id goes.
pub open spec fn victim_id(rows: Rows, now: i64, grace: i64, id: i64) -> bool {
    exists|i: int| #[trigger] is_victim(rows, now, grace, i) && rows.manifests@[i].id == id
}

/// Reference `k` holds a blob: its manifest does not go.
pub open spec fn holds_blob(rows: Rows, now: i64, grace: i64, k: int) -> bool {
    &&& 0 <= k < rows.refs@.len()
    &&& rows.refs@[k].kind@ == "blob"@
    &&& !victim_id(rows, now, grace, rows.refs@[k].manifest_id)
}

/// A manifest that does not go refers to the blob.
pub open spec fn blob_live(rows: Rows, now: i64, grace: i64, digest: Seq<char>) -> bool {
    exists|k: int| #[trigger] holds_blob(rows, now, grace, k) && rows.refs@[k].child@ == digest
}

/// The blobs that go among the first `n`, in order, each with its size: no manifest that stays
/// refers to them, and they are old enough.
pub open spec fn blob_victims_among(rows: Rows, now: i64, grace: i64, n: nat) -> Seq<
    (Seq<char>, i64),
>
    decreases n,
{
    if n == 0 {
        Seq::empty()
    } else {
        let b = rows.blobs@[n - 1];
        let before = blob_victims_among(rows, now, grace, (n - 1) as nat);
        if !blob_live(rows, now, grace, b.digest@) && aged(b.created_at, now, grace) {
            before.push((b.digest@, b.size))
        } else {
            before
        }
    }
}

/// Every digest that some manifest row holds.
pub open spec fn manifest_digests(rows: Rows) -> Set<Seq<char>> {
    Set::new(
        |d: Seq<char>|
            exists|i: int|
                0 <= i < rows.manifests@.len() && (#[trigger] rows.manifests@[i]).digest@ == d,
    )
}

/// Every blob that a row or a manifest that stays accounts for.
pub open spec fn accounted_blobs(rows: Rows, now: i64, grace: i64) -> Set<Seq<char>> {
    Set::new(
        |d: Seq<char>|
            blob_live(rows, now, grace, d) || exists|i: int|
                0 <= i < rows.blobs@.len() && (#[trigger] rows.blobs@[i]).digest@ == d,
    )
}

/// What a collection found.
pub struct Marked {
    pub victims: Vec<Victim>,
    /// The blobs that go, with their sizes.
    pub blob_victims: Vec<(String, i64)>,
    /// Every digest of a manifest that the rows account for, going or not.
    pub known_manifests: StringHashSet,
    /// Every digest of a blob that the rows account for, going or not.
    pub known_blobs: StringHashSet,
}

// Looking rows up.

/// The key of a digest within a repository.
spec fn pair_key(repo: i64, digest: Seq<char>) -> Seq<char> {
    number::signed(repo as int) + ":"@ + digest
}

fn pair_key_of(repo: i64, digest: &str) -> (k: String)
    ensures
        k@ == pair_key(repo, digest@),
{
    let mut k = signed_of(repo);
    k.append(":");
    k.append(digest);
    k
}

proof fn pair_key_injective(a: i64, x: Seq<char>, b: i64, y: Seq<char>)
    requires
        pair_key(a, x) == pair_key(b, y),
    ensures
        a == b,
        x == y,
{
    reveal_strlit(":");
    pair_key_cut(a, x);
    pair_key_cut(b, y);
    number::signed_reads_back(a as int);
    number::signed_reads_back(b as int);
}

proof fn pair_key_cut(a: i64, x: Seq<char>)
    ensures
        text::cut(pair_key(a, x), ':') == Some((number::signed(a as int), x)),
{
    reveal_strlit(":");
    let s = number::signed(a as int);
    let k = pair_key(a, x);
    number::signed_chars(a as int);
    assert forall|j: int| 0 <= j < s.len() implies k[j] != ':' by {
        assert(k[j] == s[j]);
    }
    assert(k[s.len() as int] == ':');
    text::first_of_unique(k, ':', s.len() as int);
    assert(k.take(s.len() as int) =~= s);
    assert(k.skip(s.len() as int + 1) =~= x);
}

proof fn row_of_bounds(rows: Seq<ManifestRow>, id: i64)
    ensures
        -1 <= row_of(rows, id) < rows.len(),
        row_of(rows, id) >= 0 ==> rows[row_of(rows, id)].id == id,
        forall|i: int| 0 <= i < rows.len() && rows[i].id == id ==> row_of(rows, id) >= i,
    decreases rows.len(),
{
    if rows.len() > 0 {
        let rest = rows.drop_last();
        row_of_bounds(rest, id);
        assert forall|i: int| 0 <= i < rows.len() && rows[i].id == id implies row_of(rows, id)
            >= i by {
            if i < rest.len() {
                assert(rest[i] == rows[i]);
            }
        }
    }
}

proof fn row_at_bounds(rows: Seq<ManifestRow>, repo: i64, digest: Seq<char>)
    ensures
        -1 <= row_at(rows, repo, digest) < rows.len(),
        row_at(rows, repo, digest) >= 0 ==> rows[row_at(rows, repo, digest)].repo_id == repo
            && rows[row_at(rows, repo, digest)].digest@ == digest,
    decreases rows.len(),
{
    if rows.len() > 0 {
        row_at_bounds(rows.drop_last(), repo, digest);
    }
}

/// Rows by their ids and by their digests.
struct Lookup {
    by_id: HashMap<i64, usize>,
    by_pair: StringHashMap<usize>,
}

impl Lookup {
    spec fn indexes(self, rows: Seq<ManifestRow>) -> bool {
        &&& forall|id: i64|
            #[trigger] self.by_id@.contains_key(id) <==> row_of(rows, id) >= 0
        &&& forall|id: i64|
            #[trigger] self.by_id@.contains_key(id) ==> self.by_id@[id] == row_of(rows, id)
        &&& forall|repo: i64, d: Seq<char>|
            #![trigger row_at(rows, repo, d)]
            self.by_pair@.contains_key(pair_key(repo, d)) <==> row_at(rows, repo, d) >= 0
        &&& forall|repo: i64, d: Seq<char>|
            #![trigger row_at(rows, repo, d)]
            row_at(rows, repo, d) >= 0 ==> self.by_pair@[pair_key(repo, d)] == row_at(rows, repo, d)
    }

    fn new(rows: &Vec<ManifestRow>) -> (l: Lookup)
        ensures
            l.indexes(rows@),
    {
        let mut by_id: HashMap<i64, usize> = HashMap::new();
        let mut by_pair: StringHashMap<usize> = StringHashMap::new();
        let mut i: usize = 0;
        while i < rows.len()
            invariant
                i <= rows@.len(),
                (Lookup { by_id, by_pair }).indexes(rows@.take(i as int)),
            decreases rows@.len() - i,
        {
            let ghost before = Lookup { by_id, by_pair };
            let ghost done = rows@.take(i as int);
            let ghost next = rows@.take(i + 1);
            let key = pair_key_of(rows[i].repo_id, rows[i].digest.as_str());
            by_id.insert(rows[i].id, i);
            by_pair.insert(key, i);
            proof {
                let r = rows@[i as int];
                let after = Lookup { by_id, by_pair };
                assert(next.drop_last() =~= done);
                assert(next.last() == r);
                assert forall|id: i64| #[trigger]
                    after.by_id@.contains_key(id) <==> row_of(next, id) >= 0 by {
                    assert(before.by_id@.contains_key(id) <==> row_of(done, id) >= 0);
                }
                assert forall|id: i64| #[trigger] after.by_id@.contains_key(id) implies 
                    after.by_id@[id] == row_of(next, id) by {
                    assert(before.by_id@.contains_key(id) <==> row_of(done, id) >= 0);
                }
                assert forall|repo: i64, d: Seq<char>|
                    #![trigger row_at(next, repo, d)]
                    (after.by_pair@.contains_key(pair_key(repo, d)) <==> row_at(next, repo, d) >= 0)
                        && (row_at(next, repo, d) >= 0 ==> after.by_pair@[pair_key(repo, d)]
                        == row_at(next, repo, d)) by {
                    assert(before.by_pair@.contains_key(pair_key(repo, d)) <==> row_at(
                        done,
                        repo,
                        d,
                    ) >= 0);
                    if pair_key(repo, d) == key@ {
                        pair_key_injective(repo, d, r.repo_id, r.digest@);
                    }
                }
            }
            i += 1;
        }
        proof {
            assert(rows@.take(i as int) =~= rows@);
        }
        Lookup { by_id, by_pair }
    }

    fn row(&self, rows: &Vec<ManifestRow>, id: i64) -> (r: Option<usize>)
        requires
            self.indexes(rows@),
        ensures
            match r {
                Some(p) => p == row_of(rows@, id) && p < rows@.len(),
                None => row_of(rows@, id) == -1,
            },
    {
        proof {
            row_of_bounds(rows@, id);
            assert(self.by_id@.contains_key(id) <==> row_of(rows@, id) >= 0);
        }
        match self.by_id.get(&id) {
            Some(p) => Some(*p),
            None => None,
        }
    }

    fn at(&self, rows: &Vec<ManifestRow>, repo: i64, digest: &str) -> (r: Option<usize>)
        requires
            self.indexes(rows@),
        ensures
            match r {
                Some(p) => p == row_at(rows@, repo, digest@) && p < rows@.len(),
                None => row_at(rows@, repo, digest@) == -1,
            },
    {
        proof {
            row_at_bounds(rows@, repo, digest@);
            assert(self.by_pair@.contains_key(pair_key(repo, digest@)) <==> row_at(
                rows@,
                repo,
                digest@,
            ) >= 0);
        }
        match self.by_pair.get(pair_key_of(repo, digest).as_str()) {
            Some(p) => Some(*p),
            None => None,
        }
    }
}

// Marking.

/// The row that counts for its id.
spec fn canonical(rows: Seq<ManifestRow>, p: int) -> bool {
    0 <= p < rows.len() && row_of(rows, rows[p].id) == p
}

proof fn row_of_is_canonical(rows: Seq<ManifestRow>, id: i64)
    ensures
        row_of(rows, id) >= 0 ==> canonical(rows, row_of(rows, id)) && rows[row_of(rows, id)].id
            == id,
        row_of(rows, id) < rows.len(),
{
    row_of_bounds(rows, id);
}

/// The flags say nothing that does not hold.
spec fn sound(rows: Rows, now: i64, grace: i64, flags: Seq<bool>) -> bool {
    &&& flags.len() == rows.manifests@.len()
    &&& forall|p: int|
        canonical(rows.manifests@, p) && #[trigger] flags[p] ==> stays(
            rows,
            now,
            grace,
            rows.manifests@[p].id,
        )
}

/// Every manifest that stays by itself is flagged.
spec fn rooted(rows: Rows, now: i64, grace: i64, flags: Seq<bool>) -> bool {
    forall|p: int|
        canonical(rows.manifests@, p) && is_root(rows, now, grace, rows.manifests@[p].id)
            ==> #[trigger] flags[p]
}

/// What flagged manifests keep is flagged.
spec fn closed(rows: Rows, flags: Seq<bool>) -> bool {
    forall|a: i64, b: i64|
        #![trigger keeps(rows, a, b)]
        keeps(rows, a, b) && row_of(rows.manifests@, a) >= 0 && flags[row_of(rows.manifests@, a)]
            ==> flags[row_of(rows.manifests@, b)]
}

proof fn keeping_stays(rows: Rows, now: i64, grace: i64, a: i64, b: i64)
    requires
        stays(rows, now, grace, a),
        keeps(rows, a, b),
    ensures
        stays(rows, now, grace, b),
{
    let n = choose|n: nat| stays_within(rows, now, grace, a, n);
    assert(stays_within(rows, now, grace, a, ((n + 1) - 1) as nat));
    assert(stays_within(rows, now, grace, b, n + 1));
}

proof fn keeps_has_rows(rows: Rows, a: i64, b: i64)
    requires
        keeps(rows, a, b),
    ensures
        row_of(rows.manifests@, a) >= 0,
        row_of(rows.manifests@, b) >= 0,
{
    let m = rows.manifests@;
    row_of_bounds(m, b);
    if is_child(rows, a, b) {
        let k = choose|k: int| #[trigger] child_through(rows, a, b, k);
        row_at_bounds(m, m[row_of(m, a)].repo_id, rows.refs@[k].child@);
    } else {
        let i = choose|i: int| #[trigger] referrer_at(rows, a, b, i);
        assert(m[i].id == b);
    }
}

proof fn complete(rows: Rows, now: i64, grace: i64, flags: Seq<bool>, id: i64, n: nat)
    requires
        rooted(rows, now, grace, flags),
        closed(rows, flags),
        stays_within(rows, now, grace, id, n),
        row_of(rows.manifests@, id) >= 0,
    ensures
        flags[row_of(rows.manifests@, id)],
    decreases n,
{
    row_of_is_canonical(rows.manifests@, id);
    if !is_root(rows, now, grace, id) {
        let a = choose|a: i64|
            #[trigger] keeps(rows, a, id) && stays_within(rows, now, grace, a, (n - 1) as nat);
        keeps_has_rows(rows, a, id);
        complete(rows, now, grace, flags, a, (n - 1) as nat);
        assert(keeps(rows, a, id));
    }
}

/// How many flags are down.
spec fn down(flags: Seq<bool>) -> nat
    decreases flags.len(),
{
    if flags.len() == 0 {
        0
    } else {
        down(flags.drop_last()) + if flags.last() {
            0nat
        } else {
            1nat
        }
    }
}

proof fn raising_lowers_down(flags: Seq<bool>, i: int)
    requires
        0 <= i < flags.len(),
        !flags[i],
    ensures
        down(flags.update(i, true)) + 1 == down(flags),
    decreases flags.len(),
{
    let after = flags.update(i, true);
    if i == flags.len() - 1 {
        assert(after.drop_last() =~= flags.drop_last());
    } else {
        assert(after.drop_last() =~= flags.drop_last().update(i, true));
        raising_lowers_down(flags.drop_last(), i);
    }
}

/// The pairs of rows of which the first is an index and the second one of its manifests.
fn child_edges(rows: &Rows, l: &Lookup) -> (edges: Vec<(usize, usize)>)
    requires
        l.indexes(rows.manifests@),
    ensures
        forall|e: int|
            0 <= e < edges@.len() ==> canonical(rows.manifests@, (#[trigger] edges@[e]).0 as int)
                && canonical(rows.manifests@, edges@[e].1 as int) && is_child(
                *rows,
                rows.manifests@[edges@[e].0 as int].id,
                rows.manifests@[edges@[e].1 as int].id,
            ),
        forall|a: i64, b: i64|
            #![trigger is_child(*rows, a, b)]
            is_child(*rows, a, b) ==> edges@.contains(
                (row_of(rows.manifests@, a) as usize, row_of(rows.manifests@, b) as usize),
            ),
{
    let ghost m = rows.manifests@;
    let mut edges: Vec<(usize, usize)> = Vec::new();
    let mut k: usize = 0;
    while k < rows.refs.len()
        invariant
            k <= rows.refs@.len(),
            m == rows.manifests@,
            l.indexes(m),
            forall|e: int|
                0 <= e < edges@.len() ==> canonical(m, (#[trigger] edges@[e]).0 as int)
                    && canonical(m, edges@[e].1 as int) && is_child(
                    *rows,
                    m[edges@[e].0 as int].id,
                    m[edges@[e].1 as int].id,
                ),
            forall|a: i64, b: i64, j: int|
                #![trigger child_through(*rows, a, b, j)]
                0 <= j < k && child_through(*rows, a, b, j) ==> edges@.contains(
                    (row_of(m, a) as usize, row_of(m, b) as usize),
                ),
        decreases rows.refs@.len() - k,
    {
        let ghost before = edges@;
        let r = &rows.refs[k];
        if text::same(r.kind.as_str(), "manifest") {
            if let Some(p) = l.row(&rows.manifests, r.manifest_id) {
                if let Some(c) = l.at(
                    &rows.manifests,
                    rows.manifests[p].repo_id,
                    r.child.as_str(),
                ) {
                    let b = rows.manifests[c].id;
                    proof {
                        row_of_bounds(m, b);
                        row_of_is_canonical(m, b);
                        row_of_is_canonical(m, r.manifest_id);
                        assert(child_through(*rows, r.manifest_id, b, k as int));
                    }
                    if let Some(q) = l.row(&rows.manifests, b) {
                        edges.push((p, q));
                        proof {
                            assert(edges@[before.len() as int] == (p, q));
                        }
                    }
                }
            }
        }
        proof {
            assert forall|a: i64, b: i64, j: int|
                #![trigger child_through(*rows, a, b, j)]
                0 <= j < k + 1 && child_through(*rows, a, b, j) implies edges@.contains(
                (row_of(m, a) as usize, row_of(m, b) as usize),
            ) by {
                if j < k {
                    let x = (row_of(m, a) as usize, row_of(m, b) as usize);
                    assert(before.contains(x));
                    let e = before.index_of(x);
                    assert(edges@[e] == x);
                } else {
                    row_of_bounds(m, b);
                    row_at_bounds(m, m[row_of(m, a)].repo_id, rows.refs@[k as int].child@);
                    assert(edges@[before.len() as int] == (
                        row_of(m, a) as usize,
                        row_of(m, b) as usize,
                    ));
                }
            }
        }
        k += 1;
    }
    proof {
        assert forall|a: i64, b: i64|
            #![trigger is_child(*rows, a, b)]
            is_child(*rows, a, b) implies edges@.contains(
            (row_of(m, a) as usize, row_of(m, b) as usize),
        ) by {
            let j = choose|j: int| #[trigger] child_through(*rows, a, b, j);
            assert(child_through(*rows, a, b, j));
        }
    }
    edges
}

/// What one pass does to the flags: it raises flags that may be raised and lowers none, and
/// where it raised one there is one less to raise.
spec fn pass_ok(
    rows: Rows,
    now: i64,
    grace: i64,
    before: Seq<bool>,
    after: Seq<bool>,
    raised: bool,
) -> bool {
    &&& sound(rows, now, grace, after)
    &&& forall|p: int| 0 <= p < before.len() && before[p] ==> #[trigger] after[p]
    &&& raised ==> down(after) < down(before)
    &&& !raised ==> after == before
}

fn pass_children(
    flags: &mut Vec<bool>,
    edges: &Vec<(usize, usize)>,
    Ghost(rows): Ghost<Rows>,
    Ghost(now): Ghost<i64>,
    Ghost(grace): Ghost<i64>,
) -> (r: bool)
    requires
        sound(rows, now, grace, old(flags)@),
        forall|e: int|
            0 <= e < edges@.len() ==> canonical(rows.manifests@, (#[trigger] edges@[e]).0 as int)
                && canonical(rows.manifests@, edges@[e].1 as int) && is_child(
                rows,
                rows.manifests@[edges@[e].0 as int].id,
                rows.manifests@[edges@[e].1 as int].id,
            ),
    ensures
        pass_ok(rows, now, grace, old(flags)@, final(flags)@, r),
        !r ==> forall|e: int|
            0 <= e < edges@.len() && final(flags)@[(#[trigger] edges@[e]).0 as int]
                ==> final(flags)@[edges@[e].1 as int],
{
    let ghost start = flags@;
    let mut raised = false;
    let mut e: usize = 0;
    while e < edges.len()
        invariant
            e <= edges@.len(),
            sound(rows, now, grace, start),
            pass_ok(rows, now, grace, start, flags@, raised),
            forall|x: int|
                0 <= x < edges@.len() ==> canonical(
                    rows.manifests@,
                    (#[trigger] edges@[x]).0 as int,
                ) && canonical(rows.manifests@, edges@[x].1 as int) && is_child(
                    rows,
                    rows.manifests@[edges@[x].0 as int].id,
                    rows.manifests@[edges@[x].1 as int].id,
                ),
            !raised ==> forall|x: int|
                0 <= x < e && flags@[(#[trigger] edges@[x]).0 as int] ==> flags@[edges@[x].1 as int],
        decreases edges@.len() - e,
    {
        let (p, q) = edges[e];
        let ghost before = flags@;
        proof {
            assert(edges@[e as int] == (p, q));
        }
        if flags[p] && !flags[q] {
            flags[q] = true;
            raised = true;
            proof {
                raising_lowers_down(before, q as int);
                assert(before[p as int]);
                keeping_stays(
                    rows,
                    now,
                    grace,
                    rows.manifests@[p as int].id,
                    rows.manifests@[q as int].id,
                );
                assert(flags@ =~= before.update(q as int, true));
                assert forall|x: int|
                    canonical(rows.manifests@, x) && #[trigger] flags@[x] implies stays(
                    rows, now, grace,
                    rows.manifests@[x].id,
                ) by {
                    if x != q {
                        assert(before[x]);
                    }
                }
                assert forall|x: int| 0 <= x < start.len() && start[x] implies #[trigger] flags@[x] by {
                    assert(before[x]);
                }
            }
        }
        e += 1;
    }
    raised
}

/// The digests, within their repositories, of the flagged manifests.
fn flagged_pairs(rows: &Rows, l: &Lookup, flags: &Vec<bool>) -> (s: StringHashSet)
    requires
        l.indexes(rows.manifests@),
        flags@.len() == rows.manifests@.len(),
    ensures
        forall|repo: i64, d: Seq<char>|
            #![trigger s@.contains(pair_key(repo, d))]
            s@.contains(pair_key(repo, d)) <==> exists|p: int|
                canonical(rows.manifests@, p) && #[trigger] flags@[p] && rows.manifests@[p].repo_id
                    == repo && rows.manifests@[p].digest@ == d,
{
    let ghost m = rows.manifests@;
    let mut s = StringHashSet::new();
    let mut i: usize = 0;
    while i < rows.manifests.len()
        invariant
            i <= rows.manifests@.len(),
            m == rows.manifests@,
            flags@.len() == m.len(),
            l.indexes(m),
            forall|repo: i64, d: Seq<char>|
                #![trigger s@.contains(pair_key(repo, d))]
                s@.contains(pair_key(repo, d)) <==> exists|p: int|
                    p < i && canonical(m, p) && #[trigger] flags@[p] && m[p].repo_id == repo
                        && m[p].digest@ == d,
        decreases rows.manifests@.len() - i,
    {
        let ghost before = s@;
        let row = &rows.manifests[i];
        let own = l.row(&rows.manifests, row.id);
        proof {
            row_of_bounds(m, row.id);
        }
        let hit = flags[i] && own == Some(i);
        if hit {
            s.insert(pair_key_of(row.repo_id, row.digest.as_str()));
        }
        proof {
            assert(hit == (canonical(m, i as int) && flags@[i as int]));
            assert forall|repo: i64, d: Seq<char>|
                #![trigger s@.contains(pair_key(repo, d))]
                s@.contains(pair_key(repo, d)) <==> exists|p: int|
                    p < i + 1 && canonical(m, p) && #[trigger] flags@[p] && m[p].repo_id == repo
                        && m[p].digest@ == d by {
                if s@.contains(pair_key(repo, d)) && !before.contains(pair_key(repo, d)) {
                    pair_key_injective(repo, d, row.repo_id, row.digest@);
                    assert(flags@[i as int]);
                }
                if before.contains(pair_key(repo, d)) {
                    let p = choose|p: int|
                        p < i && canonical(m, p) && #[trigger] flags@[p] && m[p].repo_id == repo
                            && m[p].digest@ == d;
                    assert(flags@[p]);
                }
                if exists|p: int|
                    p < i + 1 && canonical(m, p) && #[trigger] flags@[p] && m[p].repo_id == repo
                        && m[p].digest@ == d {
                    let p = choose|p: int|
                        p < i + 1 && canonical(m, p) && #[trigger] flags@[p] && m[p].repo_id == repo
                            && m[p].digest@ == d;
                    if p < i {
                        assert(before.contains(pair_key(repo, d)));
                    }
                }
            }
        }
        i += 1;
    }
    s
}

fn pass_referrers(
    flags: &mut Vec<bool>,
    rows: &Rows,
    l: &Lookup,
    Ghost(now): Ghost<i64>,
    Ghost(grace): Ghost<i64>,
) -> (r: bool)
    requires
        l.indexes(rows.manifests@),
        sound(*rows, now, grace, old(flags)@),
    ensures
        pass_ok(*rows, now, grace, old(flags)@, final(flags)@, r),
        !r ==> forall|a: i64, b: i64|
            #![trigger is_referrer(*rows, a, b)]
            is_referrer(*rows, a, b) && final(flags)@[row_of(rows.manifests@, a)] ==> final(flags)@[row_of(
                rows.manifests@,
                b,
            )],
{
    let ghost m = rows.manifests@;
    let ghost start = flags@;
    let pairs = flagged_pairs(rows, l, &*flags);
    let mut raised = false;
    let mut i: usize = 0;
    while i < rows.manifests.len()
        invariant
            i <= m.len(),
            m == rows.manifests@,
            l.indexes(m),
            sound(*rows, now, grace, start),
            pass_ok(*rows, now, grace, start, flags@, raised),
            forall|repo: i64, d: Seq<char>|
                #![trigger pairs@.contains(pair_key(repo, d))]
                pairs@.contains(pair_key(repo, d)) <==> exists|p: int|
                    canonical(m, p) && #[trigger] start[p] && m[p].repo_id == repo && m[p].digest@
                        == d,
            !raised ==> forall|a: i64, b: i64, x: int|
                #![trigger referrer_at(*rows, a, b, x)]
                0 <= x < i && referrer_at(*rows, a, b, x) && start[row_of(m, a)] ==> flags@[row_of(
                    m,
                    b,
                )],
        decreases m.len() - i,
    {
        let row = &rows.manifests[i];
        let ghost before = flags@;
        let hit = match &row.subject {
            Some(s) => pairs.contains(pair_key_of(row.repo_id, s.as_str()).as_str()),
            None => false,
        };
        proof {
            row_of_bounds(m, row.id);
            row_of_is_canonical(m, row.id);
        }
        if hit {
            if let Some(q) = l.row(&rows.manifests, row.id) {
                if !flags[q] {
                    flags[q] = true;
                    raised = true;
                    proof {
                        let subject = row.subject->0@;
                        assert(pairs@.contains(pair_key(row.repo_id, subject)));
                        let p = choose|p: int|
                            canonical(m, p) && #[trigger] start[p] && m[p].repo_id == row.repo_id
                                && m[p].digest@ == subject;
                        assert(referrer_at(*rows, m[p].id, row.id, i as int));
                        assert(is_referrer(*rows, m[p].id, row.id));
                        keeping_stays(*rows, now, grace, m[p].id, row.id);
                        raising_lowers_down(before, q as int);
                        assert(flags@ =~= before.update(q as int, true));
                        assert forall|x: int|
                            canonical(m, x) && #[trigger] flags@[x] implies stays(
                            *rows, now, grace,
                            m[x].id,
                        ) by {
                            if x != q {
                                assert(before[x]);
                            }
                        }
                        assert forall|x: int| 0 <= x < start.len() && start[x] implies #[trigger] flags@[x] by {
                            assert(before[x]);
                        }
                    }
                }
            }
        }
        proof {
            if !raised {
                assert forall|a: i64, b: i64, x: int|
                    #![trigger referrer_at(*rows, a, b, x)]
                    0 <= x < i + 1 && referrer_at(*rows, a, b, x) && start[row_of(
                        m,
                        a,
                    )] implies flags@[row_of(m, b)] by {
                    if x == i {
                        row_of_is_canonical(m, a);
                        let p = row_of(m, a);
                        assert(canonical(m, p) && start[p] && m[p].repo_id == row.repo_id
                            && m[p].digest@ == row.subject->0@);
                        assert(pairs@.contains(pair_key(row.repo_id, row.subject->0@)));
                    }
                }
            }
        }
        i += 1;
    }
    proof {
        if !raised {
            assert forall|a: i64, b: i64|
                #![trigger is_referrer(*rows, a, b)]
                is_referrer(*rows, a, b) && flags@[row_of(m, a)] implies flags@[row_of(m, b)] by {
                let x = choose|x: int| #[trigger] referrer_at(*rows, a, b, x);
                assert(referrer_at(*rows, a, b, x));
            }
        }
    }
    raised
}

/// Flags every row that counts for its id and whose manifest stays.
fn flag_staying(rows: &Rows, l: &Lookup, now: i64, grace: i64) -> (flags: Vec<bool>)
    requires
        l.indexes(rows.manifests@),
    ensures
        flags@.len() == rows.manifests@.len(),
        forall|p: int|
            canonical(rows.manifests@, p) ==> (#[trigger] flags@[p] <==> stays(
                *rows, now, grace,
                rows.manifests@[p].id,
            )),
{
    let ghost m = rows.manifests@;
    let mut flags: Vec<bool> = Vec::new();
    let mut i: usize = 0;
    while i < rows.manifests.len()
        invariant
            i <= m.len(),
            m == rows.manifests@,
            flags@.len() == i,
            forall|p: int| 0 <= p < i ==> !#[trigger] flags@[p],
        decreases m.len() - i,
    {
        flags.push(false);
        i += 1;
    }
    let mut t: usize = 0;
    while t < rows.tagged.len()
        invariant
            t <= rows.tagged@.len(),
            m == rows.manifests@,
            l.indexes(m),
            sound(*rows, now, grace, flags@),
            forall|p: int|
                canonical(m, p) && rows.tagged@.take(t as int).contains(m[p].id)
                    ==> #[trigger] flags@[p],
        decreases rows.tagged@.len() - t,
    {
        let id = rows.tagged[t];
        let ghost before = flags@;
        proof {
            row_of_is_canonical(m, id);
            assert(rows.tagged@.contains(id));
            assert(stays_within(*rows, now, grace, id, 0));
        }
        if let Some(p) = l.row(&rows.manifests, id) {
            flags[p] = true;
        }
        proof {
            assert(rows.tagged@.take(t + 1) =~= rows.tagged@.take(t as int).push(id));
            assert forall|p: int|
                canonical(m, p) && rows.tagged@.take(t + 1).contains(
                    m[p].id,
                ) implies #[trigger] flags@[p] by {
                text::contains_push(rows.tagged@.take(t as int), id, m[p].id);
                if rows.tagged@.take(t as int).contains(m[p].id) {
                    assert(before[p]);
                }
            }
            assert forall|x: int| canonical(m, x) && #[trigger] flags@[x] implies stays(
                *rows, now, grace,
                m[x].id,
            ) by {
                if m[x].id != id {
                    assert(before[x]);
                }
            }
        }
        t += 1;
    }
    proof {
        assert(rows.tagged@.take(t as int) =~= rows.tagged@);
    }
    let mut y: usize = 0;
    while y < rows.manifests.len()
        invariant
            y <= m.len(),
            m == rows.manifests@,
            l.indexes(m),
            sound(*rows, now, grace, flags@),
            forall|p: int|
                canonical(m, p) && rows.tagged@.contains(m[p].id) ==> #[trigger] flags@[p],
            forall|i: int, id: i64|
                0 <= i < y && #[trigger] young_at(*rows, now, grace, id, i) ==> flags@[row_of(
                    m,
                    id,
                )],
        decreases m.len() - y,
    {
        let ghost before = flags@;
        let row = &rows.manifests[y];
        proof {
            row_of_bounds(m, row.id);
            row_of_is_canonical(m, row.id);
        }
        if !is_aged(row.created_at, now, grace) {
            proof {
                assert(young_at(*rows, now, grace, row.id, y as int));
                assert(stays_within(*rows, now, grace, row.id, 0));
            }
            if let Some(p) = l.row(&rows.manifests, row.id) {
                flags[p] = true;
            }
        }
        proof {
            assert forall|i: int, id: i64|
                0 <= i < y + 1 && #[trigger] young_at(
                    *rows,
                    now,
                    grace,
                    id,
                    i,
                ) implies flags@[row_of(m, id)] by {
                row_of_bounds(m, id);
            }
            assert forall|x: int| canonical(m, x) && #[trigger] flags@[x] implies stays(
                *rows,
                now,
                grace,
                m[x].id,
            ) by {
                if m[x].id != row.id {
                    assert(before[x]);
                }
            }
        }
        y += 1;
    }
    proof {
        assert forall|p: int| canonical(m, p) && is_root(
            *rows,
            now,
            grace,
            m[p].id,
        ) implies #[trigger] flags@[p] by {
            if !rows.tagged@.contains(m[p].id) {
                let i = choose|i: int| #[trigger] young_at(*rows, now, grace, m[p].id, i);
                assert(young_at(*rows, now, grace, m[p].id, i));
            }
        }
    }
    let edges = child_edges(rows, l);
    let n = rows.manifests.len();
    loop
        invariant_except_break
            m == rows.manifests@,
            n == m.len(),
            l.indexes(m),
            sound(*rows, now, grace, flags@),
            rooted(*rows, now, grace, flags@),
            forall|e: int|
                0 <= e < edges@.len() ==> canonical(m, (#[trigger] edges@[e]).0 as int)
                    && canonical(m, edges@[e].1 as int) && is_child(
                    *rows,
                    m[edges@[e].0 as int].id,
                    m[edges@[e].1 as int].id,
                ),
            forall|a: i64, b: i64|
                #![trigger is_child(*rows, a, b)]
                is_child(*rows, a, b) ==> edges@.contains(
                    (row_of(m, a) as usize, row_of(m, b) as usize),
                ),
        ensures
            sound(*rows, now, grace, flags@),
            rooted(*rows, now, grace, flags@),
            closed(*rows, flags@),
        decreases down(flags@),
    {
        let ghost start = flags@;
        let raised_children = pass_children(
            &mut flags,
            &edges,
            Ghost(*rows),
            Ghost(now),
            Ghost(grace),
        );
        let ghost middle = flags@;
        let raised_referrers = pass_referrers(&mut flags, rows, l, Ghost(now), Ghost(grace));
        proof {
            assert forall|p: int| canonical(m, p) && is_root(
                *rows,
                now,
                grace,
                m[p].id,
            ) implies #[trigger] flags@[p] by {
                assert(start[p]);
                assert(middle[p]);
            }
        }
        if !raised_children && !raised_referrers {
            proof {
                assert forall|a: i64, b: i64|
                    #![trigger keeps(*rows, a, b)]
                    keeps(*rows, a, b) && row_of(m, a) >= 0 && flags@[row_of(
                        m,
                        a,
                    )] implies flags@[row_of(m, b)] by {
                    keeps_has_rows(*rows, a, b);
                    row_of_bounds(m, a);
                    row_of_bounds(m, b);
                    if is_child(*rows, a, b) {
                        let x = (row_of(m, a) as usize, row_of(m, b) as usize);
                        let e = edges@.index_of(x);
                        assert(edges@[e] == x);
                    } else {
                        assert(is_referrer(*rows, a, b));
                    }
                }
            }
            break;
        }
    }
    proof {
        assert forall|p: int| canonical(m, p) implies (#[trigger] flags@[p] <==> stays(
            *rows, now, grace,
            m[p].id,
        )) by {
            if stays(*rows, now, grace, m[p].id) {
                let n = choose|n: nat| stays_within(*rows, now, grace, m[p].id, n);
                complete(*rows, now, grace, flags@, m[p].id, n);
            }
        }
    }
    flags
}

/// The positions of the names of the repositories.
fn name_positions(repos: &Vec<(i64, String)>) -> (map: HashMap<i64, usize>)
    ensures
        forall|id: i64|
            #[trigger] map@.contains_key(id) <==> repo_name(repos@, id) is Some,
        forall|id: i64|
            #[trigger] map@.contains_key(id) ==> map@[id] < repos@.len() && Some(
                repos@[map@[id] as int].1@,
            ) == repo_name(repos@, id),
{
    let mut map: HashMap<i64, usize> = HashMap::new();
    let mut i: usize = 0;
    while i < repos.len()
        invariant
            i <= repos@.len(),
            forall|id: i64|
                #[trigger] map@.contains_key(id) <==> repo_name(repos@.take(i as int), id) is Some,
            forall|id: i64|
                #[trigger] map@.contains_key(id) ==> map@[id] < i && Some(
                    repos@[map@[id] as int].1@,
                ) == repo_name(repos@.take(i as int), id),
        decreases repos@.len() - i,
    {
        let ghost before = map@;
        map.insert(repos[i].0, i);
        proof {
            let next = repos@.take(i + 1);
            assert(next.drop_last() =~= repos@.take(i as int));
            assert forall|id: i64| #[trigger] map@.contains_key(id) <==> repo_name(
                next,
                id,
            ) is Some by {
                assert(before.contains_key(id) <==> repo_name(repos@.take(i as int), id) is Some);
            }
            assert forall|id: i64| #[trigger] map@.contains_key(id) implies map@[id] < i + 1
                && Some(repos@[map@[id] as int].1@) == repo_name(next, id) by {
                if id != repos@[i as int].0 {
                    assert(before.contains_key(id));
                }
            }
        }
        i += 1;
    }
    proof {
        assert(repos@.take(i as int) =~= repos@);
    }
    map
}

fn is_aged(created_at: i64, now: i64, grace: i64) -> (r: bool)
    ensures
        r == aged(created_at, now, grace),
{
    created_at as i128 <= now as i128 - grace as i128
}

/// The manifests that go, and the set of their ids.
fn find_victims(rows: &Rows, now: i64, grace: i64) -> (r: (Vec<Victim>, HashSet<i64>))
    ensures
        victim_views(r.0@) == victims_among(*rows, now, grace, rows.manifests@.len()),
        forall|id: i64| #[trigger] r.1@.contains(id) <==> victim_id(*rows, now, grace, id),
{
    let l = Lookup::new(&rows.manifests);
    let flags = flag_staying(rows, &l, now, grace);
    let names = name_positions(&rows.repos);
    let ghost m = rows.manifests@;
    let mut victims: Vec<Victim> = Vec::new();
    let mut ids: HashSet<i64> = HashSet::new();
    let mut i: usize = 0;
    proof {
        assert(victim_views(victims@) =~= Seq::empty());
    }
    while i < rows.manifests.len()
        invariant
            i <= m.len(),
            m == rows.manifests@,
            l.indexes(m),
            flags@.len() == m.len(),
            forall|p: int|
                canonical(m, p) ==> (#[trigger] flags@[p] <==> stays(*rows, now, grace, m[p].id)),
            forall|id: i64|
                #[trigger] names@.contains_key(id) <==> repo_name(rows.repos@, id) is Some,
            forall|id: i64|
                #[trigger] names@.contains_key(id) ==> names@[id] < rows.repos@.len() && Some(
                    rows.repos@[names@[id] as int].1@,
                ) == repo_name(rows.repos@, id),
            victim_views(victims@) == victims_among(*rows, now, grace, i as nat),
            forall|id: i64|
                #[trigger] ids@.contains(id) <==> exists|x: int|
                    x < i && #[trigger] is_victim(*rows, now, grace, x) && m[x].id == id,
        decreases m.len() - i,
    {
        let row = &rows.manifests[i];
        let ghost before = victim_views(victims@);
        let ghost before_ids = ids@;
        proof {
            row_of_bounds(m, row.id);
            row_of_is_canonical(m, row.id);
        }
        let kept = match l.row(&rows.manifests, row.id) {
            Some(p) => flags[p],
            None => false,
        };
        let ghost hit = is_victim(*rows, now, grace, i as int);
        if !kept {
            if let Some(k) = names.get(&row.repo_id) {
                let repo = rows.repos[*k].1.clone();
                let v = Victim { id: row.id, repo, digest: row.digest.clone() };
                proof {
                    assert(hit);
                }
                victims.push(v);
                ids.insert(row.id);
                proof {
                    assert(victim_views(victims@) =~= before.push(v@));
                }
            }
        }
        proof {
            assert(names@.contains_key(row.repo_id) <==> repo_name(rows.repos@, row.repo_id)
                is Some);
            assert forall|id: i64| #[trigger] ids@.contains(id) <==> exists|x: int|
                x < i + 1 && #[trigger] is_victim(*rows, now, grace, x) && m[x].id == id by {
                if before_ids.contains(id) {
                    let x = choose|x: int|
                        x < i && #[trigger] is_victim(*rows, now, grace, x) && m[x].id == id;
                    assert(is_victim(*rows, now, grace, x));
                }
                if exists|x: int|
                    x < i + 1 && #[trigger] is_victim(*rows, now, grace, x) && m[x].id == id {
                    let x = choose|x: int|
                        x < i + 1 && #[trigger] is_victim(*rows, now, grace, x) && m[x].id == id;
                    if x < i {
                        assert(before_ids.contains(id));
                    }
                }
            }
        }
        i += 1;
    }
    proof {
        assert forall|id: i64| #[trigger] ids@.contains(id) <==> victim_id(
            *rows,
            now,
            grace,
            id,
        ) by {
            if victim_id(*rows, now, grace, id) {
                let x = choose|x: int| #[trigger] is_victim(*rows, now, grace, x) && m[x].id == id;
                assert(x < i);
            }
        }
    }
    (victims, ids)
}

/// The blobs that manifests which stay refer to.
fn live_blobs(rows: &Rows, now: i64, grace: i64, victims: &HashSet<i64>) -> (live: StringHashSet)
    requires
        forall|id: i64| #[trigger] victims@.contains(id) <==> victim_id(*rows, now, grace, id),
    ensures
        forall|d: Seq<char>| #[trigger] live@.contains(d) <==> blob_live(*rows, now, grace, d),
{
    let mut live = StringHashSet::new();
    let mut k: usize = 0;
    while k < rows.refs.len()
        invariant
            k <= rows.refs@.len(),
            forall|id: i64| #[trigger] victims@.contains(id) <==> victim_id(*rows, now, grace, id),
            forall|d: Seq<char>|
                #[trigger] live@.contains(d) <==> exists|j: int|
                    j < k && #[trigger] holds_blob(*rows, now, grace, j) && rows.refs@[j].child@
                        == d,
        decreases rows.refs@.len() - k,
    {
        let r = &rows.refs[k];
        let ghost before = live@;
        if text::same(r.kind.as_str(), "blob") && !victims.contains(&r.manifest_id) {
            live.insert(r.child.clone());
        }
        proof {
            assert(victims@.contains(r.manifest_id) <==> victim_id(
                *rows,
                now,
                grace,
                r.manifest_id,
            ));
            assert forall|d: Seq<char>| #[trigger] live@.contains(d) <==> exists|j: int|
                j < k + 1 && #[trigger] holds_blob(*rows, now, grace, j) && rows.refs@[j].child@
                    == d by {
                if before.contains(d) {
                    let j = choose|j: int|
                        j < k && #[trigger] holds_blob(*rows, now, grace, j) && rows.refs@[j].child@
                            == d;
                    assert(holds_blob(*rows, now, grace, j));
                }
                if live@.contains(d) && !before.contains(d) {
                    assert(holds_blob(*rows, now, grace, k as int));
                }
                if exists|j: int|
                    j < k + 1 && #[trigger] holds_blob(*rows, now, grace, j) && rows.refs@[j].child@
                        == d {
                    let j = choose|j: int|
                        j < k + 1 && #[trigger] holds_blob(*rows, now, grace, j)
                            && rows.refs@[j].child@ == d;
                    if j < k {
                        assert(before.contains(d));
                    }
                }
            }
        }
        k += 1;
    }
    proof {
        assert forall|d: Seq<char>| #[trigger] live@.contains(d) <==> blob_live(
            *rows,
            now,
            grace,
            d,
        ) by {
            if blob_live(*rows, now, grace, d) {
                let j = choose|j: int|
                    #[trigger] holds_blob(*rows, now, grace, j) && rows.refs@[j].child@ == d;
                assert(j < k);
            }
        }
    }
    live
}

/// Digests with sizes.
pub open spec fn sized(v: Seq<(String, i64)>) -> Seq<(Seq<char>, i64)> {
    v.map_values(|x: (String, i64)| (x.0@, x.1))
}

fn find_blob_victims(rows: &Rows, now: i64, grace: i64, live: &StringHashSet) -> (r: Vec<
    (String, i64),
>)
    requires
        forall|d: Seq<char>| #[trigger] live@.contains(d) <==> blob_live(*rows, now, grace, d),
    ensures
        sized(r@) == blob_victims_among(*rows, now, grace, rows.blobs@.len()),
{
    let mut r: Vec<(String, i64)> = Vec::new();
    let mut i: usize = 0;
    proof {
        assert(sized(r@) =~= Seq::empty());
    }
    while i < rows.blobs.len()
        invariant
            i <= rows.blobs@.len(),
            forall|d: Seq<char>| #[trigger] live@.contains(d) <==> blob_live(*rows, now, grace, d),
            sized(r@) == blob_victims_among(*rows, now, grace, i as nat),
        decreases rows.blobs@.len() - i,
    {
        let b = &rows.blobs[i];
        let ghost before = sized(r@);
        if !live.contains(b.digest.as_str()) && is_aged(b.created_at, now, grace) {
            r.push((b.digest.clone(), b.size));
            proof {
                assert(sized(r@) =~= before.push((b.digest@, b.size)));
            }
        }
        i += 1;
    }
    r
}

fn all_manifest_digests(rows: &Rows) -> (known: StringHashSet)
    ensures
        known@ == manifest_digests(*rows),
{
    let ghost m = rows.manifests@;
    let mut known = StringHashSet::new();
    let mut i: usize = 0;
    while i < rows.manifests.len()
        invariant
            i <= m.len(),
            m == rows.manifests@,
            forall|d: Seq<char>|
                #[trigger] known@.contains(d) <==> exists|x: int|
                    0 <= x < i && (#[trigger] m[x]).digest@ == d,
        decreases m.len() - i,
    {
        let ghost before = known@;
        known.insert(rows.manifests[i].digest.clone());
        proof {
            assert forall|d: Seq<char>| #[trigger] known@.contains(d) <==> exists|x: int|
                0 <= x < i + 1 && (#[trigger] m[x]).digest@ == d by {
                if before.contains(d) {
                    let x = choose|x: int| 0 <= x < i && (#[trigger] m[x]).digest@ == d;
                    assert(m[x].digest@ == d);
                }
                assert(m[i as int].digest@ == rows.manifests@[i as int].digest@);
            }
        }
        i += 1;
    }
    proof {
        assert(known@ =~= manifest_digests(*rows));
    }
    known
}

fn add_blob_rows(rows: &Rows, known: &mut StringHashSet)
    ensures
        forall|d: Seq<char>|
            #[trigger] final(known)@.contains(d) <==> old(known)@.contains(d) || exists|x: int|
                0 <= x < rows.blobs@.len() && (#[trigger] rows.blobs@[x]).digest@ == d,
{
    let ghost start = known@;
    let ghost b = rows.blobs@;
    let mut i: usize = 0;
    while i < rows.blobs.len()
        invariant
            i <= b.len(),
            b == rows.blobs@,
            forall|d: Seq<char>|
                #[trigger] known@.contains(d) <==> start.contains(d) || exists|x: int|
                    0 <= x < i && (#[trigger] b[x]).digest@ == d,
        decreases b.len() - i,
    {
        let ghost before = known@;
        known.insert(rows.blobs[i].digest.clone());
        proof {
            assert forall|d: Seq<char>| #[trigger] known@.contains(d) <==> start.contains(d)
                || exists|x: int| 0 <= x < i + 1 && (#[trigger] b[x]).digest@ == d by {
                if before.contains(d) && !start.contains(d) {
                    let x = choose|x: int| 0 <= x < i && (#[trigger] b[x]).digest@ == d;
                    assert(b[x].digest@ == d);
                }
                assert(b[i as int].digest@ == rows.blobs@[i as int].digest@);
            }
        }
        i += 1;
    }
}

/// Marks what goes. A manifest stays while it is tagged or younger than `grace` seconds, while
/// an index that stays lists it, and while it refers to something that stays. A blob stays
/// while it is younger than `grace` seconds, and while a manifest that stays refers to it.
pub fn mark(rows: &Rows, now: i64, grace: i64) -> (r: Marked)
    ensures
        victim_views(r.victims@) == victims_among(*rows, now, grace, rows.manifests@.len()),
        sized(r.blob_victims@) == blob_victims_among(*rows, now, grace, rows.blobs@.len()),
        r.known_manifests@ == manifest_digests(*rows),
        r.known_blobs@ == accounted_blobs(*rows, now, grace),
{
    let (victims, ids) = find_victims(rows, now, grace);
    let live = live_blobs(rows, now, grace, &ids);
    let blob_victims = find_blob_victims(rows, now, grace, &live);
    let mut known_blobs = live;
    add_blob_rows(rows, &mut known_blobs);
    proof {
        assert(known_blobs@ =~= accounted_blobs(*rows, now, grace));
    }
    Marked { victims, blob_victims, known_manifests: all_manifest_digests(rows), known_blobs }
}

/// What a collection did, or would do.
#[derive(Debug, Clone, Copy, PartialEq, Eq)]
pub struct GcReport {
    pub dry_run: bool,
    pub manifests_deleted: usize,
    pub blobs_deleted: usize,
    pub bytes_freed: i64,
    /// Objects that no index refers to at all.
    pub orphan_manifests_deleted: usize,
    pub orphan_blobs_deleted: usize,
    pub orphan_bytes_freed: i64,
    /// Candidates recorded this run, or still pending: what a later run deletes.
    pub orphans_marked: usize,
}

/// The sum of some sizes.
pub open spec fn total(v: Seq<(Seq<char>, i64)>) -> int
    decreases v.len(),
{
    if v.len() == 0 {
        0
    } else {
        total(v.drop_last()) + v.last().1
    }
}

/// The report of what was marked, before the bucket is swept.
pub fn report(marked: &Marked, dry_run: bool) -> (r: GcReport)
    requires
        i64::MIN <= total(sized(marked.blob_victims@)) <= i64::MAX,
    ensures
        r == (GcReport {
            dry_run,
            manifests_deleted: marked.victims@.len() as usize,
            blobs_deleted: marked.blob_victims@.len() as usize,
            bytes_freed: total(sized(marked.blob_victims@)) as i64,
            orphan_manifests_deleted: 0,
            orphan_blobs_deleted: 0,
            orphan_bytes_freed: 0,
            orphans_marked: 0,
        }),
{
    let ghost all = sized(marked.blob_victims@);
    let n = marked.blob_victims.len();
    let mut sum: i128 = 0;
    let mut i: usize = 0;
    while i < n
        invariant
            i <= n,
            n == marked.blob_victims@.len(),
            all == sized(marked.blob_victims@),
            sum == total(all.take(i as int)),
            i * i64::MIN <= sum <= i * i64::MAX,
        decreases n - i,
    {
        proof {
            assert(all.take(i + 1).drop_last() =~= all.take(i as int));
            assert(all.take(i + 1).last() == all[i as int]);
            assert(i * i64::MIN >= 0xffff_ffff_ffff_ffff * i64::MIN && i * i64::MAX
                <= 0xffff_ffff_ffff_ffff * i64::MAX) by (nonlinear_arith)
                requires
                    0 <= i <= 0xffff_ffff_ffff_ffff,
            ;
            assert((i + 1) * i64::MIN == i * i64::MIN + i64::MIN && (i + 1) * i64::MAX == i
                * i64::MAX + i64::MAX) by (nonlinear_arith);
        }
        sum = sum + marked.blob_victims[i].1 as i128;
        i += 1;
    }
    proof {
        assert(all.take(i as int) =~= all);
    }
    GcReport {
        dry_run,
        manifests_deleted: marked.victims.len(),
        blobs_deleted: n,
        bytes_freed: sum as i64,
        orphan_manifests_deleted: 0,
        orphan_blobs_deleted: 0,
        orphan_bytes_freed: 0,
        orphans_marked: 0,
    }
}

/// The digests of the victims in a repository, in order.
pub open spec fn digests_in(victims: Seq<VictimView>, repo: Seq<char>) -> Seq<Seq<char>>
    decreases victims.len(),
{
    if victims.len() == 0 {
        Seq::empty()
    } else {
        let before = digests_in(victims.drop_last(), repo);
        if victims.last().repo == repo {
            before.push(victims.last().digest)
        } else {
            before
        }
    }
}

/// What is to be taken out of each repository's index: the digests of its victims.
pub fn removals(victims: &Vec<Victim>) -> (t: Table<Vec<String>>)
    ensures
        forall|repo: Seq<char>|
            #[trigger] t@.contains_key(repo) <==> digests_in(victim_views(victims@), repo).len() > 0,
        forall|repo: Seq<char>|
            #[trigger] t@.contains_key(repo) ==> text::views(t@[repo]@) == digests_in(
                victim_views(victims@),
                repo,
            ),
{
    let ghost all = victim_views(victims@);
    let mut t: Table<Vec<String>> = Table::new();
    let mut i: usize = 0;
    while i < victims.len()
        invariant
            i <= victims@.len(),
            all == victim_views(victims@),
            forall|repo: Seq<char>|
                #[trigger] t@.contains_key(repo) <==> digests_in(all.take(i as int), repo).len()
                    > 0,
            forall|repo: Seq<char>|
                #[trigger] t@.contains_key(repo) ==> text::views(t@[repo]@) == digests_in(
                    all.take(i as int),
                    repo,
                ),
        decreases victims@.len() - i,
    {
        let v = &victims[i];
        let ghost before = t@;
        let ghost now = all.take(i as int);
        let ghost next = all.take(i + 1);
        proof {
            assert(next.drop_last() =~= now);
            assert(next.last() == v@);
            assert(before.contains_key(v.repo@) <==> digests_in(now, v.repo@).len() > 0);
        }
        let mut list = match t.remove(v.repo.as_str()) {
            Some(list) => list,
            None => Vec::new(),
        };
        let ghost had = text::views(list@);
        proof {
            assert(had =~= digests_in(now, v.repo@));
        }
        list.push(v.digest.clone());
        proof {
            assert(text::views(list@) =~= had.push(v.digest@));
        }
        t.insert(v.repo.clone(), list);
        proof {
            assert forall|repo: Seq<char>| #[trigger] t@.contains_key(repo) <==> digests_in(
                next,
                repo,
            ).len() > 0 by {
                assert(before.contains_key(repo) <==> digests_in(now, repo).len() > 0);
            }
            assert forall|repo: Seq<char>| #[trigger] t@.contains_key(repo) implies text::views(
                t@[repo]@,
            ) == digests_in(next, repo) by {
                if repo != v.repo@ {
                    assert(before.contains_key(repo));
                }
            }
        }
        i += 1;
    }
    proof {
        assert(all.take(i as int) =~= all);
    }
    t
}

/// The latest time at which something that may go was created; `None` where nothing is that
/// old.
pub fn cutoff(now: i64, grace: i64) -> (c: Option<i64>)
    ensures
        match c {
            Some(c) => forall|t: i64| t <= c <==> #[trigger] aged(t, now, grace),
            None => forall|t: i64| !#[trigger] aged(t, now, grace),
        },
        c matches Some(latest) ==> latest == if now - grace > i64::MAX {
            i64::MAX as int
        } else {
            now - grace
        },
        c is None <==> now - grace < i64::MIN,
{
    let c: i128 = now as i128 - grace as i128;
    if c > i64::MAX as i128 {
        Some(i64::MAX)
    } else if c < i64::MIN as i128 {
        None
    } else {
        Some(c as i64)
    }
}

/// Some victim has that digest.
pub open spec fn has_digest(victims: Seq<VictimView>, d: Seq<char>) -> bool {
    exists|i: int| 0 <= i < victims.len() && (#[trigger] victims[i]).digest == d
}

/// The manifest objects to delete: those of the victims that no index mentions any more, each
/// once.
pub fn droppable(victims: &Vec<Victim>, still_used: &Vec<String>) -> (r: Vec<String>)
    ensures
        text::views(r@).no_duplicates(),
        forall|d: Seq<char>|
            #[trigger] text::views(r@).contains(d) <==> has_digest(victim_views(victims@), d)
                && !text::views(still_used@).contains(d),
        forall|d: Seq<char>|
            #[trigger] text::views(r@).contains(d) <==> !text::views(still_used@).contains(d)
                && exists|i: int| 0 <= i < victims@.len() && (#[trigger] victims@[i]).digest@ == d,
{
    let ghost all = victim_views(victims@);
    let mut seen = text::set_of(still_used);
    let ghost used = seen@;
    let mut r: Vec<String> = Vec::new();
    let mut i: usize = 0;
    while i < victims.len()
        invariant
            i <= victims@.len(),
            all == victim_views(victims@),
            text::views(r@).no_duplicates(),
            forall|d: Seq<char>|
                #[trigger] seen@.contains(d) <==> used.contains(d) || text::views(r@).contains(d),
            forall|d: Seq<char>|
                #[trigger] text::views(r@).contains(d) <==> has_digest(all.take(i as int), d)
                    && !used.contains(d),
        decreases victims@.len() - i,
    {
        let v = &victims[i];
        let ghost before = text::views(r@);
        let ghost before_seen = seen@;
        if !seen.contains(v.digest.as_str()) {
            seen.insert(v.digest.clone());
            r.push(v.digest.clone());
            proof {
                assert(text::views(r@) =~= before.push(v.digest@));
                assert(!before.contains(v.digest@));
            }
        }
        proof {
            let next = all.take(i + 1);
            assert forall|d: Seq<char>| #[trigger] text::views(r@).contains(d) <==> has_digest(
                next,
                d,
            ) && !used.contains(d) by {
                text::contains_push(before, v.digest@, d);
                if has_digest(all.take(i as int), d) {
                    let x = choose|x: int|
                        0 <= x < i && (#[trigger] all.take(i as int)[x]).digest == d;
                    assert(next[x].digest == d);
                }
                if has_digest(next, d) {
                    let x = choose|x: int| 0 <= x < i + 1 && (#[trigger] next[x]).digest == d;
                    if x < i {
                        assert(all.take(i as int)[x].digest == d);
                    }
                }
                assert(next[i as int].digest == v.digest@);
                assert(before_seen.contains(d) <==> used.contains(d) || before.contains(d));
            }
            assert forall|d: Seq<char>| #[trigger] seen@.contains(d) <==> used.contains(d)
                || text::views(r@).contains(d) by {
                text::contains_push(before, v.digest@, d);
                assert(before_seen.contains(d) <==> used.contains(d) || before.contains(d));
            }
        }
        i += 1;
    }
    proof {
        assert(all.take(i as int) =~= all);
        assert forall|d: Seq<char>| #[trigger] text::views(r@).contains(d) <==> has_digest(all, d)
            && !text::views(still_used@).contains(d) by {
            assert(used.contains(d) == text::views(still_used@).contains(d));
        }
        assert forall|d: Seq<char>| #[trigger] has_digest(all, d) <==> exists|i: int|
            0 <= i < victims@.len() && (#[trigger] victims@[i]).digest@ == d by {
            assert(forall|i: int|
                0 <= i < victims@.len() ==> #[trigger] all[i] == victims@[i]@);
            if has_digest(all, d) {
                let i = choose|i: int| 0 <= i < all.len() && (#[trigger] all[i]).digest == d;
                assert(victims@[i].digest@ == d);
            }
            if exists|i: int| 0 <= i < victims@.len() && (#[trigger] victims@[i]).digest@ == d {
                let i = choose|i: int|
                    0 <= i < victims@.len() && (#[trigger] victims@[i]).digest@ == d;
                assert(all[i].digest == d);
            }
        }
    }
    r
}

// What marking promises.

/// Whatever is tagged or younger than the grace window stays, and so does whatever something
/// that stays keeps: the manifests of an index, and what refers to it.
pub proof fn roots_and_what_they_reach_stay(rows: Rows, now: i64, grace: i64, a: i64, b: i64)
    ensures
        rows.tagged@.contains(a) ==> stays(rows, now, grace, a),
        forall|i: int|
            0 <= i < rows.manifests@.len() && !aged(
                (#[trigger] rows.manifests@[i]).created_at,
                now,
                grace,
            ) ==> stays(rows, now, grace, rows.manifests@[i].id),
        stays(rows, now, grace, a) && keeps(rows, a, b) ==> stays(rows, now, grace, b),
{
    if rows.tagged@.contains(a) {
        assert(stays_within(rows, now, grace, a, 0));
    }
    assert forall|i: int|
        0 <= i < rows.manifests@.len() && !aged(
            (#[trigger] rows.manifests@[i]).created_at,
            now,
            grace,
        ) implies stays(rows, now, grace, rows.manifests@[i].id) by {
        assert(young_at(rows, now, grace, rows.manifests@[i].id, i));
        assert(stays_within(rows, now, grace, rows.manifests@[i].id, 0));
    }
    if stays(rows, now, grace, a) && keeps(rows, a, b) {
        keeping_stays(rows, now, grace, a, b);
    }
}

proof fn stays_within_is_least(
    rows: Rows,
    now: i64,
    grace: i64,
    some: Set<i64>,
    id: i64,
    n: nat,
)
    requires
        forall|a: i64| #[trigger] is_root(rows, now, grace, a) ==> some.contains(a),
        forall|a: i64, b: i64|
            #![trigger keeps(rows, a, b)]
            some.contains(a) && keeps(rows, a, b) ==> some.contains(b),
        stays_within(rows, now, grace, id, n),
    ensures
        some.contains(id),
    decreases n,
{
    if !is_root(rows, now, grace, id) {
        let a = choose|a: i64|
            #[trigger] keeps(rows, a, id) && stays_within(rows, now, grace, a, (n - 1) as nat);
        stays_within_is_least(rows, now, grace, some, a, (n - 1) as nat);
    }
}

/// Nothing else stays: any set of manifests that holds the tagged ones, the young ones and
/// whatever its members keep holds everything that stays.
pub proof fn nothing_else_stays(rows: Rows, now: i64, grace: i64, some: Set<i64>, id: i64)
    requires
        forall|a: i64| #[trigger] is_root(rows, now, grace, a) ==> some.contains(a),
        forall|a: i64, b: i64|
            #![trigger keeps(rows, a, b)]
            some.contains(a) && keeps(rows, a, b) ==> some.contains(b),
        stays(rows, now, grace, id),
    ensures
        some.contains(id),
{
    let n = choose|n: nat| stays_within(rows, now, grace, id, n);
    stays_within_is_least(rows, now, grace, some, id, n);
}

/// A signature stays as long as what it signs does: a manifest of the same repository whose
/// subject stays is no victim.
pub proof fn signatures_survive(rows: Rows, now: i64, grace: i64, i: int, a: i64)
    requires
        stays(rows, now, grace, a),
        referrer_at(rows, a, rows.manifests@[i].id, i),
    ensures
        !is_victim(rows, now, grace, i),
{
    assert(is_referrer(rows, a, rows.manifests@[i].id));
    keeping_stays(rows, now, grace, a, rows.manifests@[i].id);
}

/// The manifests of an index stay as long as the index does, also where it stays only because
/// it is young.
pub proof fn children_survive(rows: Rows, now: i64, grace: i64, i: int, a: i64)
    requires
        stays(rows, now, grace, a),
        is_child(rows, a, rows.manifests@[i].id),
    ensures
        !is_victim(rows, now, grace, i),
{
    keeping_stays(rows, now, grace, a, rows.manifests@[i].id);
}

/// Every victim is a manifest that nothing keeps and that is older than the grace window.
pub proof fn victims_are_old_and_unreachable(rows: Rows, now: i64, grace: i64, n: nat, k: int)
    requires
        n <= rows.manifests@.len(),
        0 <= k < victims_among(rows, now, grace, n).len(),
    ensures
        exists|i: int|
            0 <= i < n && #[trigger] is_victim(rows, now, grace, i) && rows.manifests@[i].id
                == victims_among(rows, now, grace, n)[k].id && rows.manifests@[i].digest@
                == victims_among(rows, now, grace, n)[k].digest && rows.manifests@[i].created_at
                <= now - grace && !rows.tagged@.contains(rows.manifests@[i].id),
    decreases n,
{
    let i = n - 1;
    let before = victims_among(rows, now, grace, i as nat);
    if k < before.len() {
        victims_are_old_and_unreachable(rows, now, grace, i as nat, k);
        let x = choose|x: int|
            0 <= x < i && #[trigger] is_victim(rows, now, grace, x) && rows.manifests@[x].id
                == before[k].id && rows.manifests@[x].digest@ == before[k].digest
                && rows.manifests@[x].created_at <= now - grace && !rows.tagged@.contains(
                rows.manifests@[x].id,
            );
        assert(is_victim(rows, now, grace, x));
    } else {
        assert(is_victim(rows, now, grace, i));
        roots_and_what_they_reach_stay(rows, now, grace, rows.manifests@[i].id, 0);
    }
}

/// Every blob that goes is older than the grace window, and no manifest that stays refers to
/// it.
pub proof fn blob_victims_are_old_and_unreferenced(
    rows: Rows,
    now: i64,
    grace: i64,
    n: nat,
    k: int,
)
    requires
        n <= rows.blobs@.len(),
        0 <= k < blob_victims_among(rows, now, grace, n).len(),
    ensures
        exists|i: int|
            0 <= i < n && (#[trigger] rows.blobs@[i]).digest@ == blob_victims_among(
                rows,
                now,
                grace,
                n,
            )[k].0 && rows.blobs@[i].created_at <= now - grace && !blob_live(
                rows,
                now,
                grace,
                rows.blobs@[i].digest@,
            ),
    decreases n,
{
    let before = blob_victims_among(rows, now, grace, (n - 1) as nat);
    if k < before.len() {
        blob_victims_are_old_and_unreferenced(rows, now, grace, (n - 1) as nat, k);
        let x = choose|x: int|
            0 <= x < n - 1 && (#[trigger] rows.blobs@[x]).digest@ == before[k].0
                && rows.blobs@[x].created_at <= now - grace && !blob_live(
                rows,
                now,
                grace,
                rows.blobs@[x].digest@,
            );
        assert(rows.blobs@[x].digest@ == before[k].0);
    } else {
        assert(rows.blobs@[n - 1].digest@ == blob_victims_among(rows, now, grace, n)[k].0);
    }
}

/// Every manifest that goes, and every blob that goes, is among what the rows account for, so
/// a sweep of the bucket never takes them for orphans.
pub proof fn rows_account_for_what_goes(rows: Rows, now: i64, grace: i64, i: int)
    ensures
        0 <= i < rows.manifests@.len() ==> manifest_digests(rows).contains(
            rows.manifests@[i].digest@,
        ),
        0 <= i < rows.blobs@.len() ==> accounted_blobs(rows, now, grace).contains(
            rows.blobs@[i].digest@,
        ),
        0 <= i < rows.refs@.len() && holds_blob(rows, now, grace, i) ==> accounted_blobs(
            rows,
            now,
            grace,
        ).contains(rows.refs@[i].child@),
{
}

proof fn repo_of_name(repos: Seq<(i64, String)>, id: i64)
    requires
        repo_name(repos, id) is Some,
    ensures
        exists|k: int|
            0 <= k < repos.len() && (#[trigger] repos[k]).0 == id && repo_name(repos, id) == Some(
                repos[k].1@,
            ),
    decreases repos.len(),
{
    if repos.last().0 == id {
        assert(repos[repos.len() - 1].0 == id);
    } else {
        let rest = repos.drop_last();
        repo_of_name(rest, id);
        let k = choose|k: int|
            0 <= k < rest.len() && (#[trigger] rest[k]).0 == id && repo_name(rest, id) == Some(
                rest[k].1@,
            );
        assert(repos[k] == rest[k]);
    }
}

proof fn removed_is_victim(
    rows: Rows,
    now: i64,
    grace: i64,
    n: nat,
    repo: Seq<char>,
    digest: Seq<char>,
)
    requires
        n <= rows.manifests@.len(),
        digests_in(victims_among(rows, now, grace, n), repo).contains(digest),
    ensures
        exists|i: int|
            0 <= i < n && #[trigger] is_victim(rows, now, grace, i) && rows.manifests@[i].digest@
                == digest && repo_name(rows.repos@, rows.manifests@[i].repo_id) == Some(repo),
    decreases n,
{
    if n > 0 {
        let i = n - 1;
        let before = victims_among(rows, now, grace, i as nat);
        let all = victims_among(rows, now, grace, n);
        if is_victim(rows, now, grace, i) {
            assert(all.drop_last() =~= before);
            if digests_in(before, repo).contains(digest) {
                removed_is_victim(rows, now, grace, i as nat, repo, digest);
                let x = choose|x: int|
                    0 <= x < i && #[trigger] is_victim(rows, now, grace, x)
                        && rows.manifests@[x].digest@ == digest && repo_name(
                        rows.repos@,
                        rows.manifests@[x].repo_id,
                    ) == Some(repo);
                assert(is_victim(rows, now, grace, x));
            } else {
                text::contains_push(digests_in(before, repo), all.last().digest, digest);
                assert(is_victim(rows, now, grace, i));
            }
        } else {
            removed_is_victim(rows, now, grace, i as nat, repo, digest);
            let x = choose|x: int|
                0 <= x < i && #[trigger] is_victim(rows, now, grace, x)
                    && rows.manifests@[x].digest@ == digest && repo_name(
                    rows.repos@,
                    rows.manifests@[x].repo_id,
                ) == Some(repo);
            assert(is_victim(rows, now, grace, x));
        }
    }
}

/// A collection is safe while pushes are in flight: whatever was marked, and whatever the index
/// has become by the time it is changed, nothing that is younger than the grace window leaves
/// it, nothing that is tagged, and nothing that an entry which remains lists.
pub proof fn collections_are_safe_while_pushes_are_in_flight(
    rows: Rows,
    now: i64,
    grace: i64,
    cutoff: i64,
    repo: Seq<char>,
    doc: truth::IndexView,
    at: i64,
    d: Seq<char>,
)
    requires
        forall|t: i64| t <= cutoff <==> #[trigger] aged(t, now, grace),
        doc.manifests.contains_key(d),
    ensures
        truth::changed(
            truth::MutationView::Collect {
                digests: digests_in(victims_among(rows, now, grace, rows.manifests@.len()), repo),
                cutoff,
            },
            doc,
            at,
        ) matches Ok((after, log)) && {
            &&& after.tags == doc.tags
            &&& !aged(doc.manifests[d].created_at, now, grace) || truth::is_tagged(doc, d) ==> {
                &&& after.manifests.contains_key(d)
                &&& after.manifests[d] == doc.manifests[d]
            }
            &&& forall|a: Seq<char>|
                #[trigger] after.manifests.contains_key(a)
                    && after.manifests[a].manifest_refs.contains(d)
                    ==> after.manifests.contains_key(d)
        },
{
    let digests = digests_in(victims_among(rows, now, grace, rows.manifests@.len()), repo);
    truth::a_collection_takes_only_what_nothing_keeps(doc, digests, cutoff, at, d);
    assert(aged(doc.manifests[d].created_at, now, grace) <==> doc.manifests[d].created_at
        <= cutoff);
}

/// By the rows that a collection read, too, it chooses no tagged manifest. Rows of one
/// repository have different digests, and repositories have different names.
pub proof fn collections_spare_tagged_manifests(
    rows: Rows,
    now: i64,
    grace: i64,
    i: int,
    repo: Seq<char>,
)
    requires
        forall|a: int, b: int|
            0 <= a < rows.repos@.len() && 0 <= b < rows.repos@.len() && (#[trigger] rows.repos@[a]).1@
                == (#[trigger] rows.repos@[b]).1@ ==> rows.repos@[a].0 == rows.repos@[b].0,
        forall|a: int, b: int|
            0 <= a < rows.manifests@.len() && 0 <= b < rows.manifests@.len()
                && (#[trigger] rows.manifests@[a]).repo_id == (#[trigger] rows.manifests@[b]).repo_id
                && rows.manifests@[a].digest@ == rows.manifests@[b].digest@ ==> a == b,
        0 <= i < rows.manifests@.len(),
        rows.tagged@.contains(rows.manifests@[i].id),
        repo_name(rows.repos@, rows.manifests@[i].repo_id) == Some(repo),
    ensures
        !digests_in(victims_among(rows, now, grace, rows.manifests@.len()), repo).contains(
            rows.manifests@[i].digest@,
        ),
{
    let m = rows.manifests@;
    let digest = m[i].digest@;
    if digests_in(victims_among(rows, now, grace, m.len()), repo).contains(digest) {
        removed_is_victim(rows, now, grace, m.len(), repo, digest);
        let x = choose|x: int|
            0 <= x < m.len() && #[trigger] is_victim(rows, now, grace, x) && m[x].digest@ == digest
                && repo_name(rows.repos@, m[x].repo_id) == Some(repo);
        repo_of_name(rows.repos@, m[x].repo_id);
        repo_of_name(rows.repos@, m[i].repo_id);
        assert(m[x].repo_id == m[i].repo_id);
        assert(x == i);
        roots_and_what_they_reach_stay(rows, now, grace, m[i].id, 0);
    }
}

// The same in terms of what the rows hold.

proof fn victims_are_rows(rows: Rows, now: i64, grace: i64, n: nat, k: int)
    requires
        n <= rows.manifests@.len(),
        0 <= k < victims_among(rows, now, grace, n).len(),
    ensures
        exists|i: int|
            0 <= i < n && #[trigger] is_victim(rows, now, grace, i) && rows.manifests@[i].id
                == victims_among(rows, now, grace, n)[k].id && rows.manifests@[i].digest@
                == victims_among(rows, now, grace, n)[k].digest && repo_name(
                rows.repos@,
                rows.manifests@[i].repo_id,
            ) == Some(victims_among(rows, now, grace, n)[k].repo),
    decreases n,
{
    let i = n - 1;
    let before = victims_among(rows, now, grace, i as nat);
    if k < before.len() {
        victims_are_rows(rows, now, grace, i as nat, k);
        let x = choose|x: int|
            0 <= x < i && #[trigger] is_victim(rows, now, grace, x) && rows.manifests@[x].id
                == before[k].id && rows.manifests@[x].digest@ == before[k].digest && repo_name(
                rows.repos@,
                rows.manifests@[x].repo_id,
            ) == Some(before[k].repo);
        assert(is_victim(rows, now, grace, x));
    } else {
        assert(is_victim(rows, now, grace, i));
    }
}

proof fn victims_are_listed(rows: Rows, now: i64, grace: i64, n: nat, i: int)
    requires
        i < n <= rows.manifests@.len(),
        is_victim(rows, now, grace, i),
    ensures
        exists|k: int|
            0 <= k < victims_among(rows, now, grace, n).len() && (#[trigger] victims_among(
                rows,
                now,
                grace,
                n,
            )[k]).id == rows.manifests@[i].id && victims_among(rows, now, grace, n)[k].digest
                == rows.manifests@[i].digest@ && repo_name(
                rows.repos@,
                rows.manifests@[i].repo_id,
            ) == Some(victims_among(rows, now, grace, n)[k].repo),
    decreases n,
{
    let before = victims_among(rows, now, grace, (n - 1) as nat);
    let all = victims_among(rows, now, grace, n);
    if i < n - 1 {
        victims_are_listed(rows, now, grace, (n - 1) as nat, i);
        let k = choose|k: int|
            0 <= k < before.len() && (#[trigger] before[k]).id == rows.manifests@[i].id
                && before[k].digest == rows.manifests@[i].digest@ && repo_name(
                rows.repos@,
                rows.manifests@[i].repo_id,
            ) == Some(before[k].repo);
        assert(all[k] == before[k]);
    } else {
        assert(all[all.len() - 1].id == rows.manifests@[i].id);
    }
}

proof fn what_stays_is_not_listed(rows: Rows, now: i64, grace: i64, id: i64)
    requires
        stays(rows, now, grace, id),
    ensures
        forall|k: int|
            0 <= k < victims_among(rows, now, grace, rows.manifests@.len()).len() ==> (
            #[trigger] victims_among(rows, now, grace, rows.manifests@.len())[k]).id != id,
{
    let n = rows.manifests@.len();
    let all = victims_among(rows, now, grace, n);
    assert forall|k: int| 0 <= k < all.len() implies (#[trigger] all[k]).id != id by {
        victims_are_rows(rows, now, grace, n, k);
    }
}

proof fn known_repos_have_names(repos: Seq<(i64, String)>, k: int)
    requires
        0 <= k < repos.len(),
    ensures
        repo_name(repos, repos[k].0) is Some,
    decreases repos.len(),
{
    if repos.last().0 != repos[k].0 {
        assert(repos.drop_last()[k] == repos[k]);
        known_repos_have_names(repos.drop_last(), k);
    }
}

proof fn what_is_not_listed_stays(rows: Rows, now: i64, grace: i64, p: int, r: int)
    requires
        0 <= p < rows.manifests@.len(),
        0 <= r < rows.repos@.len(),
        rows.repos@[r].0 == rows.manifests@[p].repo_id,
        forall|k: int|
            0 <= k < victims_among(rows, now, grace, rows.manifests@.len()).len() ==> (
            #[trigger] victims_among(rows, now, grace, rows.manifests@.len())[k]).id
                != rows.manifests@[p].id,
    ensures
        stays(rows, now, grace, rows.manifests@[p].id),
{
    known_repos_have_names(rows.repos@, r);
    if !stays(rows, now, grace, rows.manifests@[p].id) {
        assert(is_victim(rows, now, grace, p));
        victims_are_listed(rows, now, grace, rows.manifests@.len(), p);
    }
}

/// What refers to a manifest that stays, stays, whichever of the two is older: where the subject
/// of row `i` is the digest of row `p` of the same repository, and the manifest of row `p`
/// stays, the manifest of row `i` stays and is not among the victims.
pub proof fn what_refers_to_a_survivor_survives(rows: Rows, now: i64, grace: i64, i: int, p: int)
    requires
        0 <= i < rows.manifests@.len(),
        0 <= p < rows.manifests@.len(),
        rows.manifests@[i].repo_id == rows.manifests@[p].repo_id,
        rows.manifests@[i].subject matches Some(s) && s@ == rows.manifests@[p].digest@,
        forall|q: int|
            0 <= q < rows.manifests@.len() && (#[trigger] rows.manifests@[q]).id
                == rows.manifests@[p].id ==> q == p,
        stays(rows, now, grace, rows.manifests@[p].id),
    ensures
        stays(rows, now, grace, rows.manifests@[i].id),
        !is_victim(rows, now, grace, i),
        forall|k: int|
            0 <= k < victims_among(rows, now, grace, rows.manifests@.len()).len() ==> (
            #[trigger] victims_among(rows, now, grace, rows.manifests@.len())[k]).id
                != rows.manifests@[i].id,
{
    let m = rows.manifests@;
    row_of_bounds(m, m[p].id);
    assert(row_of(m, m[p].id) == p);
    assert(referrer_at(rows, m[p].id, m[i].id, i));
    keeping_stays(rows, now, grace, m[p].id, m[i].id);
    what_stays_is_not_listed(rows, now, grace, m[i].id);
}

/// No collection parts what it leaves from what refers to it: where the manifest of row `p`, of
/// a repository `r` that has a name, is not among the victims, nothing in that repository that
/// has it as its subject is.
pub proof fn referrers_go_no_sooner_than_their_subject(
    rows: Rows,
    now: i64,
    grace: i64,
    i: int,
    p: int,
    r: int,
)
    requires
        0 <= i < rows.manifests@.len(),
        0 <= p < rows.manifests@.len(),
        0 <= r < rows.repos@.len(),
        rows.repos@[r].0 == rows.manifests@[p].repo_id,
        rows.manifests@[i].repo_id == rows.manifests@[p].repo_id,
        rows.manifests@[i].subject matches Some(s) && s@ == rows.manifests@[p].digest@,
        forall|q: int|
            0 <= q < rows.manifests@.len() && (#[trigger] rows.manifests@[q]).id
                == rows.manifests@[p].id ==> q == p,
        forall|k: int|
            0 <= k < victims_among(rows, now, grace, rows.manifests@.len()).len() ==> (
            #[trigger] victims_among(rows, now, grace, rows.manifests@.len())[k]).id
                != rows.manifests@[p].id,
    ensures
        forall|k: int|
            0 <= k < victims_among(rows, now, grace, rows.manifests@.len()).len() ==> (
            #[trigger] victims_among(rows, now, grace, rows.manifests@.len())[k]).id
                != rows.manifests@[i].id,
{
    what_is_not_listed_stays(rows, now, grace, p, r);
    what_refers_to_a_survivor_survives(rows, now, grace, i, p);
}

/// No collection takes a manifest out of an index that it leaves: where the manifest of row `p`,
/// of a repository `r` that has a name, is not among the victims, and reference `k` of it names
/// the digest of row `c` of the same repository, the manifest of row `c` is not among them.
pub proof fn children_go_no_sooner_than_their_index(
    rows: Rows,
    now: i64,
    grace: i64,
    k: int,
    c: int,
    p: int,
    r: int,
)
    requires
        0 <= k < rows.refs@.len(),
        0 <= c < rows.manifests@.len(),
        0 <= p < rows.manifests@.len(),
        0 <= r < rows.repos@.len(),
        rows.repos@[r].0 == rows.manifests@[p].repo_id,
        rows.manifests@[c].repo_id == rows.manifests@[p].repo_id,
        rows.refs@[k].manifest_id == rows.manifests@[p].id,
        rows.refs@[k].kind@ == "manifest"@,
        rows.refs@[k].child@ == rows.manifests@[c].digest@,
        forall|q: int|
            0 <= q < rows.manifests@.len() && (#[trigger] rows.manifests@[q]).id
                == rows.manifests@[p].id ==> q == p,
        forall|q: int|
            0 <= q < rows.manifests@.len() && (#[trigger] rows.manifests@[q]).repo_id
                == rows.manifests@[c].repo_id && rows.manifests@[q].digest@
                == rows.manifests@[c].digest@ ==> q == c,
        forall|x: int|
            0 <= x < victims_among(rows, now, grace, rows.manifests@.len()).len() ==> (
            #[trigger] victims_among(rows, now, grace, rows.manifests@.len())[x]).id
                != rows.manifests@[p].id,
    ensures
        stays(rows, now, grace, rows.manifests@[c].id),
        forall|x: int|
            0 <= x < victims_among(rows, now, grace, rows.manifests@.len()).len() ==> (
            #[trigger] victims_among(rows, now, grace, rows.manifests@.len())[x]).id
                != rows.manifests@[c].id,
{
    let m = rows.manifests@;
    what_is_not_listed_stays(rows, now, grace, p, r);
    row_of_bounds(m, m[p].id);
    assert(row_of(m, m[p].id) == p);
    row_at_bounds(m, m[p].repo_id, m[c].digest@);
    rows_are_found_by_digest(m, c);
    assert(child_through(rows, m[p].id, m[c].id, k));
    keeping_stays(rows, now, grace, m[p].id, m[c].id);
    what_stays_is_not_listed(rows, now, grace, m[c].id);
}

proof fn rows_are_found_by_digest(rows: Seq<ManifestRow>, c: int)
    requires
        0 <= c < rows.len(),
    ensures
        row_at(rows, rows[c].repo_id, rows[c].digest@) >= c,
    decreases rows.len(),
{
    if c < rows.len() - 1 {
        assert(rows.drop_last()[c] == rows[c]);
        rows_are_found_by_digest(rows.drop_last(), c);
    }
}

/// What is tagged is not among the victims, and neither is what was created within the grace
/// window.
pub proof fn the_tagged_and_the_young_survive(rows: Rows, now: i64, grace: i64, i: int)
    requires
        0 <= i < rows.manifests@.len(),
        rows.tagged@.contains(rows.manifests@[i].id) || rows.manifests@[i].created_at > now - grace,
    ensures
        stays(rows, now, grace, rows.manifests@[i].id),
        forall|k: int|
            0 <= k < victims_among(rows, now, grace, rows.manifests@.len()).len() ==> (
            #[trigger] victims_among(rows, now, grace, rows.manifests@.len())[k]).id
                != rows.manifests@[i].id,
{
    roots_and_what_they_reach_stay(rows, now, grace, rows.manifests@[i].id, 0);
    what_stays_is_not_listed(rows, now, grace, rows.manifests@[i].id);
}

/// Everything else goes. Take any set of manifests that holds the tagged ones and those within
/// the grace window, and with each of its members what the member lists and what refers to it in
/// the same repository. A manifest outside the set, of a repository `r` that has a name, is
/// among the victims, under that repository's name and its own digest.
pub proof fn whatever_nothing_keeps_goes(
    rows: Rows,
    now: i64,
    grace: i64,
    some: Set<i64>,
    i: int,
    r: int,
)
    requires
        0 <= i < rows.manifests@.len(),
        0 <= r < rows.repos@.len(),
        rows.repos@[r].0 == rows.manifests@[i].repo_id,
        forall|q: int|
            0 <= q < rows.repos@.len() && (#[trigger] rows.repos@[q]).0
                == rows.manifests@[i].repo_id ==> q == r,
        !some.contains(rows.manifests@[i].id),
        forall|id: i64| #[trigger] rows.tagged@.contains(id) ==> some.contains(id),
        forall|q: int|
            0 <= q < rows.manifests@.len() && (#[trigger] rows.manifests@[q]).created_at > now
                - grace ==> some.contains(rows.manifests@[q].id),
        forall|p: int, q: int|
            0 <= p < rows.manifests@.len() && 0 <= q < rows.manifests@.len()
                && (#[trigger] rows.manifests@[p]).repo_id == (#[trigger] rows.manifests@[q]).repo_id
                && text::opt_view(rows.manifests@[q].subject) == Some(rows.manifests@[p].digest@)
                && some.contains(rows.manifests@[p].id) ==> some.contains(rows.manifests@[q].id),
        forall|p: int, q: int, k: int|
            0 <= p < rows.manifests@.len() && 0 <= q < rows.manifests@.len() && 0 <= k
                < rows.refs@.len() && (#[trigger] rows.manifests@[p]).repo_id
                == (#[trigger] rows.manifests@[q]).repo_id && (#[trigger] rows.refs@[k]).manifest_id
                == rows.manifests@[p].id && rows.refs@[k].kind@ == "manifest"@
                && rows.refs@[k].child@ == rows.manifests@[q].digest@ && some.contains(
                rows.manifests@[p].id,
            ) ==> some.contains(rows.manifests@[q].id),
    ensures
        exists|k: int|
            0 <= k < victims_among(rows, now, grace, rows.manifests@.len()).len() && (
            #[trigger] victims_among(rows, now, grace, rows.manifests@.len())[k]).id
                == rows.manifests@[i].id && victims_among(
                rows,
                now,
                grace,
                rows.manifests@.len(),
            )[k].digest == rows.manifests@[i].digest@ && victims_among(
                rows,
                now,
                grace,
                rows.manifests@.len(),
            )[k].repo == rows.repos@[r].1@,
{
    let m = rows.manifests@;
    assert forall|a: i64, b: i64|
        #![trigger keeps(rows, a, b)]
        some.contains(a) && keeps(rows, a, b) implies some.contains(b) by {
        row_of_bounds(m, a);
        let p = row_of(m, a);
        if is_child(rows, a, b) {
            let k = choose|k: int| #[trigger] child_through(rows, a, b, k);
            row_at_bounds(m, m[p].repo_id, rows.refs@[k].child@);
            let q = row_at(m, m[p].repo_id, rows.refs@[k].child@);
            assert(m[p].repo_id == m[q].repo_id);
            assert(rows.refs@[k].manifest_id == m[p].id);
        } else {
            let q = choose|q: int| #[trigger] referrer_at(rows, a, b, q);
            assert(m[p].repo_id == m[q].repo_id);
        }
    }
    assert forall|a: i64| #[trigger] is_root(rows, now, grace, a) implies some.contains(a) by {
        if !rows.tagged@.contains(a) {
            let q = choose|q: int| #[trigger] young_at(rows, now, grace, a, q);
            assert(m[q].created_at > now - grace);
        }
    }
    if stays(rows, now, grace, m[i].id) {
        nothing_else_stays(rows, now, grace, some, m[i].id);
    }
    known_repos_have_names(rows.repos@, r);
    repo_of_name(rows.repos@, m[i].repo_id);
    assert(is_victim(rows, now, grace, i));
    victims_are_listed(rows, now, grace, m.len(), i);
}

/// Every victim is a row: it has the row's id and digest, and a name of the row's repository.
pub proof fn victims_name_their_rows(rows: Rows, now: i64, grace: i64, k: int)
    requires
        0 <= k < victims_among(rows, now, grace, rows.manifests@.len()).len(),
    ensures
        exists|i: int, r: int|
            0 <= i < rows.manifests@.len() && 0 <= r < rows.repos@.len()
                && (#[trigger] rows.manifests@[i]).repo_id == (#[trigger] rows.repos@[r]).0
                && rows.manifests@[i].id == victims_among(
                rows,
                now,
                grace,
                rows.manifests@.len(),
            )[k].id && rows.manifests@[i].digest@ == victims_among(
                rows,
                now,
                grace,
                rows.manifests@.len(),
            )[k].digest && rows.repos@[r].1@ == victims_among(
                rows,
                now,
                grace,
                rows.manifests@.len(),
            )[k].repo,
{
    let m = rows.manifests@;
    let v = victims_among(rows, now, grace, m.len())[k];
    victims_are_rows(rows, now, grace, m.len(), k);
    let i = choose|i: int|
        0 <= i < m.len() && #[trigger] is_victim(rows, now, grace, i) && m[i].id == v.id
            && m[i].digest@ == v.digest && repo_name(rows.repos@, m[i].repo_id) == Some(v.repo);
    repo_of_name(rows.repos@, m[i].repo_id);
    let r = choose|r: int|
        0 <= r < rows.repos@.len() && (#[trigger] rows.repos@[r]).0 == m[i].repo_id && repo_name(
            rows.repos@,
            m[i].repo_id,
        ) == Some(rows.repos@[r].1@);
    assert(m[i].repo_id == rows.repos@[r].0);
}

/// Where ids occur once, no manifest is a victim twice.
pub proof fn nothing_goes_twice(rows: Rows, now: i64, grace: i64, n: nat)
    requires
        n <= rows.manifests@.len(),
        forall|p: int, q: int|
            0 <= p < q < rows.manifests@.len() ==> (#[trigger] rows.manifests@[p]).id != (
            #[trigger] rows.manifests@[q]).id,
    ensures
        forall|j: int, k: int|
            0 <= j < k < victims_among(rows, now, grace, n).len() ==> (#[trigger] victims_among(
                rows,
                now,
                grace,
                n,
            )[j]).id != (#[trigger] victims_among(rows, now, grace, n)[k]).id,
    decreases n,
{
    if n > 0 {
        let before = victims_among(rows, now, grace, (n - 1) as nat);
        let all = victims_among(rows, now, grace, n);
        nothing_goes_twice(rows, now, grace, (n - 1) as nat);
        assert forall|j: int, k: int| 0 <= j < k < all.len() implies (#[trigger] all[j]).id != (
        #[trigger] all[k]).id by {
            assert(all[j] == before[j]);
            if k < before.len() {
                assert(all[k] == before[k]);
            } else {
                victims_are_rows(rows, now, grace, (n - 1) as nat, j);
            }
        }
    }
}

proof fn blob_victims_are_rows(rows: Rows, now: i64, grace: i64, n: nat, b: (Seq<char>, i64))
    requires
        n <= rows.blobs@.len(),
    ensures
        blob_victims_among(rows, now, grace, n).contains(b) <==> exists|j: int|
            0 <= j < n && (#[trigger] rows.blobs@[j]).digest@ == b.0 && rows.blobs@[j].size == b.1
                && aged(rows.blobs@[j].created_at, now, grace) && !blob_live(rows, now, grace, b.0),
    decreases n,
{
    if n > 0 {
        let before = blob_victims_among(rows, now, grace, (n - 1) as nat);
        let last = rows.blobs@[n - 1];
        blob_victims_are_rows(rows, now, grace, (n - 1) as nat, b);
        text::contains_push(before, (last.digest@, last.size), b);
        if before.contains(b) {
            let j = choose|j: int|
                0 <= j < n - 1 && (#[trigger] rows.blobs@[j]).digest@ == b.0 && rows.blobs@[j].size
                    == b.1 && aged(rows.blobs@[j].created_at, now, grace) && !blob_live(
                    rows,
                    now,
                    grace,
                    b.0,
                );
            assert(rows.blobs@[j].digest@ == b.0);
        }
        assert(rows.blobs@[n - 1] == last);
    }
}

/// A blob goes, with the size that its row records, exactly where the row was created before the
/// grace window and every manifest that refers to it is among the victims.
pub proof fn blobs_go_with_the_last_manifest(
    rows: Rows,
    now: i64,
    grace: i64,
    digest: Seq<char>,
    size: i64,
)
    ensures
        blob_victims_among(rows, now, grace, rows.blobs@.len()).contains((digest, size)) <==> {
            &&& exists|j: int|
                0 <= j < rows.blobs@.len() && (#[trigger] rows.blobs@[j]).digest@ == digest
                    && rows.blobs@[j].size == size && rows.blobs@[j].created_at <= now - grace
            &&& forall|k: int|
                0 <= k < rows.refs@.len() && (#[trigger] rows.refs@[k]).kind@ == "blob"@
                    && rows.refs@[k].child@ == digest ==> exists|x: int|
                    0 <= x < victims_among(rows, now, grace, rows.manifests@.len()).len() && (
                    #[trigger] victims_among(rows, now, grace, rows.manifests@.len())[x]).id
                        == rows.refs@[k].manifest_id
        },
{
    let v = victims_among(rows, now, grace, rows.manifests@.len());
    blob_victims_are_rows(rows, now, grace, rows.blobs@.len(), (digest, size));
    live_means_a_manifest_is_left(rows, now, grace, digest);
}

proof fn live_means_a_manifest_is_left(rows: Rows, now: i64, grace: i64, digest: Seq<char>)
    ensures
        blob_live(rows, now, grace, digest) <==> exists|k: int|
            0 <= k < rows.refs@.len() && (#[trigger] rows.refs@[k]).kind@ == "blob"@
                && rows.refs@[k].child@ == digest && forall|x: int|
                0 <= x < victims_among(rows, now, grace, rows.manifests@.len()).len() ==> (
                #[trigger] victims_among(rows, now, grace, rows.manifests@.len())[x]).id
                    != rows.refs@[k].manifest_id,
{
    let n = rows.manifests@.len();
    let v = victims_among(rows, now, grace, n);
    assert forall|id: i64| #[trigger] victim_id(rows, now, grace, id) <==> exists|x: int|
        0 <= x < v.len() && (#[trigger] v[x]).id == id by {
        if victim_id(rows, now, grace, id) {
            let i = choose|i: int|
                #[trigger] is_victim(rows, now, grace, i) && rows.manifests@[i].id == id;
            victims_are_listed(rows, now, grace, n, i);
        }
        if exists|x: int| 0 <= x < v.len() && (#[trigger] v[x]).id == id {
            let x = choose|x: int| 0 <= x < v.len() && (#[trigger] v[x]).id == id;
            victims_are_rows(rows, now, grace, n, x);
        }
    }
    if blob_live(rows, now, grace, digest) {
        let k = choose|k: int|
            #[trigger] holds_blob(rows, now, grace, k) && rows.refs@[k].child@ == digest;
        assert(!victim_id(rows, now, grace, rows.refs@[k].manifest_id));
        assert(rows.refs@[k].kind@ == "blob"@);
    }
    if exists|k: int|
        0 <= k < rows.refs@.len() && (#[trigger] rows.refs@[k]).kind@ == "blob"@
            && rows.refs@[k].child@ == digest && forall|x: int|
            0 <= x < v.len() ==> (#[trigger] v[x]).id != rows.refs@[k].manifest_id {
        let k = choose|k: int|
            0 <= k < rows.refs@.len() && (#[trigger] rows.refs@[k]).kind@ == "blob"@
                && rows.refs@[k].child@ == digest && forall|x: int|
                0 <= x < v.len() ==> (#[trigger] v[x]).id != rows.refs@[k].manifest_id;
        assert(!victim_id(rows, now, grace, rows.refs@[k].manifest_id));
        assert(holds_blob(rows, now, grace, k));
    }
}

/// What a sweep of the bucket takes for accounted: the digests of all manifest rows, and those
/// of all blob rows and of the blobs that a manifest which does not go refers to.
pub proof fn what_the_rows_account_for(rows: Rows, now: i64, grace: i64, digest: Seq<char>)
    ensures
        manifest_digests(rows).contains(digest) <==> exists|i: int|
            0 <= i < rows.manifests@.len() && (#[trigger] rows.manifests@[i]).digest@ == digest,
        accounted_blobs(rows, now, grace).contains(digest) <==> {
            ||| exists|j: int|
                0 <= j < rows.blobs@.len() && (#[trigger] rows.blobs@[j]).digest@ == digest
            ||| exists|k: int|
                0 <= k < rows.refs@.len() && (#[trigger] rows.refs@[k]).kind@ == "blob"@
                    && rows.refs@[k].child@ == digest && forall|x: int|
                    0 <= x < victims_among(rows, now, grace, rows.manifests@.len()).len() ==> (
                    #[trigger] victims_among(rows, now, grace, rows.manifests@.len())[x]).id
                        != rows.refs@[k].manifest_id
        },
{
    live_means_a_manifest_is_left(rows, now, grace, digest);
}

proof fn total_of_parts(a: Seq<(Seq<char>, i64)>, b: Seq<(Seq<char>, i64)>)
    ensures
        total(a + b) == total(a) + total(b),
    decreases b.len(),
{
    if b.len() == 0 {
        assert(a + b =~= a);
    } else {
        assert((a + b).drop_last() =~= a + b.drop_last());
        total_of_parts(a, b.drop_last());
    }
}

/// The bytes that a report counts are those of each blob that goes, once: nothing for no blobs,
/// a blob's size for that blob alone, and for two lists what the two have together.
pub proof fn freed_bytes_add_up(
    a: Seq<(Seq<char>, i64)>,
    b: Seq<(Seq<char>, i64)>,
    blob: (Seq<char>, i64),
)
    ensures
        total(Seq::empty()) == 0,
        total(seq![blob]) == blob.1,
        total(a + b) == total(a) + total(b),
{
    total_of_parts(a, b);
    assert(seq![blob].drop_last() =~= Seq::empty());
    reveal_with_fuel(total, 2);
}

/// What is taken out of a repository's index are the digests of the victims in that repository,
/// each of them and no others.
pub proof fn removals_are_the_victims_of_the_repository(
    victims: Seq<VictimView>,
    repo: Seq<char>,
    digest: Seq<char>,
)
    ensures
        digests_in(victims, repo).contains(digest) <==> exists|k: int|
            0 <= k < victims.len() && (#[trigger] victims[k]).repo == repo && victims[k].digest
                == digest,
        (digests_in(victims, repo).len() == 0) <==> forall|k: int|
            0 <= k < victims.len() ==> (#[trigger] victims[k]).repo != repo,
    decreases victims.len(),
{
    if victims.len() > 0 {
        let rest = victims.drop_last();
        let before = digests_in(rest, repo);
        removals_are_the_victims_of_the_repository(rest, repo, digest);
        text::contains_push(before, victims.last().digest, digest);
        assert(forall|k: int| 0 <= k < rest.len() ==> victims[k] == rest[k]);
        if before.contains(digest) {
            let k = choose|k: int|
                0 <= k < rest.len() && (#[trigger] rest[k]).repo == repo && rest[k].digest
                    == digest;
            assert(victims[k].repo == repo);
        }
        if before.len() > 0 {
            let k = choose|k: int| 0 <= k < rest.len() && (#[trigger] rest[k]).repo == repo;
            assert(victims[k].repo == repo);
        }
        assert(victims[victims.len() - 1] == victims.last());
    }
}

} // verus!
