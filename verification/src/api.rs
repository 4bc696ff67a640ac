//! What the dashboard is told.

use crate::auth;
use crate::auth::{authorize, Action, Identity, Role};
use crate::config;
use crate::config::{is_on, Config};
use crate::db::{BlobRow, RefRow};
use crate::oci;
use crate::oci::errors::Reply;
use crate::oci::lookup;
use crate::order::sorted;
use crate::table;
use crate::table::Table;
use crate::text;
use std::collections::HashMap;
use vstd::hash_map::StringHashMap;
use vstd::prelude::*;
use vstd::string::*;

verus! {

broadcast use vstd::std_specs::hash::group_hash_axioms;

/// What a dashboard can ask for.
#[derive(Debug, Clone, Copy, PartialEq, Eq)]
pub enum Endpoint {
    Whoami,
    Stats,
    Repos,
    Tags,
    Gc,
    Retention,
}

/// What an endpoint asks the caller to be allowed to do; anybody may ask who they are.
pub open spec fn endpoint_action(e: Endpoint) -> Option<Action> {
    match e {
        Endpoint::Whoami => None,
        Endpoint::Stats => Some(Action::Pull),
        Endpoint::Repos => Some(Action::Pull),
        Endpoint::Tags => Some(Action::Pull),
        Endpoint::Gc => Some(Action::Admin),
        Endpoint::Retention => Some(Action::Admin),
    }
}

/// Whether a caller may ask for something.
pub fn check(cfg: &Config, id: &Identity, e: Endpoint) -> (r: Result<(), Reply>)
    ensures
        match (r, endpoint_action(e)) {
            (Ok(_), None) => true,
            (Ok(_), Some(a)) => auth::denied(*cfg, *id, a) is None,
            (Err(reply), Some(a)) => auth::denied(*cfg, *id, a) == Some(reply@),
            (Err(_), None) => false,
        },
        r is Ok <==> match e {
            Endpoint::Whoami => true,
            Endpoint::Stats | Endpoint::Repos | Endpoint::Tags => cfg.public_pull || id.role
                == Role::Pull || id.role == Role::Push || id.role == Role::Admin,
            Endpoint::Gc | Endpoint::Retention => id.role == Role::Admin,
        },
        r matches Err(reply) ==> reply@.status == if id.username is None {
            401u16
        } else {
            403u16
        },
{
    proof {
        auth::each_role_may_do_its_share(*cfg, *id);
        auth::refusals_tell_who_is_known(*cfg, *id, Action::Pull);
        auth::refusals_tell_who_is_known(*cfg, *id, Action::Admin);
    }
    match e {
        Endpoint::Whoami => Ok(()),
        Endpoint::Stats => authorize(cfg, id, Action::Pull),
        Endpoint::Repos => authorize(cfg, id, Action::Pull),
        Endpoint::Tags => authorize(cfg, id, Action::Pull),
        Endpoint::Gc => authorize(cfg, id, Action::Admin),
        Endpoint::Retention => authorize(cfg, id, Action::Admin),
    }
}

/// The name of a role.
pub open spec fn role_name(role: Role) -> Seq<char> {
    match role {
        Role::Admin => "admin"@,
        Role::Push => "push"@,
        Role::Pull => "pull"@,
        Role::Anonymous => "anonymous"@,
    }
}

/// Who the caller is.
pub fn whoami(id: &Identity) -> (r: (Option<String>, &'static str))
    ensures
        text::opt_view(r.0) == text::opt_view(id.username),
        r.1@ == role_name(id.role),
        r.1@ == match id.role {
            Role::Admin => "admin"@,
            Role::Push => "push"@,
            Role::Pull => "pull"@,
            Role::Anonymous => "anonymous"@,
        },
{
    let role = match id.role {
        Role::Admin => "admin",
        Role::Push => "push",
        Role::Pull => "pull",
        Role::Anonymous => "anonymous",
    };
    (text::clone_opt(&id.username), role)
}

/// What the registry holds.
#[derive(Debug)]
pub struct Stats {
    pub repos: i64,
    pub tags: i64,
    pub manifests: i64,
    pub blobs: i64,
    pub storage_bytes: i64,
    pub mode: &'static str,
}

/// Sums up what the registry holds: `storage` is the size of all blobs, where there are any.
pub fn stats(
    repos: i64,
    tags: i64,
    manifests: i64,
    blobs: i64,
    storage: Option<i64>,
    object_mode: bool,
) -> (s: Stats)
    ensures
        s.repos == repos,
        s.tags == tags,
        s.manifests == manifests,
        s.blobs == blobs,
        s.storage_bytes == match storage {
            Some(n) => n,
            None => 0,
        },
        s.mode@ == if object_mode {
            "object"@
        } else {
            "local"@
        },
{
    Stats {
        repos,
        tags,
        manifests,
        blobs,
        storage_bytes: match storage {
            Some(n) => n,
            None => 0,
        },
        mode: if object_mode {
            "object"
        } else {
            "local"
        },
    }
}

/// The size of each blob that has a row.
pub open spec fn sizes_of(rows: Seq<BlobRow>) -> Map<Seq<char>, i64>
    decreases rows.len(),
{
    if rows.len() == 0 {
        Map::empty()
    } else {
        sizes_of(rows.drop_last()).insert(rows.last().digest@, rows.last().size)
    }
}

/// Looks sizes up by digest.
pub fn size_table(rows: &Vec<BlobRow>) -> (t: StringHashMap<i64>)
    ensures
        t@ == sizes_of(rows@),
{
    let mut t: StringHashMap<i64> = StringHashMap::new();
    let mut i: usize = 0;
    while i < rows.len()
        invariant
            i <= rows@.len(),
            t@ == sizes_of(rows@.take(i as int)),
        decreases rows@.len() - i,
    {
        proof {
            assert(rows@.take(i + 1).drop_last() =~= rows@.take(i as int));
        }
        t.insert(rows[i].digest.clone(), rows[i].size);
        i += 1;
    }
    proof {
        assert(rows@.take(i as int) =~= rows@);
    }
    t
}

/// The size of some blobs; one without a row counts for nothing.
pub open spec fn size_sum(list: Seq<Seq<char>>, sizes: Map<Seq<char>, i64>) -> int
    decreases list.len(),
{
    if list.len() == 0 {
        0
    } else {
        size_sum(list.drop_last(), sizes) + if sizes.contains_key(list.last()) {
            sizes[list.last()] as int
        } else {
            0
        }
    }
}

/// `n` is the size of the blobs in `digests`, each counted once.
pub open spec fn is_size(n: int, digests: Set<Seq<char>>, sizes: Map<Seq<char>, i64>) -> bool {
    exists|u: Seq<Seq<char>>|
        #[trigger] table::ascending(u) && u.to_set() == digests && n == size_sum(u, sizes)
}

fn distinct_size(digests: &Vec<String>, sizes: &StringHashMap<i64>) -> (n: i128)
    ensures
        is_size(n as int, text::views(digests@).to_set(), sizes@),
        n >= -0x7fff_ffff_ffff_ffff_8000_0000_0000_0000,
        n <= 0x7fff_ffff_ffff_fffe_8000_0000_0000_0001,
{
    let list = sorted(digests);
    let ghost all = text::views(list@);
    let len = list.len();
    let mut n: i128 = 0;
    let mut i: usize = 0;
    while i < len
        invariant
            i <= len,
            len == list@.len(),
            all == text::views(list@),
            n == size_sum(all.take(i as int), sizes@),
            i * i64::MIN <= n <= i * i64::MAX,
        decreases len - i,
    {
        proof {
            assert(all.take(i + 1).drop_last() =~= all.take(i as int));
            assert(all.take(i + 1).last() == all[i as int]);
            assert(i * i64::MIN >= 0xffff_ffff_ffff_ffff * i64::MIN && i * i64::MAX
                <= 0xffff_ffff_ffff_ffff * i64::MAX) by (nonlinear_arith)
                requires
                    0 <= i <= 0xffff_ffff_ffff_ffff,
            ;
            assert((i + 1) * i64::MIN == i * i64::MIN + i64::MIN && (i + 1) * i64::MAX == i
                * i64::MAX + i64::MAX) by (nonlinear_arith);
        }
        if let Some(size) = sizes.get(list[i].as_str()) {
            n = n + *size as i128;
        } else {
            proof {
                assert(i * i64::MIN + i64::MIN <= n <= i * i64::MAX + i64::MAX);
            }
        }
        i += 1;
    }
    proof {
        assert(all.take(i as int) =~= all);
        assert(i * i64::MIN >= 0xffff_ffff_ffff_ffff * i64::MIN && i * i64::MAX
            <= 0xffff_ffff_ffff_ffff * i64::MAX) by (nonlinear_arith)
            requires
                0 <= i <= 0xffff_ffff_ffff_ffff,
        ;
    }
    n
}

/// What is read of a repository: its name, when its tags were pushed, and the blobs that its
/// manifests refer to.
#[derive(Debug)]
pub struct RepoRow {
    pub name: String,
    pub pushed: Vec<i64>,
    pub blobs: Vec<String>,
}

/// What a dashboard shows of a repository.
#[derive(Debug)]
pub struct RepoSummary {
    pub tags: usize,
    pub size_bytes: i64,
    pub last_pushed: Option<i64>,
}

/// The latest of some times.
pub open spec fn latest(times: Seq<i64>) -> Option<i64>
    decreases times.len(),
{
    if times.len() == 0 {
        None
    } else {
        match latest(times.drop_last()) {
            Some(t) => Some(
                if t > times.last() {
                    t
                } else {
                    times.last()
                },
            ),
            None => Some(times.last()),
        }
    }
}

fn latest_of(times: &Vec<i64>) -> (r: Option<i64>)
    ensures
        r == latest(times@),
{
    let mut r: Option<i64> = None;
    let mut i: usize = 0;
    while i < times.len()
        invariant
            i <= times@.len(),
            r == latest(times@.take(i as int)),
        decreases times@.len() - i,
    {
        proof {
            assert(times@.take(i + 1).drop_last() =~= times@.take(i as int));
        }
        r = match r {
            Some(t) => {
                if t > times[i] {
                    Some(t)
                } else {
                    Some(times[i])
                }
            },
            None => Some(times[i]),
        };
        i += 1;
    }
    proof {
        assert(times@.take(i as int) =~= times@);
    }
    r
}

/// `s` sums a repository up.
pub open spec fn sums_up(s: RepoSummary, row: RepoRow, sizes: Map<Seq<char>, i64>) -> bool {
    &&& s.tags == row.pushed@.len()
    &&& s.last_pushed == latest(row.pushed@)
    &&& is_size(s.size_bytes as int, text::views(row.blobs@).to_set(), sizes)
}

/// The last of the rows with that name.
pub open spec fn last_named(rows: Seq<RepoRow>, name: Seq<char>) -> int
    decreases rows.len(),
{
    if rows.len() == 0 {
        -1
    } else if rows.last().name@ == name {
        rows.len() - 1
    } else {
        last_named(rows.drop_last(), name)
    }
}

/// The size of some repository is too large to be told.
pub open spec fn oversized(rows: Seq<RepoRow>, sizes: Map<Seq<char>, i64>, i: int) -> bool {
    exists|n: int|
        #[trigger] is_size(n, text::views(rows[i].blobs@).to_set(), sizes) && !(i64::MIN <= n
            <= i64::MAX)
}

/// Sums every repository up, in the order of their names; nothing where a size does not fit.
pub fn repos(rows: &Vec<RepoRow>, sizes: &StringHashMap<i64>) -> (r: Option<Table<RepoSummary>>)
    ensures
        match r {
            Some(t) => {
                &&& forall|name: Seq<char>|
                    #[trigger] t@.contains_key(name) <==> last_named(rows@, name) >= 0
                &&& forall|name: Seq<char>|
                    #[trigger] t@.contains_key(name) ==> sums_up(
                        t@[name],
                        rows@[last_named(rows@, name)],
                        sizes@,
                    )
            },
            None => exists|i: int| 0 <= i < rows@.len() && #[trigger] oversized(rows@, sizes@, i),
        },
{
    let mut t: Table<RepoSummary> = Table::new();
    let mut i: usize = 0;
    while i < rows.len()
        invariant
            i <= rows@.len(),
            forall|name: Seq<char>|
                #[trigger] t@.contains_key(name) <==> last_named(rows@.take(i as int), name) >= 0,
            forall|name: Seq<char>|
                #[trigger] t@.contains_key(name) ==> last_named(rows@.take(i as int), name) < i
                    && sums_up(
                    t@[name],
                    rows@[last_named(rows@.take(i as int), name)],
                    sizes@,
                ),
        decreases rows@.len() - i,
    {
        let row = &rows[i];
        let ghost before = t@;
        let n = distinct_size(&row.blobs, sizes);
        if n < i64::MIN as i128 || n > i64::MAX as i128 {
            proof {
                assert(is_size(n as int, text::views(row.blobs@).to_set(), sizes@));
                assert(oversized(rows@, sizes@, i as int));
            }
            return None;
        }
        let s = RepoSummary {
            tags: row.pushed.len(),
            size_bytes: n as i64,
            last_pushed: latest_of(&row.pushed),
        };
        t.insert(row.name.clone(), s);
        proof {
            let done = rows@.take(i as int);
            let next = rows@.take(i + 1);
            assert(next.drop_last() =~= done);
            assert(next.last() == *row);
            assert forall|name: Seq<char>| #[trigger] t@.contains_key(name) <==> last_named(
                next,
                name,
            ) >= 0 by {
                assert(before.contains_key(name) <==> last_named(done, name) >= 0);
            }
            assert forall|name: Seq<char>| #[trigger] t@.contains_key(name) implies last_named(
                next,
                name,
            ) < i + 1 && sums_up(t@[name], rows@[last_named(next, name)], sizes@) by {
                if name != row.name@ {
                    assert(before.contains_key(name));
                }
            }
        }
        i += 1;
    }
    proof {
        assert(rows@.take(i as int) =~= rows@);
    }
    Some(t)
}

/// A tag of a repository: its name, the row of its manifest and the time of its push.
#[derive(Debug)]
pub struct TagRow {
    pub name: String,
    pub manifest_id: i64,
    pub pushed_at: i64,
}

/// A manifest of a repository.
#[derive(Debug)]
pub struct ManifestInfo {
    pub id: i64,
    pub digest: String,
    pub media_type: String,
    pub size: i64,
}

/// What a dashboard shows of a tag.
#[derive(Debug)]
pub struct TagInfo {
    pub name: String,
    pub digest: String,
    pub media_type: String,
    pub size: i64,
    pub pushed_at: i64,
    pub is_index: bool,
}

/// The position of the manifest with that id, or `-1`; the last one counts.
pub open spec fn with_id(ms: Seq<ManifestInfo>, id: i64) -> int
    decreases ms.len(),
{
    if ms.len() == 0 {
        -1
    } else if ms.last().id == id {
        ms.len() - 1
    } else {
        with_id(ms.drop_last(), id)
    }
}

/// The position of the manifest with that digest, or `-1`; the last one counts.
pub open spec fn with_digest(ms: Seq<ManifestInfo>, digest: Seq<char>) -> int
    decreases ms.len(),
{
    if ms.len() == 0 {
        -1
    } else if ms.last().digest@ == digest {
        ms.len() - 1
    } else {
        with_digest(ms.drop_last(), digest)
    }
}

/// What a manifest refers to, of one kind, in order.
pub open spec fn children_of(refs: Seq<RefRow>, id: i64, kind: Seq<char>) -> Seq<Seq<char>>
    decreases refs.len(),
{
    if refs.len() == 0 {
        Seq::empty()
    } else {
        let before = children_of(refs.drop_last(), id, kind);
        if refs.last().manifest_id == id && refs.last().kind@ == kind {
            before.push(refs.last().child@)
        } else {
            before
        }
    }
}

/// The blobs of those manifests among `children` that are there.
pub open spec fn blobs_below(
    ms: Seq<ManifestInfo>,
    refs: Seq<RefRow>,
    children: Seq<Seq<char>>,
) -> Seq<Seq<char>>
    decreases children.len(),
{
    if children.len() == 0 {
        Seq::empty()
    } else {
        let before = blobs_below(ms, refs, children.drop_last());
        let p = with_digest(ms, children.last());
        if p >= 0 {
            before + children_of(refs, ms[p].id, "blob"@)
        } else {
            before
        }
    }
}

/// The blobs of a manifest, and one level down those of the manifests that it is an index of.
pub open spec fn blobs_reached(ms: Seq<ManifestInfo>, refs: Seq<RefRow>, id: i64) -> Seq<Seq<char>> {
    children_of(refs, id, "blob"@) + blobs_below(ms, refs, children_of(refs, id, "manifest"@))
}

/// `info` says what a dashboard shows of a tag: with the size of its manifest and of the blobs
/// that it reaches, each counted once.
pub open spec fn shows(
    info: TagInfo,
    tag: TagRow,
    ms: Seq<ManifestInfo>,
    refs: Seq<RefRow>,
    sizes: Map<Seq<char>, i64>,
) -> bool {
    let p = with_id(ms, tag.manifest_id);
    &&& p >= 0
    &&& info.name@ == tag.name@
    &&& info.digest@ == ms[p].digest@
    &&& info.media_type@ == ms[p].media_type@
    &&& info.pushed_at == tag.pushed_at
    &&& info.is_index == (children_of(refs, tag.manifest_id, "manifest"@).len() > 0)
    &&& is_size(
        info.size - ms[p].size,
        blobs_reached(ms, refs, tag.manifest_id).to_set(),
        sizes,
    )
}

/// A tag cannot be shown: its manifest is not there, or its size does not fit.
pub open spec fn unshowable(
    tag: TagRow,
    ms: Seq<ManifestInfo>,
    refs: Seq<RefRow>,
    sizes: Map<Seq<char>, i64>,
) -> bool {
    let p = with_id(ms, tag.manifest_id);
    p < 0 || exists|n: int|
        #[trigger] is_size(n, blobs_reached(ms, refs, tag.manifest_id).to_set(), sizes) && !(
        i64::MIN <= n + ms[p].size <= i64::MAX)
}

/// What a manifest refers to.
struct Children {
    blobs: Vec<String>,
    manifests: Vec<String>,
}

spec fn children_indexed(m: Map<i64, Children>, refs: Seq<RefRow>) -> bool {
    forall|id: i64|
        #![trigger m.contains_key(id)]
        if m.contains_key(id) {
            &&& text::views(m[id].blobs@) == children_of(refs, id, "blob"@)
            &&& text::views(m[id].manifests@) == children_of(refs, id, "manifest"@)
        } else {
            &&& children_of(refs, id, "blob"@).len() == 0
            &&& children_of(refs, id, "manifest"@).len() == 0
        }
}

fn index_children(refs: &Vec<RefRow>) -> (m: HashMap<i64, Children>)
    ensures
        children_indexed(m@, refs@),
{
    let mut m: HashMap<i64, Children> = HashMap::new();
    let mut i: usize = 0;
    while i < refs.len()
        invariant
            i <= refs@.len(),
            children_indexed(m@, refs@.take(i as int)),
        decreases refs@.len() - i,
    {
        let r = &refs[i];
        let ghost before = m@;
        let ghost done = refs@.take(i as int);
        let ghost next = refs@.take(i + 1);
        proof {
            assert(next.drop_last() =~= done);
            assert(next.last() == *r);
            assert(before.contains_key(r.manifest_id) || !before.contains_key(r.manifest_id));
        }
        let mut c = match m.remove(&r.manifest_id) {
            Some(c) => c,
            None => Children { blobs: Vec::new(), manifests: Vec::new() },
        };
        let ghost b0 = text::views(c.blobs@);
        let ghost m0 = text::views(c.manifests@);
        proof {
            assert(b0 =~= children_of(done, r.manifest_id, "blob"@));
            assert(m0 =~= children_of(done, r.manifest_id, "manifest"@));
        }
        if text::same(r.kind.as_str(), "blob") {
            c.blobs.push(r.child.clone());
            proof {
                assert(text::views(c.blobs@) =~= b0.push(r.child@));
            }
        }
        if text::same(r.kind.as_str(), "manifest") {
            c.manifests.push(r.child.clone());
            proof {
                assert(text::views(c.manifests@) =~= m0.push(r.child@));
            }
        }
        m.insert(r.manifest_id, c);
        proof {
            assert forall|id: i64|
                #![trigger m@.contains_key(id)]
                if m@.contains_key(id) {
                    &&& text::views(m@[id].blobs@) == children_of(next, id, "blob"@)
                    &&& text::views(m@[id].manifests@) == children_of(next, id, "manifest"@)
                } else {
                    &&& children_of(next, id, "blob"@).len() == 0
                    &&& children_of(next, id, "manifest"@).len() == 0
                } by {
                assert(before.contains_key(id) || !before.contains_key(id));
            }
        }
        i += 1;
    }
    proof {
        assert(refs@.take(i as int) =~= refs@);
    }
    m
}

fn index_ids(ms: &Vec<ManifestInfo>) -> (m: HashMap<i64, usize>)
    ensures
        forall|id: i64|
            #[trigger] m@.contains_key(id) <==> with_id(ms@, id) >= 0,
        forall|id: i64|
            #[trigger] m@.contains_key(id) ==> m@[id] == with_id(ms@, id) && m@[id] < ms@.len(),
{
    let mut m: HashMap<i64, usize> = HashMap::new();
    let mut i: usize = 0;
    while i < ms.len()
        invariant
            i <= ms@.len(),
            forall|id: i64|
                #[trigger] m@.contains_key(id) <==> with_id(ms@.take(i as int), id) >= 0,
            forall|id: i64|
                #[trigger] m@.contains_key(id) ==> m@[id] == with_id(ms@.take(i as int), id)
                    && m@[id] < i,
        decreases ms@.len() - i,
    {
        let ghost before = m@;
        m.insert(ms[i].id, i);
        proof {
            let next = ms@.take(i + 1);
            assert(next.drop_last() =~= ms@.take(i as int));
            assert(next.last() == ms@[i as int]);
            assert forall|id: i64| #[trigger] m@.contains_key(id) <==> with_id(next, id) >= 0 by {
                assert(before.contains_key(id) <==> with_id(ms@.take(i as int), id) >= 0);
            }
            assert forall|id: i64| #[trigger] m@.contains_key(id) implies m@[id] == with_id(next, id)
                && m@[id] < i + 1 by {
                if id != ms@[i as int].id {
                    assert(before.contains_key(id));
                }
            }
        }
        i += 1;
    }
    proof {
        assert(ms@.take(i as int) =~= ms@);
    }
    m
}

fn index_digests(ms: &Vec<ManifestInfo>) -> (m: StringHashMap<usize>)
    ensures
        forall|d: Seq<char>|
            #[trigger] m@.contains_key(d) <==> with_digest(ms@, d) >= 0,
        forall|d: Seq<char>|
            #[trigger] m@.contains_key(d) ==> m@[d] == with_digest(ms@, d) && m@[d] < ms@.len(),
{
    let mut m: StringHashMap<usize> = StringHashMap::new();
    let mut i: usize = 0;
    while i < ms.len()
        invariant
            i <= ms@.len(),
            forall|d: Seq<char>|
                #[trigger] m@.contains_key(d) <==> with_digest(ms@.take(i as int), d) >= 0,
            forall|d: Seq<char>|
                #[trigger] m@.contains_key(d) ==> m@[d] == with_digest(ms@.take(i as int), d)
                    && m@[d] < i,
        decreases ms@.len() - i,
    {
        let ghost before = m@;
        m.insert(ms[i].digest.clone(), i);
        proof {
            let next = ms@.take(i + 1);
            assert(next.drop_last() =~= ms@.take(i as int));
            assert(next.last() == ms@[i as int]);
            assert forall|d: Seq<char>| #[trigger] m@.contains_key(d) <==> with_digest(next, d)
                >= 0 by {
                assert(before.contains_key(d) <==> with_digest(ms@.take(i as int), d) >= 0);
            }
            assert forall|d: Seq<char>| #[trigger] m@.contains_key(d) implies m@[d] == with_digest(
                next,
                d,
            ) && m@[d] < i + 1 by {
                if d != ms@[i as int].digest@ {
                    assert(before.contains_key(d));
                }
            }
        }
        i += 1;
    }
    proof {
        assert(ms@.take(i as int) =~= ms@);
    }
    m
}

fn add_blobs(
    out: &mut Vec<String>,
    children: &HashMap<i64, Children>,
    id: i64,
    Ghost(refs): Ghost<Seq<RefRow>>,
)
    requires
        children_indexed(children@, refs),
    ensures
        text::views(final(out)@) == text::views(old(out)@) + children_of(refs, id, "blob"@),
{
    let ghost start = text::views(out@);
    proof {
        assert(children@.contains_key(id) || !children@.contains_key(id));
    }
    match children.get(&id) {
        Some(c) => {
            let mut more = text::clone_list(&c.blobs);
            let ghost b = text::views(more@);
            out.append(&mut more);
            proof {
                assert(text::views(out@) =~= start + b);
            }
        },
        None => {
            proof {
                assert(text::views(out@) =~= start + children_of(refs, id, "blob"@));
            }
        },
    }
}

/// Shows the tags of a repository, in the order in which they are given, or nothing where one
/// of them cannot be shown: `ms` are the manifests of the repository and `refs` what they refer
/// to.
pub fn tags(
    rows: &Vec<TagRow>,
    ms: &Vec<ManifestInfo>,
    refs: &Vec<RefRow>,
    sizes: &StringHashMap<i64>,
) -> (r: Option<Vec<TagInfo>>)
    ensures
        match r {
            Some(list) => list@.len() == rows@.len() && forall|i: int|
                0 <= i < rows@.len() ==> shows(#[trigger] list@[i], rows@[i], ms@, refs@, sizes@),
            None => exists|i: int|
                0 <= i < rows@.len() && #[trigger] unshowable(rows@[i], ms@, refs@, sizes@),
        },
{
    let ids = index_ids(ms);
    let digests = index_digests(ms);
    let children = index_children(refs);
    let mut list: Vec<TagInfo> = Vec::new();
    let mut i: usize = 0;
    while i < rows.len()
        invariant
            i <= rows@.len(),
            list@.len() == i,
            forall|id: i64| #[trigger] ids@.contains_key(id) <==> with_id(ms@, id) >= 0,
            forall|id: i64|
                #[trigger] ids@.contains_key(id) ==> ids@[id] == with_id(ms@, id) && ids@[id]
                    < ms@.len(),
            forall|d: Seq<char>|
                #[trigger] digests@.contains_key(d) <==> with_digest(ms@, d) >= 0,
            forall|d: Seq<char>|
                #[trigger] digests@.contains_key(d) ==> digests@[d] == with_digest(ms@, d)
                    && digests@[d] < ms@.len(),
            children_indexed(children@, refs@),
            forall|j: int|
                0 <= j < i ==> shows(#[trigger] list@[j], rows@[j], ms@, refs@, sizes@),
        decreases rows@.len() - i,
    {
        let tag = &rows[i];
        let id = tag.manifest_id;
        proof {
            assert(ids@.contains_key(id) <==> with_id(ms@, id) >= 0);
            assert(children@.contains_key(id) || !children@.contains_key(id));
        }
        let m = match ids.get(&id) {
            Some(p) => &ms[*p],
            None => {
                proof {
                    assert(unshowable(rows@[i as int], ms@, refs@, sizes@));
                }
                return None;
            },
        };
        let below = match children.get(&id) {
            Some(c) => text::clone_list(&c.manifests),
            None => Vec::new(),
        };
        let ghost kids = children_of(refs@, id, "manifest"@);
        proof {
            assert(text::views(below@) =~= kids);
        }
        let mut blobs: Vec<String> = Vec::new();
        add_blobs(&mut blobs, &children, id, Ghost(refs@));
        let ghost own = children_of(refs@, id, "blob"@);
        proof {
            assert(text::views(blobs@) =~= own);
            assert(own =~= own + blobs_below(ms@, refs@, kids.take(0)));
        }
        let mut k: usize = 0;
        while k < below.len()
            invariant
                k <= below@.len(),
                text::views(below@) == kids,
                forall|d: Seq<char>|
                    #[trigger] digests@.contains_key(d) <==> with_digest(ms@, d) >= 0,
                forall|d: Seq<char>|
                    #[trigger] digests@.contains_key(d) ==> digests@[d] == with_digest(ms@, d)
                        && digests@[d] < ms@.len(),
                children_indexed(children@, refs@),
                text::views(blobs@) == own + blobs_below(ms@, refs@, kids.take(k as int)),
            decreases below@.len() - k,
        {
            proof {
                assert(kids.take(k + 1).drop_last() =~= kids.take(k as int));
                assert(kids.take(k + 1).last() == below@[k as int]@);
                assert(digests@.contains_key(below@[k as int]@) <==> with_digest(
                    ms@,
                    below@[k as int]@,
                ) >= 0);
            }
            if let Some(p) = digests.get(below[k].as_str()) {
                let ghost before = blobs_below(ms@, refs@, kids.take(k as int));
                let ghost more = children_of(refs@, ms@[*p as int].id, "blob"@);
                add_blobs(&mut blobs, &children, ms[*p].id, Ghost(refs@));
                proof {
                    assert(own + before + more =~= own + (before + more));
                }
            }
            k += 1;
        }
        proof {
            assert(kids.take(k as int) =~= kids);
        }
        let n = distinct_size(&blobs, sizes);
        let total = n + m.size as i128;
        if total < i64::MIN as i128 || total > i64::MAX as i128 {
            proof {
                assert(is_size(n as int, blobs_reached(ms@, refs@, id).to_set(), sizes@));
                assert(unshowable(rows@[i as int], ms@, refs@, sizes@));
            }
            return None;
        }
        let info = TagInfo {
            name: tag.name.clone(),
            digest: m.digest.clone(),
            media_type: m.media_type.clone(),
            size: total as i64,
            pushed_at: tag.pushed_at,
            is_index: below.len() > 0,
        };
        proof {
            assert(shows(info, rows@[i as int], ms@, refs@, sizes@));
        }
        list.push(info);
        i += 1;
    }
    Some(list)
}

/// What the dashboard is told where it asks for tags and names no repository.
pub const REPO_REQUIRED: &'static str = "repo parameter required";

/// The repository whose tags a request asks for.
pub fn asked_repo(params: &Table<String>) -> (r: Option<String>)
    ensures
        text::opt_view(r) == oci::parameter(oci::texts(params@), "repo"@),
{
    match lookup(params, "repo") {
        Some(repo) => Some(repo.to_owned()),
        None => None,
    }
}

/// What is known of a repository: its tags, its manifests and what they refer to, and the sizes
/// of blobs.
pub struct Known {
    pub rows: Vec<TagRow>,
    pub manifests: Vec<ManifestInfo>,
    pub refs: Vec<RefRow>,
    pub sizes: StringHashMap<i64>,
}

/// Shows the tags of a repository, or nothing where one of them cannot be shown; a repository
/// that is not known has none.
pub fn tags_of(found: Option<&Known>) -> (r: Option<Vec<TagInfo>>)
    ensures
        match (found, r) {
            (None, Some(list)) => list@.len() == 0,
            (None, None) => false,
            (Some(k), Some(list)) => list@.len() == k.rows@.len() && forall|i: int|
                0 <= i < k.rows@.len() ==> shows(
                    #[trigger] list@[i],
                    k.rows@[i],
                    k.manifests@,
                    k.refs@,
                    k.sizes@,
                ),
            (Some(k), None) => exists|i: int|
                0 <= i < k.rows@.len() && #[trigger] unshowable(
                    k.rows@[i],
                    k.manifests@,
                    k.refs@,
                    k.sizes@,
                ),
        },
{
    match found {
        None => Some(Vec::new()),
        Some(k) => tags(&k.rows, &k.manifests, &k.refs, &k.sizes),
    }
}

/// Whether a request asks for a dry run.
pub fn dry_run(params: &Table<String>) -> (r: bool)
    ensures
        r == match oci::parameter(oci::texts(params@), "dry_run"@) {
            Some(v) => config::switched_on(v),
            None => false,
        },
        r <==> oci::parameter(oci::texts(params@), "dry_run"@) == Some("true"@) || oci::parameter(
            oci::texts(params@),
            "dry_run"@,
        ) == Some("1"@),
{
    match lookup(params, "dry_run") {
        Some(v) => is_on(v),
        None => false,
    }
}

/// The sum over a set does not depend on how its members are listed: a size is determined.
pub proof fn sizes_are_determined(
    m: int,
    n: int,
    digests: Set<Seq<char>>,
    sizes: Map<Seq<char>, i64>,
)
    requires
        is_size(m, digests, sizes),
        is_size(n, digests, sizes),
    ensures
        m == n,
{
    let u = choose|u: Seq<Seq<char>>|
        #[trigger] table::ascending(u) && u.to_set() == digests && m == size_sum(u, sizes);
    let v = choose|v: Seq<Seq<char>>|
        #[trigger] table::ascending(v) && v.to_set() == digests && n == size_sum(v, sizes);
    crate::order::ascending_is_unique(u, v);
}

/// The size of a blob is the one in its last row; other blobs have none.
pub proof fn the_last_row_gives_the_size(rows: Seq<BlobRow>, row: BlobRow, d: Seq<char>)
    ensures
        !sizes_of(Seq::empty()).contains_key(d),
        sizes_of(rows.push(row)).contains_key(row.digest@),
        sizes_of(rows.push(row))[row.digest@] == row.size,
        d != row.digest@ ==> {
            &&& sizes_of(rows.push(row)).contains_key(d) <==> sizes_of(rows).contains_key(d)
            &&& sizes_of(rows.push(row))[d] == sizes_of(rows)[d]
        },
{
    assert(rows.push(row).drop_last() =~= rows);
}

/// The size of a list of blobs counts each of them: one with a size by it, one without by
/// nothing.
pub proof fn sizes_add_up(list: Seq<Seq<char>>, d: Seq<char>, sizes: Map<Seq<char>, i64>)
    ensures
        size_sum(Seq::empty(), sizes) == 0,
        sizes.contains_key(d) ==> size_sum(list.push(d), sizes) == size_sum(list, sizes) + sizes[d],
        !sizes.contains_key(d) ==> size_sum(list.push(d), sizes) == size_sum(list, sizes),
{
    assert(list.push(d).drop_last() =~= list);
}

proof fn size_without(u: Seq<Seq<char>>, i: int, sizes: Map<Seq<char>, i64>)
    requires
        0 <= i < u.len(),
    ensures
        size_sum(u, sizes) == size_sum(u.remove(i), sizes) + if sizes.contains_key(u[i]) {
            sizes[u[i]] as int
        } else {
            0
        },
    decreases u.len(),
{
    if i == u.len() - 1 {
        assert(u.remove(i) =~= u.drop_last());
    } else {
        let r = u.remove(i);
        assert(r.drop_last() =~= u.drop_last().remove(i));
        assert(r.last() == u.last());
        size_without(u.drop_last(), i, sizes);
    }
}

proof fn sizes_of_the_same_blobs(
    u: Seq<Seq<char>>,
    v: Seq<Seq<char>>,
    sizes: Map<Seq<char>, i64>,
)
    requires
        u.no_duplicates(),
        v.no_duplicates(),
        u.to_set() == v.to_set(),
    ensures
        size_sum(u, sizes) == size_sum(v, sizes),
    decreases u.len(),
{
    if u.len() == 0 {
        if v.len() > 0 {
            assert(v.to_set().contains(v[0]));
            assert(u.contains(v[0]));
        }
    } else {
        let x = u.last();
        assert(u.to_set().contains(x));
        assert(v.contains(x));
        let i = v.index_of(x);
        let a = u.drop_last();
        let b = v.remove(i);
        size_without(v, i, sizes);
        assert(forall|j: int| 0 <= j < a.len() ==> a[j] == u[j]);
        assert forall|j: int| 0 <= j < b.len() implies b[j] == v[if j < i {
            j
        } else {
            j + 1
        }] by {}
        assert(b.no_duplicates());
        assert(a.to_set() =~= b.to_set()) by {
            assert forall|y: Seq<char>| a.to_set().contains(y) <==> b.to_set().contains(y) by {
                if a.contains(y) {
                    let j = a.index_of(y);
                    assert(u[j] == y && y != x);
                    assert(u.to_set().contains(y));
                    assert(v.contains(y));
                    let k = v.index_of(y);
                    assert(b[if k < i {
                        k
                    } else {
                        k - 1
                    }] == y);
                }
                if b.contains(y) {
                    let j = b.index_of(y);
                    let k = if j < i {
                        j
                    } else {
                        j + 1
                    };
                    assert(v[k] == y && k != i);
                    assert(y != x);
                    assert(v.to_set().contains(y));
                    assert(u.contains(y));
                    let l = u.index_of(y);
                    assert(a[l] == y);
                }
            }
        }
        sizes_of_the_same_blobs(a, b, sizes);
    }
}

/// A size counts each blob of a set once: it is that of any list which holds each of them once.
pub proof fn each_blob_counts_once(
    n: int,
    digests: Set<Seq<char>>,
    sizes: Map<Seq<char>, i64>,
    list: Seq<Seq<char>>,
)
    requires
        is_size(n, digests, sizes),
        list.no_duplicates(),
        list.to_set() == digests,
    ensures
        n == size_sum(list, sizes),
{
    let u = choose|u: Seq<Seq<char>>|
        #[trigger] table::ascending(u) && u.to_set() == digests && n == size_sum(u, sizes);
    table::ascending_distinct(u);
    sizes_of_the_same_blobs(u, list, sizes);
}

/// The latest of some times is one of them, and none is later; there is one unless there are no
/// times.
pub proof fn none_is_later_than_the_latest(times: Seq<i64>)
    ensures
        latest(times) is None <==> times.len() == 0,
        latest(times) matches Some(t) ==> times.contains(t) && forall|i: int|
            0 <= i < times.len() ==> #[trigger] times[i] <= t,
    decreases times.len(),
{
    if times.len() > 0 {
        let rest = times.drop_last();
        none_is_later_than_the_latest(rest);
        assert(times =~= rest.push(times.last()));
        if let Some(t) = latest(rest) {
            text::contains_push(rest, times.last(), t);
        }
        text::contains_push(rest, times.last(), times.last());
        assert forall|i: int| 0 <= i < times.len() implies #[trigger] times[i]
            <= latest(times)->0 by {
            if i < rest.len() {
                assert(rest[i] == times[i]);
            }
        }
    }
}

/// What a dashboard shows of a repository: how many tags it has, when the latest of them was
/// pushed, and the size of its blobs, each counted once.
pub proof fn what_is_shown_of_a_repository(
    s: RepoSummary,
    row: RepoRow,
    sizes: Map<Seq<char>, i64>,
    list: Seq<Seq<char>>,
    i: int,
)
    requires
        sums_up(s, row, sizes),
        list.no_duplicates(),
        list.to_set() == text::views(row.blobs@).to_set(),
    ensures
        s.tags == row.pushed@.len(),
        s.size_bytes == size_sum(list, sizes),
        s.last_pushed is None <==> row.pushed@.len() == 0,
        0 <= i < row.pushed@.len() ==> row.pushed@[i] <= s.last_pushed->0,
        s.last_pushed matches Some(t) ==> row.pushed@.contains(t),
{
    each_blob_counts_once(
        s.size_bytes as int,
        text::views(row.blobs@).to_set(),
        sizes,
        list,
    );
    none_is_later_than_the_latest(row.pushed@);
}

/// A repository is found by its name; where the name occurs more than once, its last row counts.
pub proof fn the_last_row_of_a_name_counts(rows: Seq<RepoRow>, name: Seq<char>)
    ensures
        last_named(rows, name) >= 0 <==> exists|i: int|
            0 <= i < rows.len() && (#[trigger] rows[i]).name@ == name,
        last_named(rows, name) >= 0 ==> last_named(rows, name) < rows.len() && rows[last_named(
            rows,
            name,
        )].name@ == name,
        forall|i: int|
            last_named(rows, name) < i < rows.len() && 0 <= i ==> (#[trigger] rows[i]).name@ != name,
    decreases rows.len(),
{
    if rows.len() > 0 {
        let rest = rows.drop_last();
        the_last_row_of_a_name_counts(rest, name);
        assert(forall|i: int| 0 <= i < rest.len() ==> rest[i] == #[trigger] rows[i]);
        assert(rows[rows.len() - 1] == rows.last());
        if last_named(rest, name) >= 0 {
            assert(rows[last_named(rest, name)].name@ == rest[last_named(rest, name)].name@);
        }
    }
}

proof fn found_by_id(ms: Seq<ManifestInfo>, id: i64)
    ensures
        -1 <= with_id(ms, id) < ms.len(),
        with_id(ms, id) >= 0 ==> ms[with_id(ms, id)].id == id,
        forall|i: int| 0 <= i < ms.len() && (#[trigger] ms[i]).id == id ==> with_id(ms, id) >= i,
    decreases ms.len(),
{
    if ms.len() > 0 {
        let rest = ms.drop_last();
        found_by_id(rest, id);
        assert(forall|i: int| 0 <= i < rest.len() ==> rest[i] == #[trigger] ms[i]);
    }
}

proof fn found_by_digest(ms: Seq<ManifestInfo>, d: Seq<char>)
    ensures
        -1 <= with_digest(ms, d) < ms.len(),
        with_digest(ms, d) >= 0 ==> ms[with_digest(ms, d)].digest@ == d,
        forall|i: int|
            0 <= i < ms.len() && (#[trigger] ms[i]).digest@ == d ==> with_digest(ms, d) >= i,
    decreases ms.len(),
{
    if ms.len() > 0 {
        let rest = ms.drop_last();
        found_by_digest(rest, d);
        assert(forall|i: int| 0 <= i < rest.len() ==> rest[i] == #[trigger] ms[i]);
    }
}

proof fn children_are_refs(refs: Seq<RefRow>, id: i64, kind: Seq<char>, x: Seq<char>)
    ensures
        children_of(refs, id, kind).contains(x) <==> exists|k: int|
            0 <= k < refs.len() && (#[trigger] refs[k]).manifest_id == id && refs[k].kind@ == kind
                && refs[k].child@ == x,
    decreases refs.len(),
{
    if refs.len() > 0 {
        let rest = refs.drop_last();
        children_are_refs(rest, id, kind, x);
        text::contains_push(children_of(rest, id, kind), refs.last().child@, x);
        assert(forall|k: int| 0 <= k < rest.len() ==> rest[k] == refs[k]);
        if children_of(rest, id, kind).contains(x) {
            let k = choose|k: int|
                0 <= k < rest.len() && (#[trigger] rest[k]).manifest_id == id && rest[k].kind@
                    == kind && rest[k].child@ == x;
            assert(refs[k].manifest_id == id);
        }
        assert(refs[refs.len() - 1] == refs.last());
    }
}

proof fn below_are_refs(
    ms: Seq<ManifestInfo>,
    refs: Seq<RefRow>,
    children: Seq<Seq<char>>,
    x: Seq<char>,
)
    ensures
        blobs_below(ms, refs, children).contains(x) <==> exists|j: int|
            0 <= j < children.len() && with_digest(ms, #[trigger] children[j]) >= 0 && children_of(
                refs,
                ms[with_digest(ms, children[j])].id,
                "blob"@,
            ).contains(x),
    decreases children.len(),
{
    if children.len() > 0 {
        let rest = children.drop_last();
        let before = blobs_below(ms, refs, rest);
        below_are_refs(ms, refs, rest, x);
        assert(forall|j: int| 0 <= j < rest.len() ==> rest[j] == children[j]);
        assert(children[children.len() - 1] == children.last());
        if before.contains(x) {
            let j = choose|j: int|
                0 <= j < rest.len() && with_digest(ms, #[trigger] rest[j]) >= 0 && children_of(
                    refs,
                    ms[with_digest(ms, rest[j])].id,
                    "blob"@,
                ).contains(x);
            assert(with_digest(ms, children[j]) >= 0);
        }
        let p = with_digest(ms, children.last());
        if p >= 0 {
            let own = children_of(refs, ms[p].id, "blob"@);
            joined_lists_hold_both(before, own, x);
        }
    }
}

proof fn joined_lists_hold_both(a: Seq<Seq<char>>, b: Seq<Seq<char>>, x: Seq<char>)
    ensures
        (a + b).contains(x) <==> a.contains(x) || b.contains(x),
{
    if a.contains(x) {
        assert((a + b)[a.index_of(x)] == x);
    }
    if b.contains(x) {
        assert((a + b)[a.len() + b.index_of(x)] == x);
    }
    if (a + b).contains(x) {
        let i = (a + b).index_of(x);
        if i < a.len() {
            assert(a[i] == x);
        } else {
            assert(b[i - a.len()] == x);
        }
    }
}

/// What a dashboard shows of a tag: its own name and time, the digest and the media type of the
/// manifest that it points at, and whether that lists manifests. Its size is that of the manifest
/// and of the blobs that it or a manifest which it lists refers to, each counted once. Manifests
/// have different ids and different digests.
pub proof fn what_is_shown_of_a_tag(
    info: TagInfo,
    tag: TagRow,
    ms: Seq<ManifestInfo>,
    refs: Seq<RefRow>,
    sizes: Map<Seq<char>, i64>,
    p: int,
    list: Seq<Seq<char>>,
)
    requires
        shows(info, tag, ms, refs, sizes),
        0 <= p < ms.len(),
        ms[p].id == tag.manifest_id,
        forall|i: int, j: int|
            0 <= i < j < ms.len() ==> (#[trigger] ms[i]).id != (#[trigger] ms[j]).id
                && ms[i].digest@ != ms[j].digest@,
        list.no_duplicates(),
        forall|x: Seq<char>| #[trigger]
            list.contains(x) <==> {
                ||| exists|k: int|
                    0 <= k < refs.len() && (#[trigger] refs[k]).manifest_id == ms[p].id
                        && refs[k].kind@ == "blob"@ && refs[k].child@ == x
                ||| exists|k: int, q: int, l: int|
                    0 <= k < refs.len() && 0 <= q < ms.len() && 0 <= l < refs.len()
                        && (#[trigger] refs[k]).manifest_id == ms[p].id && refs[k].kind@
                        == "manifest"@ && refs[k].child@ == (#[trigger] ms[q]).digest@
                        && (#[trigger] refs[l]).manifest_id == ms[q].id && refs[l].kind@ == "blob"@
                        && refs[l].child@ == x
            },
    ensures
        info.name@ == tag.name@,
        info.pushed_at == tag.pushed_at,
        info.digest@ == ms[p].digest@,
        info.media_type@ == ms[p].media_type@,
        info.is_index <==> exists|k: int|
            0 <= k < refs.len() && (#[trigger] refs[k]).manifest_id == ms[p].id && refs[k].kind@
                == "manifest"@,
        info.size == ms[p].size + size_sum(list, sizes),
{
    let id = ms[p].id;
    found_by_id(ms, id);
    let q = with_id(ms, id);
    assert(q == p) by {
        if q > p {
            assert(ms[p].id != ms[q].id);
        }
    }
    let kids = children_of(refs, id, "manifest"@);
    let own = children_of(refs, id, "blob"@);
    let below = blobs_below(ms, refs, kids);
    if kids.len() > 0 {
        children_are_refs(refs, id, "manifest"@, kids[0]);
        assert(kids.contains(kids[0]));
    }
    if exists|k: int|
        0 <= k < refs.len() && (#[trigger] refs[k]).manifest_id == id && refs[k].kind@
            == "manifest"@ {
        let k = choose|k: int|
            0 <= k < refs.len() && (#[trigger] refs[k]).manifest_id == id && refs[k].kind@
                == "manifest"@;
        children_are_refs(refs, id, "manifest"@, refs[k].child@);
        assert(kids.contains(refs[k].child@));
    }
    assert forall|x: Seq<char>| #[trigger] list.to_set().contains(x) <==> blobs_reached(
        ms,
        refs,
        id,
    ).to_set().contains(x) by {
        joined_lists_hold_both(own, below, x);
        children_are_refs(refs, id, "blob"@, x);
        below_are_refs(ms, refs, kids, x);
        assert(list.to_set().contains(x) <==> list.contains(x));
        if below.contains(x) {
            let j = choose|j: int|
                0 <= j < kids.len() && with_digest(ms, #[trigger] kids[j]) >= 0 && children_of(
                    refs,
                    ms[with_digest(ms, kids[j])].id,
                    "blob"@,
                ).contains(x);
            let c = with_digest(ms, kids[j]);
            found_by_digest(ms, kids[j]);
            assert(kids.contains(kids[j]));
            children_are_refs(refs, id, "manifest"@, kids[j]);
            children_are_refs(refs, ms[c].id, "blob"@, x);
            let k = choose|k: int|
                0 <= k < refs.len() && (#[trigger] refs[k]).manifest_id == id && refs[k].kind@
                    == "manifest"@ && refs[k].child@ == kids[j];
            let l = choose|l: int|
                0 <= l < refs.len() && (#[trigger] refs[l]).manifest_id == ms[c].id && refs[l].kind@
                    == "blob"@ && refs[l].child@ == x;
            assert(refs[k].child@ == ms[c].digest@);
            assert(refs[l].child@ == x);
            assert(list.contains(x));
        }
        if list.contains(x) && !own.contains(x) {
            let (k, c, l) = choose|k: int, c: int, l: int|
                0 <= k < refs.len() && 0 <= c < ms.len() && 0 <= l < refs.len()
                    && (#[trigger] refs[k]).manifest_id == id && refs[k].kind@ == "manifest"@
                    && refs[k].child@ == (#[trigger] ms[c]).digest@
                    && (#[trigger] refs[l]).manifest_id == ms[c].id && refs[l].kind@ == "blob"@
                    && refs[l].child@ == x;
            let d = refs[k].child@;
            children_are_refs(refs, id, "manifest"@, d);
            assert(kids.contains(d));
            let j = kids.index_of(d);
            found_by_digest(ms, d);
            let e = with_digest(ms, d);
            assert(e == c) by {
                if e > c {
                    assert(ms[c].digest@ != ms[e].digest@);
                }
            }
            children_are_refs(refs, ms[c].id, "blob"@, x);
            assert(with_digest(ms, kids[j]) >= 0);
            assert(below.contains(x));
        }
    }
    assert(list.to_set() =~= blobs_reached(ms, refs, id).to_set());
    each_blob_counts_once(
        info.size - ms[p].size,
        blobs_reached(ms, refs, id).to_set(),
        sizes,
        list,
    );
}

/// A repository can be shown where the size of its blobs, each counted once, fits 64 bits.
pub proof fn repositories_that_fit_are_shown(
    rows: Seq<RepoRow>,
    sizes: Map<Seq<char>, i64>,
    i: int,
    list: Seq<Seq<char>>,
)
    requires
        0 <= i < rows.len(),
        list.no_duplicates(),
        list.to_set() == text::views(rows[i].blobs@).to_set(),
        i64::MIN <= size_sum(list, sizes) <= i64::MAX,
    ensures
        !oversized(rows, sizes, i),
{
    if oversized(rows, sizes, i) {
        let n = choose|n: int|
            #[trigger] is_size(n, text::views(rows[i].blobs@).to_set(), sizes) && !(i64::MIN <= n
                <= i64::MAX);
        each_blob_counts_once(n, text::views(rows[i].blobs@).to_set(), sizes, list);
    }
}

/// A tag can be shown where its manifest is there and its size, with the blobs that it reaches
/// counted once each, fits 64 bits.
pub proof fn tags_that_fit_are_shown(
    tag: TagRow,
    ms: Seq<ManifestInfo>,
    refs: Seq<RefRow>,
    sizes: Map<Seq<char>, i64>,
    p: int,
    list: Seq<Seq<char>>,
)
    requires
        0 <= p < ms.len(),
        ms[p].id == tag.manifest_id,
        forall|q: int| 0 <= q < ms.len() && (#[trigger] ms[q]).id == tag.manifest_id ==> q == p,
        list.no_duplicates(),
        list.to_set() == blobs_reached(ms, refs, tag.manifest_id).to_set(),
        i64::MIN <= ms[p].size + size_sum(list, sizes) <= i64::MAX,
    ensures
        !unshowable(tag, ms, refs, sizes),
{
    found_by_id(ms, tag.manifest_id);
    assert(with_id(ms, tag.manifest_id) == p);
    if unshowable(tag, ms, refs, sizes) {
        let n = choose|n: int|
            #[trigger] is_size(n, blobs_reached(ms, refs, tag.manifest_id).to_set(), sizes) && !(
            i64::MIN <= n + ms[p].size <= i64::MAX);
        each_blob_counts_once(
            n,
            blobs_reached(ms, refs, tag.manifest_id).to_set(),
            sizes,
            list,
        );
    }
}

} // verus!
