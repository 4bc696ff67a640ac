//! The bucket as the source of truth.
//!
//! Blobs and manifest bytes are immutable objects. The only mutable state of a repository is
//! one small index object, and every change of it is a compare-and-swap on that object's
//! entity tag. The local database is a view of the indexes that can be rebuilt.

use crate::number;
use crate::number::padded_of;
use crate::objectstore;
use crate::objectstore::Cas;
use crate::table;
use crate::table::Table;
use crate::text;
use vstd::hash_set::StringHashSet;
use vstd::prelude::*;
use vstd::string::*;

verus! {

/// The key of a repository's index.
pub open spec fn index_key_of(repo: Seq<char>) -> Seq<char> {
    "repos/"@ + repo + "/index.json"@
}

/// The key of a repository's index.
pub fn index_key(repo: &str) -> (k: String)
    ensures
        k@ == index_key_of(repo@),
{
    let mut k = "repos/".to_owned();
    k.append(repo);
    k.append("/index.json");
    k
}

/// The key under which the log keeps a version of a repository.
pub open spec fn log_key_of(repo: Seq<char>, version: int) -> Seq<char> {
    "repos/"@ + repo + "/log/"@ + number::padded(version) + ".json"@
}

/// The key under which the log keeps a version of a repository.
pub fn log_key(repo: &str, version: i64) -> (k: String)
    ensures
        k@ == log_key_of(repo@, version as int),
{
    let mut k = "repos/".to_owned();
    k.append(repo);
    k.append("/log/");
    k.append(padded_of(version).as_str());
    k.append(".json");
    k
}

/// The key of a manifest's bytes.
pub open spec fn manifest_key_of(digest: Seq<char>) -> Seq<char> {
    "manifests/"@ + digest
}

/// The key of a manifest's bytes.
pub fn manifest_key(digest: &str) -> (k: String)
    ensures
        k@ == manifest_key_of(digest@),
{
    let mut k = "manifests/".to_owned();
    k.append(digest);
    k
}

/// The key of a blob.
pub open spec fn blob_key_of(digest: Seq<char>) -> Seq<char> {
    "blobs/"@ + digest
}

/// The key of a blob.
pub fn blob_key(digest: &str) -> (k: String)
    ensures
        k@ == blob_key_of(digest@),
{
    let mut k = "blobs/".to_owned();
    k.append(digest);
    k
}

/// The repository whose index a key names, if it names one.
pub open spec fn indexed_repo(key: Seq<char>) -> Option<Seq<char>> {
    match text::after_prefix(key, "repos/"@) {
        Some(rest) => text::before_suffix(rest, "/index.json"@),
        None => None,
    }
}

/// Every repository is found again by the key of its index.
pub proof fn index_key_reads_back(repo: Seq<char>)
    ensures
        indexed_repo(index_key_of(repo)) == Some(repo),
{
    reveal_strlit("repos/");
    reveal_strlit("/index.json");
    let k = index_key_of(repo);
    assert(k.subrange(0, 6) =~= "repos/"@);
    let rest = k.skip(6);
    assert(rest =~= repo + "/index.json"@);
    assert(rest.subrange(rest.len() - 11, rest.len() as int) =~= "/index.json"@);
    assert(rest.take(rest.len() - 11) =~= repo);
}

/// Different repositories have different index keys, and no version of a repository's log
/// shares its key with another version.
pub proof fn keys_are_distinct(a: Seq<char>, b: Seq<char>, v: int, w: int)
    ensures
        index_key_of(a) == index_key_of(b) ==> a == b,
        log_key_of(a, v) == log_key_of(a, w) ==> v == w,
        manifest_key_of(a) == manifest_key_of(b) ==> a == b,
        blob_key_of(a) == blob_key_of(b) ==> a == b,
{
    index_key_reads_back(a);
    index_key_reads_back(b);
    if log_key_of(a, v) == log_key_of(a, w) {
        let head = "repos/"@ + a + "/log/"@;
        let x = log_key_of(a, v);
        let tail = ".json"@.len() as int;
        assert(x.subrange(head.len() as int, x.len() - tail) =~= number::padded(v));
        assert(x.subrange(head.len() as int, x.len() - tail) =~= number::padded(w)) by {
            assert(x == log_key_of(a, w));
        }
        number::padded_reads_back(v);
        number::padded_reads_back(w);
    }
    assert(manifest_key_of(a).skip("manifests/"@.len() as int) =~= a);
    assert(manifest_key_of(b).skip("manifests/"@.len() as int) =~= b);
    assert(blob_key_of(a).skip("blobs/"@.len() as int) =~= a);
    assert(blob_key_of(b).skip("blobs/"@.len() as int) =~= b);
}

/// What an index records of a manifest.
#[derive(Debug)]
pub struct ManifestEntry {
    pub media_type: String,
    pub size: i64,
    pub subject: Option<String>,
    pub artifact_type: Option<String>,
    pub annotations: Option<String>,
    pub created_at: i64,
    pub blob_refs: Vec<String>,
    pub manifest_refs: Vec<String>,
}

#[verifier::ext_equal]
pub struct ManifestEntryView {
    pub media_type: Seq<char>,
    pub size: i64,
    pub subject: Option<Seq<char>>,
    pub artifact_type: Option<Seq<char>>,
    pub annotations: Option<Seq<char>>,
    pub created_at: i64,
    pub blob_refs: Seq<Seq<char>>,
    pub manifest_refs: Seq<Seq<char>>,
}

impl View for ManifestEntry {
    type V = ManifestEntryView;

    open spec fn view(&self) -> ManifestEntryView {
        ManifestEntryView {
            media_type: self.media_type@,
            size: self.size,
            subject: text::opt_view(self.subject),
            artifact_type: text::opt_view(self.artifact_type),
            annotations: text::opt_view(self.annotations),
            created_at: self.created_at,
            blob_refs: text::views(self.blob_refs@),
            manifest_refs: text::views(self.manifest_refs@),
        }
    }
}

impl Clone for ManifestEntry {
    fn clone(&self) -> (r: ManifestEntry)
        ensures
            r@ == self@,
    {
        ManifestEntry {
            media_type: self.media_type.clone(),
            size: self.size,
            subject: text::clone_opt(&self.subject),
            artifact_type: text::clone_opt(&self.artifact_type),
            annotations: text::clone_opt(&self.annotations),
            created_at: self.created_at,
            blob_refs: text::clone_list(&self.blob_refs),
            manifest_refs: text::clone_list(&self.manifest_refs),
        }
    }
}

/// What an index records of a tag.
#[derive(Debug)]
pub struct TagEntry {
    pub digest: String,
    pub pushed_at: i64,
}

#[verifier::ext_equal]
pub struct TagEntryView {
    pub digest: Seq<char>,
    pub pushed_at: i64,
}

impl View for TagEntry {
    type V = TagEntryView;

    open spec fn view(&self) -> TagEntryView {
        TagEntryView { digest: self.digest@, pushed_at: self.pushed_at }
    }
}

impl Clone for TagEntry {
    fn clone(&self) -> (r: TagEntry)
        ensures
            r@ == self@,
    {
        TagEntry { digest: self.digest.clone(), pushed_at: self.pushed_at }
    }
}

/// A repository's index: its version, its manifests by digest and its tags by name.
pub struct IndexDoc {
    pub version: i64,
    pub manifests: Table<ManifestEntry>,
    pub tags: Table<TagEntry>,
}

#[verifier::ext_equal]
pub struct IndexView {
    pub version: i64,
    pub manifests: Map<Seq<char>, ManifestEntryView>,
    pub tags: Map<Seq<char>, TagEntryView>,
}

/// The manifests of an index.
pub open spec fn manifests_view(m: Map<Seq<char>, ManifestEntry>) -> Map<
    Seq<char>,
    ManifestEntryView,
> {
    m.map_values(|e: ManifestEntry| e@)
}

/// The tags of an index.
pub open spec fn tags_view(m: Map<Seq<char>, TagEntry>) -> Map<Seq<char>, TagEntryView> {
    m.map_values(|e: TagEntry| e@)
}

impl View for IndexDoc {
    type V = IndexView;

    open spec fn view(&self) -> IndexView {
        IndexView {
            version: self.version,
            manifests: manifests_view(self.manifests@),
            tags: tags_view(self.tags@),
        }
    }
}

/// The index of a repository that has none yet.
pub open spec fn empty_index() -> IndexView {
    IndexView { version: 0, manifests: Map::empty(), tags: Map::empty() }
}

impl Default for IndexDoc {
    fn default() -> (d: IndexDoc)
        ensures
            d@ == empty_index(),
    {
        let d = IndexDoc { version: 0, manifests: Table::new(), tags: Table::new() };
        assert(d@ =~= empty_index());
        d
    }
}

/// What the log records of a change.
#[derive(Debug)]
pub struct LogInfo {
    pub action: &'static str,
    pub tag: Option<String>,
    pub digest: Option<String>,
}

#[verifier::ext_equal]
pub struct LogInfoView {
    pub action: Seq<char>,
    pub tag: Option<Seq<char>>,
    pub digest: Option<Seq<char>>,
}

impl View for LogInfo {
    type V = LogInfoView;

    open spec fn view(&self) -> LogInfoView {
        LogInfoView {
            action: self.action@,
            tag: text::opt_view(self.tag),
            digest: text::opt_view(self.digest),
        }
    }
}

/// A change of a repository's index.
pub enum Mutation {
    /// Record a manifest, and point a tag at it where one is given.
    Push { digest: String, entry: ManifestEntry, tag: Option<String> },
    /// Take a manifest out, and the tags that point at it.
    DeleteManifest(String),
    /// Take a tag out.
    DeleteTag(String),
    /// Take out those of `digests` that nothing in the index keeps, as long as they were
    /// created at `cutoff` at the latest.
    Collect { digests: Vec<String>, cutoff: i64 },
    /// Take out the tags that a policy gave up on, each with the time of its push: a tag that
    /// was pushed anew stays.
    Untag(Vec<(String, i64)>),
}

pub enum MutationView {
    Push { digest: Seq<char>, entry: ManifestEntryView, tag: Option<Seq<char>> },
    DeleteManifest(Seq<char>),
    DeleteTag(Seq<char>),
    Collect { digests: Seq<Seq<char>>, cutoff: i64 },
    Untag(Seq<(Seq<char>, i64)>),
}

/// Tags with the times of their pushes.
pub open spec fn pushes(v: Seq<(String, i64)>) -> Seq<(Seq<char>, i64)> {
    v.map_values(|x: (String, i64)| (x.0@, x.1))
}

impl View for Mutation {
    type V = MutationView;

    open spec fn view(&self) -> MutationView {
        match *self {
            Mutation::Push { digest, entry, tag } => MutationView::Push {
                digest: digest@,
                entry: entry@,
                tag: text::opt_view(tag),
            },
            Mutation::DeleteManifest(d) => MutationView::DeleteManifest(d@),
            Mutation::DeleteTag(t) => MutationView::DeleteTag(t@),
            Mutation::Collect { digests, cutoff } => MutationView::Collect {
                digests: text::views(digests@),
                cutoff,
            },
            Mutation::Untag(ts) => MutationView::Untag(pushes(ts@)),
        }
    }
}

/// The first child manifest that the index does not have, or the number of children.
pub open spec fn first_missing(doc: IndexView, children: Seq<Seq<char>>) -> int
    decreases children.len(),
{
    if children.len() == 0 || !doc.manifests.contains_key(children[0]) {
        0
    } else {
        1 + first_missing(doc, children.skip(1))
    }
}

/// The message about a child manifest that is missing.
pub open spec fn missing_manifest(d: Seq<char>) -> Seq<char> {
    "manifest "@ + d + " not found in repository"@
}

/// The tags that do not point at `digest`.
pub open spec fn tags_elsewhere(tags: Map<Seq<char>, TagEntryView>, digest: Seq<char>) -> Map<
    Seq<char>,
    TagEntryView,
> {
    tags.remove_keys(Set::new(|t: Seq<char>| tags.contains_key(t) && tags[t].digest == digest))
}

/// A tag of the index points at that digest.
pub open spec fn is_tagged(doc: IndexView, digest: Seq<char>) -> bool {
    exists|t: Seq<char>| #[trigger] doc.tags.contains_key(t) && doc.tags[t].digest == digest
}

/// As long as the index has `a`, it keeps `b`: `a` lists `b`, or is the subject of `b`.
pub open spec fn entry_keeps(doc: IndexView, a: Seq<char>, b: Seq<char>) -> bool {
    &&& doc.manifests.contains_key(a)
    &&& doc.manifests.contains_key(b)
    &&& doc.manifests[a].manifest_refs.contains(b) || doc.manifests[b].subject == Some(a)
}

/// A collection of `digests` leaves an entry alone: it is not one of them, was created after
/// `cutoff`, or has a tag.
pub open spec fn left_alone(
    doc: IndexView,
    digests: Seq<Seq<char>>,
    cutoff: i64,
    d: Seq<char>,
) -> bool {
    &&& doc.manifests.contains_key(d)
    &&& !digests.contains(d) || doc.manifests[d].created_at > cutoff || is_tagged(doc, d)
}

/// A collection spares `d`, through a chain of at most `n` entries that starts at one that it
/// leaves alone.
pub open spec fn spared_within(
    doc: IndexView,
    digests: Seq<Seq<char>>,
    cutoff: i64,
    d: Seq<char>,
    n: nat,
) -> bool
    decreases n,
{
    left_alone(doc, digests, cutoff, d) || (n > 0 && exists|a: Seq<char>|
        #[trigger] entry_keeps(doc, a, d) && spared_within(
            doc,
            digests,
            cutoff,
            a,
            (n - 1) as nat,
        ))
}

/// A collection spares `d`: it leaves it alone, or an entry that it spares keeps it.
pub open spec fn spared(
    doc: IndexView,
    digests: Seq<Seq<char>>,
    cutoff: i64,
    d: Seq<char>,
) -> bool {
    exists|n: nat| spared_within(doc, digests, cutoff, d, n)
}

/// What a collection of `digests` takes out of an index.
pub open spec fn collected(doc: IndexView, digests: Seq<Seq<char>>, cutoff: i64) -> Set<Seq<char>> {
    Set::new(
        |d: Seq<char>| doc.manifests.contains_key(d) && !spared(doc, digests, cutoff, d),
    )
}

/// The tags of an index that are still as they were pushed when a policy gave up on them.
pub open spec fn still_given_up(doc: IndexView, ts: Seq<(Seq<char>, i64)>) -> Set<Seq<char>> {
    Set::new(
        |t: Seq<char>| doc.tags.contains_key(t) && ts.contains((t, doc.tags[t].pushed_at)),
    )
}

/// The index after a change and what the log says of it, or why the change is refused.
pub open spec fn changed(m: MutationView, doc: IndexView, now: i64) -> Result<
    (IndexView, LogInfoView),
    Seq<char>,
> {
    match m {
        MutationView::Push { digest, entry, tag } => {
            let i = first_missing(doc, entry.manifest_refs);
            if i < entry.manifest_refs.len() {
                Err(missing_manifest(entry.manifest_refs[i]))
            } else {
                Ok(
                    (
                        IndexView {
                            manifests: doc.manifests.insert(digest, entry),
                            tags: match tag {
                                Some(t) => doc.tags.insert(
                                    t,
                                    TagEntryView { digest, pushed_at: now },
                                ),
                                None => doc.tags,
                            },
                            ..doc
                        },
                        LogInfoView { action: "push"@, tag, digest: Some(digest) },
                    ),
                )
            }
        },
        MutationView::DeleteManifest(d) => if doc.manifests.contains_key(d) {
            Ok(
                (
                    IndexView {
                        manifests: doc.manifests.remove(d),
                        tags: tags_elsewhere(doc.tags, d),
                        ..doc
                    },
                    LogInfoView { action: "delete-manifest"@, tag: None, digest: Some(d) },
                ),
            )
        } else {
            Err("manifest unknown"@)
        },
        MutationView::DeleteTag(t) => if doc.tags.contains_key(t) {
            Ok(
                (
                    IndexView { tags: doc.tags.remove(t), ..doc },
                    LogInfoView { action: "delete-tag"@, tag: Some(t), digest: None },
                ),
            )
        } else {
            Err("tag unknown"@)
        },
        MutationView::Collect { digests, cutoff } => Ok(
            (
                IndexView {
                    manifests: doc.manifests.remove_keys(collected(doc, digests, cutoff)),
                    ..doc
                },
                LogInfoView { action: "gc"@, tag: None, digest: None },
            ),
        ),
        MutationView::Untag(ts) => Ok(
            (
                IndexView { tags: doc.tags.remove_keys(still_given_up(doc, ts)), ..doc },
                LogInfoView { action: "retention"@, tag: None, digest: None },
            ),
        ),
    }
}

fn find_missing(doc: &IndexDoc, children: &Vec<String>) -> (i: usize)
    ensures
        i == first_missing(doc@, text::views(children@)),
        i <= children@.len(),
{
    let ghost all = text::views(children@);
    let mut i: usize = 0;
    proof {
        assert(all.skip(0) =~= all);
    }
    while i < children.len()
        invariant
            i <= children@.len(),
            all == text::views(children@),
            first_missing(doc@, all) == i + first_missing(doc@, all.skip(i as int)),
        decreases children@.len() - i,
    {
        if !doc.manifests.contains_key(children[i].as_str()) {
            return i;
        }
        proof {
            assert(all.skip(i as int).skip(1) =~= all.skip(i + 1));
        }
        i += 1;
    }
    i
}

/// Takes out the tags that point at `digest`.
fn drop_tags_of(tags: &mut Table<TagEntry>, digest: &str)
    ensures
        tags_view(final(tags)@) == tags_elsewhere(tags_view(old(tags)@), digest@),
{
    let mut gone: Vec<String> = Vec::new();
    let n = tags.len();
    let ghost keys = tags.keys();
    let ghost map = tags@;
    let mut i: usize = 0;
    while i < n
        invariant
            i <= n,
            n == keys.len(),
            keys == tags.keys(),
            map == tags@,
            map == table::paired(keys, tags.values()),
            forall|k: Seq<char>|
                #[trigger] text::views(gone@).contains(k) <==> keys.take(i as int).contains(k)
                    && map[k].digest@ == digest@,
        decreases n - i,
    {
        let ghost before = text::views(gone@);
        let hit = text::same(tags.value_at(i).digest.as_str(), digest);
        if hit {
            gone.push(tags.key_at(i).clone());
            proof {
                assert(text::views(gone@) =~= before.push(keys[i as int]));
            }
        }
        proof {
            let next = keys.take(i + 1);
            assert(next =~= keys.take(i as int).push(keys[i as int]));
            assert forall|k: Seq<char>| #[trigger] text::views(gone@).contains(k) <==> next.contains(
                k,
            ) && map[k].digest@ == digest@ by {
                if next.contains(k) {
                    let j = next.index_of(k);
                    if j < i {
                        assert(keys.take(i as int)[j] == k);
                    }
                }
                if keys.take(i as int).contains(k) {
                    assert(next[keys.take(i as int).index_of(k)] == k);
                }
                assert(next[i as int] == keys[i as int]);
                if before.contains(k) {
                    assert(text::views(gone@)[before.index_of(k)] == k);
                }
                if hit {
                    assert(text::views(gone@)[before.len() as int] == keys[i as int]);
                }
                if text::views(gone@).contains(k) {
                    let j = text::views(gone@).index_of(k);
                    if j < before.len() {
                        assert(before[j] == k);
                    }
                }
            }
        }
        i += 1;
    }
    tags.remove_all(&gone);
    proof {
        assert(keys.take(n as int) =~= keys);
        table::mapped_remove_keys(map, |e: TagEntry| e@, text::views(gone@).to_set());
        let t = tags_view(map);
        let stale = Set::new(|k: Seq<char>| t.contains_key(k) && t[k].digest == digest@);
        assert forall|k: Seq<char>| text::views(gone@).to_set().contains(k) == stale.contains(
            k,
        ) by {
            assert(text::views(gone@).contains(k) <==> keys.contains(k) && map[k].digest@
                == digest@);
        }
        assert(text::views(gone@).to_set() =~= stale);
    }
}

/// The tags among `ts` that the index has as they were pushed.
fn find_given_up(doc: &IndexDoc, ts: &Vec<(String, i64)>) -> (gone: Vec<String>)
    ensures
        text::views(gone@).to_set() == still_given_up(doc@, pushes(ts@)),
{
    let ghost all = pushes(ts@);
    let mut gone: Vec<String> = Vec::new();
    let mut i: usize = 0;
    while i < ts.len()
        invariant
            i <= ts@.len(),
            all == pushes(ts@),
            forall|t: Seq<char>|
                #[trigger] text::views(gone@).contains(t) <==> still_given_up(
                    doc@,
                    all.take(i as int),
                ).contains(t),
        decreases ts@.len() - i,
    {
        let ghost before = text::views(gone@);
        let (name, pushed_at) = (&ts[i].0, ts[i].1);
        if let Some(entry) = doc.tags.get(name.as_str()) {
            proof {
                assert(doc@.tags[name@] == entry@);
            }
            if entry.pushed_at == pushed_at {
                gone.push(name.clone());
                proof {
                    assert(text::views(gone@) =~= before.push(name@));
                }
            }
        }
        proof {
            assert(all.take(i + 1) =~= all.take(i as int).push(all[i as int]));
            assert forall|t: Seq<char>| #[trigger] text::views(gone@).contains(t)
                <==> still_given_up(doc@, all.take(i + 1)).contains(t) by {
                text::contains_push(before, name@, t);
                text::contains_push(
                    all.take(i as int),
                    all[i as int],
                    (t, doc@.tags[t].pushed_at),
                );
                assert(before.contains(t) <==> still_given_up(doc@, all.take(i as int)).contains(
                    t,
                ));
            }
        }
        i += 1;
    }
    proof {
        assert(all.take(i as int) =~= all);
        assert(text::views(gone@).to_set() =~= still_given_up(doc@, all));
    }
    gone
}

/// The digests that tags of an index point at.
fn tagged_digests(doc: &IndexDoc) -> (r: StringHashSet)
    ensures
        forall|d: Seq<char>| #[trigger] r@.contains(d) <==> is_tagged(doc@, d),
{
    let n = doc.tags.len();
    let ghost keys = doc.tags.keys();
    let mut r = StringHashSet::new();
    let mut i: usize = 0;
    while i < n
        invariant
            i <= n,
            n == keys.len(),
            keys == doc.tags.keys(),
            doc.tags@ == table::paired(keys, doc.tags.values()),
            forall|d: Seq<char>|
                #[trigger] r@.contains(d) <==> exists|j: int|
                    0 <= j < i && doc@.tags[#[trigger] keys[j]].digest == d,
        decreases n - i,
    {
        let ghost before = r@;
        let entry = doc.tags.value_at(i);
        proof {
            assert(doc@.tags[keys[i as int]] == entry@);
        }
        r.insert(entry.digest.clone());
        proof {
            assert forall|d: Seq<char>| #[trigger] r@.contains(d) <==> exists|j: int|
                0 <= j < i + 1 && doc@.tags[#[trigger] keys[j]].digest == d by {
                if before.contains(d) {
                    let j = choose|j: int| 0 <= j < i && doc@.tags[#[trigger] keys[j]].digest == d;
                    assert(doc@.tags[keys[j]].digest == d);
                }
                if exists|j: int| 0 <= j < i + 1 && doc@.tags[#[trigger] keys[j]].digest == d {
                    let j = choose|j: int|
                        0 <= j < i + 1 && doc@.tags[#[trigger] keys[j]].digest == d;
                    if j < i {
                        assert(before.contains(d));
                    }
                }
            }
        }
        i += 1;
    }
    proof {
        assert forall|d: Seq<char>| #[trigger] r@.contains(d) <==> is_tagged(doc@, d) by {
            if r@.contains(d) {
                let j = choose|j: int| 0 <= j < i && doc@.tags[#[trigger] keys[j]].digest == d;
                assert(doc@.tags.contains_key(keys[j]));
            }
            if is_tagged(doc@, d) {
                let t = choose|t: Seq<char>|
                    #[trigger] doc@.tags.contains_key(t) && doc@.tags[t].digest == d;
                assert(keys.contains(t));
                assert(doc@.tags[keys[keys.index_of(t)]].digest == d);
            }
        }
    }
    r
}

/// The digests among `digests` that a collection does not leave alone.
fn find_exposed(doc: &IndexDoc, digests: &Vec<String>, cutoff: i64) -> (r: Vec<String>)
    ensures
        forall|d: Seq<char>|
            #[trigger] text::views(r@).contains(d) <==> doc@.manifests.contains_key(d)
                && !left_alone(doc@, text::views(digests@), cutoff, d),
{
    let tagged = tagged_digests(doc);
    let ghost all = text::views(digests@);
    let mut r: Vec<String> = Vec::new();
    let mut i: usize = 0;
    while i < digests.len()
        invariant
            i <= digests@.len(),
            all == text::views(digests@),
            forall|d: Seq<char>| #[trigger] tagged@.contains(d) <==> is_tagged(doc@, d),
            forall|d: Seq<char>|
                #[trigger] text::views(r@).contains(d) <==> doc@.manifests.contains_key(d)
                    && !left_alone(doc@, all.take(i as int), cutoff, d),
        decreases digests@.len() - i,
    {
        let ghost before = text::views(r@);
        let x = &digests[i];
        if let Some(entry) = doc.manifests.get(x.as_str()) {
            proof {
                assert(doc@.manifests[x@] == entry@);
            }
            if entry.created_at <= cutoff && !tagged.contains(x.as_str()) {
                r.push(x.clone());
                proof {
                    assert(text::views(r@) =~= before.push(x@));
                }
            }
        }
        proof {
            assert(all.take(i + 1) =~= all.take(i as int).push(x@));
            assert forall|d: Seq<char>| #[trigger] text::views(r@).contains(d)
                <==> doc@.manifests.contains_key(d) && !left_alone(
                doc@,
                all.take(i + 1),
                cutoff,
                d,
            ) by {
                text::contains_push(before, x@, d);
                text::contains_push(all.take(i as int), x@, d);
                assert(tagged@.contains(d) <==> is_tagged(doc@, d));
                assert(before.contains(d) <==> doc@.manifests.contains_key(d) && !left_alone(
                    doc@,
                    all.take(i as int),
                    cutoff,
                    d,
                ));
            }
        }
        i += 1;
    }
    proof {
        assert(all.take(i as int) =~= all);
    }
    r
}

/// Something that the index has and that is not in `gone` keeps `d`.
spec fn kept_from(doc: IndexView, gone: Set<Seq<char>>, d: Seq<char>) -> bool {
    exists|a: Seq<char>| #[trigger] entry_keeps(doc, a, d) && !gone.contains(a)
}

/// What the entries of an index that are not in `gone` list.
fn listed_outside(doc: &IndexDoc, gone: &StringHashSet) -> (r: StringHashSet)
    ensures
        forall|d: Seq<char>|
            #[trigger] r@.contains(d) <==> exists|a: Seq<char>|
                #[trigger] doc@.manifests.contains_key(a) && !gone@.contains(a)
                    && doc@.manifests[a].manifest_refs.contains(d),
{
    let n = doc.manifests.len();
    let ghost keys = doc.manifests.keys();
    let mut r = StringHashSet::new();
    let mut i: usize = 0;
    while i < n
        invariant
            i <= n,
            n == keys.len(),
            keys == doc.manifests.keys(),
            doc.manifests@ == table::paired(keys, doc.manifests.values()),
            forall|d: Seq<char>|
                #[trigger] r@.contains(d) <==> exists|j: int|
                    0 <= j < i && !gone@.contains(#[trigger] keys[j])
                        && doc@.manifests[keys[j]].manifest_refs.contains(d),
        decreases n - i,
    {
        let ghost start = r@;
        let key = doc.manifests.key_at(i);
        let entry = doc.manifests.value_at(i);
        let ghost list = entry@.manifest_refs;
        let stays = !gone.contains(key.as_str());
        proof {
            assert(doc@.manifests[keys[i as int]] == entry@);
        }
        if stays {
            let mut c: usize = 0;
            while c < entry.manifest_refs.len()
                invariant
                    c <= entry.manifest_refs@.len(),
                    list == text::views(entry.manifest_refs@),
                    forall|d: Seq<char>|
                        #[trigger] r@.contains(d) <==> start.contains(d) || list.take(
                            c as int,
                        ).contains(d),
                decreases entry.manifest_refs@.len() - c,
            {
                let ghost before = r@;
                r.insert(entry.manifest_refs[c].clone());
                proof {
                    assert(list.take(c + 1) =~= list.take(c as int).push(list[c as int]));
                    assert forall|d: Seq<char>| #[trigger] r@.contains(d) <==> start.contains(d)
                        || list.take(c + 1).contains(d) by {
                        text::contains_push(list.take(c as int), list[c as int], d);
                        assert(before.contains(d) <==> start.contains(d) || list.take(
                            c as int,
                        ).contains(d));
                    }
                }
                c += 1;
            }
            proof {
                assert(list.take(c as int) =~= list);
            }
        }
        proof {
            assert forall|d: Seq<char>| #[trigger] r@.contains(d) <==> exists|j: int|
                0 <= j < i + 1 && !gone@.contains(#[trigger] keys[j])
                    && doc@.manifests[keys[j]].manifest_refs.contains(d) by {
                if start.contains(d) {
                    let j = choose|j: int|
                        0 <= j < i && !gone@.contains(#[trigger] keys[j])
                            && doc@.manifests[keys[j]].manifest_refs.contains(d);
                    assert(!gone@.contains(keys[j]));
                }
                if stays && list.contains(d) {
                    assert(!gone@.contains(keys[i as int]));
                }
                if exists|j: int|
                    0 <= j < i + 1 && !gone@.contains(#[trigger] keys[j])
                        && doc@.manifests[keys[j]].manifest_refs.contains(d) {
                    let j = choose|j: int|
                        0 <= j < i + 1 && !gone@.contains(#[trigger] keys[j])
                            && doc@.manifests[keys[j]].manifest_refs.contains(d);
                    if j < i {
                        assert(start.contains(d));
                    }
                }
            }
        }
        i += 1;
    }
    proof {
        assert forall|d: Seq<char>| #[trigger] r@.contains(d) <==> exists|a: Seq<char>|
            #[trigger] doc@.manifests.contains_key(a) && !gone@.contains(a)
                && doc@.manifests[a].manifest_refs.contains(d) by {
            if r@.contains(d) {
                let j = choose|j: int|
                    0 <= j < i && !gone@.contains(#[trigger] keys[j])
                        && doc@.manifests[keys[j]].manifest_refs.contains(d);
                assert(doc@.manifests.contains_key(keys[j]));
            }
            if exists|a: Seq<char>|
                #[trigger] doc@.manifests.contains_key(a) && !gone@.contains(a)
                    && doc@.manifests[a].manifest_refs.contains(d) {
                let a = choose|a: Seq<char>|
                    #[trigger] doc@.manifests.contains_key(a) && !gone@.contains(a)
                        && doc@.manifests[a].manifest_refs.contains(d);
                assert(keys.contains(a));
                assert(!gone@.contains(keys[keys.index_of(a)]));
            }
        }
    }
    r
}

/// Leaves of `gone` what nothing outside it keeps.
fn narrowed(doc: &IndexDoc, gone: &Vec<String>) -> (r: Vec<String>)
    requires
        forall|d: Seq<char>|
            #[trigger] text::views(gone@).contains(d) ==> doc@.manifests.contains_key(d),
    ensures
        forall|d: Seq<char>|
            #[trigger] text::views(r@).contains(d) <==> text::views(gone@).contains(d)
                && !kept_from(doc@, text::views(gone@).to_set(), d),
        r@.len() <= gone@.len(),
        r@.len() == gone@.len() ==> text::views(r@) == text::views(gone@),
{
    let set = text::set_of(gone);
    let listed = listed_outside(doc, &set);
    let ghost all = text::views(gone@);
    let mut r: Vec<String> = Vec::new();
    let mut i: usize = 0;
    proof {
        assert(text::views(r@) =~= all.take(0));
    }
    while i < gone.len()
        invariant
            i <= gone@.len(),
            all == text::views(gone@),
            set@ == all.to_set(),
            forall|d: Seq<char>|
                #[trigger] all.contains(d) ==> doc@.manifests.contains_key(d),
            forall|d: Seq<char>|
                #[trigger] listed@.contains(d) <==> exists|a: Seq<char>|
                    #[trigger] doc@.manifests.contains_key(a) && !set@.contains(a)
                        && doc@.manifests[a].manifest_refs.contains(d),
            forall|d: Seq<char>|
                #[trigger] text::views(r@).contains(d) <==> all.take(i as int).contains(d)
                    && !kept_from(doc@, set@, d),
            r@.len() <= i,
            r@.len() == i ==> text::views(r@) == all.take(i as int),
        decreases gone@.len() - i,
    {
        let ghost before = text::views(r@);
        let x = &gone[i];
        proof {
            assert(all.contains(all[i as int]));
        }
        let below = match doc.manifests.get(x.as_str()) {
            Some(entry) => match &entry.subject {
                Some(s) => doc.manifests.contains_key(s.as_str()) && !set.contains(s.as_str()),
                None => false,
            },
            None => false,
        };
        let hit = !below && !listed.contains(x.as_str());
        proof {
            kept_in_one_of_two_ways(doc@, set@, x@);
            assert(listed@.contains(x@) <==> exists|a: Seq<char>|
                #[trigger] doc@.manifests.contains_key(a) && !set@.contains(a)
                    && doc@.manifests[a].manifest_refs.contains(x@));
        }
        if hit {
            r.push(x.clone());
            proof {
                assert(text::views(r@) =~= before.push(x@));
            }
        }
        proof {
            assert(all.take(i + 1) =~= all.take(i as int).push(x@));
            assert forall|d: Seq<char>| #[trigger] text::views(r@).contains(d) <==> all.take(
                i + 1,
            ).contains(d) && !kept_from(doc@, set@, d) by {
                text::contains_push(before, x@, d);
                text::contains_push(all.take(i as int), x@, d);
                assert(before.contains(d) <==> all.take(i as int).contains(d) && !kept_from(
                    doc@,
                    set@,
                    d,
                ));
            }
        }
        i += 1;
    }
    proof {
        assert(all.take(i as int) =~= all);
    }
    r
}

proof fn kept_in_one_of_two_ways(doc: IndexView, gone: Set<Seq<char>>, d: Seq<char>)
    requires
        doc.manifests.contains_key(d),
    ensures
        kept_from(doc, gone, d) <==> {
            ||| doc.manifests[d].subject matches Some(s) && doc.manifests.contains_key(s)
                && !gone.contains(s)
            ||| exists|a: Seq<char>|
                #[trigger] doc.manifests.contains_key(a) && !gone.contains(a)
                    && doc.manifests[a].manifest_refs.contains(d)
        },
{
    if kept_from(doc, gone, d) {
        let a = choose|a: Seq<char>| #[trigger] entry_keeps(doc, a, d) && !gone.contains(a);
        assert(doc.manifests.contains_key(a));
    }
    if let Some(s) = doc.manifests[d].subject {
        if doc.manifests.contains_key(s) && !gone.contains(s) {
            assert(entry_keeps(doc, s, d));
        }
    }
    if exists|a: Seq<char>|
        #[trigger] doc.manifests.contains_key(a) && !gone.contains(a)
            && doc.manifests[a].manifest_refs.contains(d) {
        let a = choose|a: Seq<char>|
            #[trigger] doc.manifests.contains_key(a) && !gone.contains(a)
                && doc.manifests[a].manifest_refs.contains(d);
        assert(entry_keeps(doc, a, d));
    }
}

proof fn keeping_spares(
    doc: IndexView,
    digests: Seq<Seq<char>>,
    cutoff: i64,
    a: Seq<char>,
    b: Seq<char>,
)
    requires
        spared(doc, digests, cutoff, a),
        entry_keeps(doc, a, b),
    ensures
        spared(doc, digests, cutoff, b),
{
    let n = choose|n: nat| spared_within(doc, digests, cutoff, a, n);
    assert(spared_within(doc, digests, cutoff, a, ((n + 1) - 1) as nat));
    assert(spared_within(doc, digests, cutoff, b, n + 1));
}

/// What is left where nothing outside keeps anything inside is not spared.
proof fn nothing_left_is_spared(
    doc: IndexView,
    digests: Seq<Seq<char>>,
    cutoff: i64,
    gone: Set<Seq<char>>,
    d: Seq<char>,
    n: nat,
)
    requires
        forall|x: Seq<char>|
            #[trigger] gone.contains(x) ==> !left_alone(doc, digests, cutoff, x) && !kept_from(
                doc,
                gone,
                x,
            ),
        spared_within(doc, digests, cutoff, d, n),
    ensures
        !gone.contains(d),
    decreases n,
{
    if gone.contains(d) {
        let a = choose|a: Seq<char>|
            #[trigger] entry_keeps(doc, a, d) && spared_within(
                doc,
                digests,
                cutoff,
                a,
                (n - 1) as nat,
            );
        nothing_left_is_spared(doc, digests, cutoff, gone, a, (n - 1) as nat);
        assert(entry_keeps(doc, a, d));
    }
}

/// What a collection takes out of an index: what it exposes, less what the rest keeps.
fn find_collected(doc: &IndexDoc, digests: &Vec<String>, cutoff: i64) -> (gone: Vec<String>)
    ensures
        text::views(gone@).to_set() == collected(doc@, text::views(digests@), cutoff),
{
    let ghost all = text::views(digests@);
    let mut gone = find_exposed(doc, digests, cutoff);
    proof {
        assert forall|d: Seq<char>| doc@.manifests.contains_key(d) && !text::views(
            gone@,
        ).contains(d) implies #[trigger] spared(doc@, all, cutoff, d) by {
            assert(spared_within(doc@, all, cutoff, d, 0));
        }
    }
    loop
        invariant_except_break
            all == text::views(digests@),
            forall|d: Seq<char>|
                #[trigger] text::views(gone@).contains(d) ==> doc@.manifests.contains_key(d)
                    && !left_alone(doc@, all, cutoff, d),
            forall|d: Seq<char>|
                doc@.manifests.contains_key(d) && !text::views(gone@).contains(d)
                    ==> #[trigger] spared(doc@, all, cutoff, d),
        ensures
            all == text::views(digests@),
            forall|d: Seq<char>|
                #[trigger] text::views(gone@).contains(d) ==> doc@.manifests.contains_key(d)
                    && !left_alone(doc@, all, cutoff, d),
            forall|d: Seq<char>|
                doc@.manifests.contains_key(d) && !text::views(gone@).contains(d)
                    ==> #[trigger] spared(doc@, all, cutoff, d),
            forall|d: Seq<char>|
                #[trigger] text::views(gone@).contains(d) ==> !kept_from(
                    doc@,
                    text::views(gone@).to_set(),
                    d,
                ),
        decreases gone@.len(),
    {
        let less = narrowed(doc, &gone);
        let ghost before = text::views(gone@);
        let done = less.len() == gone.len();
        proof {
            assert forall|d: Seq<char>| doc@.manifests.contains_key(d) && !text::views(
                less@,
            ).contains(d) implies #[trigger] spared(doc@, all, cutoff, d) by {
                if before.contains(d) {
                    let a = choose|a: Seq<char>|
                        #[trigger] entry_keeps(doc@, a, d) && !before.to_set().contains(a);
                    assert(!before.contains(a));
                    assert(spared(doc@, all, cutoff, a));
                    keeping_spares(doc@, all, cutoff, a, d);
                }
            }
        }
        gone = less;
        if done {
            break;
        }
    }
    proof {
        let set = text::views(gone@).to_set();
        assert forall|d: Seq<char>| set.contains(d) == collected(doc@, all, cutoff).contains(d) by {
            if set.contains(d) && spared(doc@, all, cutoff, d) {
                let n = choose|n: nat| spared_within(doc@, all, cutoff, d, n);
                assert forall|x: Seq<char>| #[trigger] set.contains(x) implies !left_alone(
                    doc@,
                    all,
                    cutoff,
                    x,
                ) && !kept_from(doc@, set, x) by {
                    assert(text::views(gone@).contains(x));
                }
                nothing_left_is_spared(doc@, all, cutoff, set, d, n);
            }
        }
        assert(set =~= collected(doc@, all, cutoff));
    }
    gone
}

impl Mutation {
    /// Carries the change out on an index; a change that is refused leaves it as it was.
    pub fn apply(&self, doc: &mut IndexDoc, now: i64) -> (r: Result<LogInfo, String>)
        ensures
            match (r, changed(self@, old(doc)@, now)) {
                (Ok(info), Ok((after, log))) => final(doc)@ == after && info@ == log,
                (Err(msg), Err(why)) => final(doc)@ == old(doc)@ && msg@ == why,
                _ => false,
            },
    {
        match self {
            Mutation::Push { digest, entry, tag } => {
                let i = find_missing(&*doc, &entry.manifest_refs);
                if i < entry.manifest_refs.len() {
                    let mut msg = "manifest ".to_owned();
                    msg.append(entry.manifest_refs[i].as_str());
                    msg.append(" not found in repository");
                    return Err(msg);
                }
                let copy = entry.clone();
                proof {
                    table::mapped_insert(
                        doc.manifests@,
                        |e: ManifestEntry| e@,
                        digest@,
                        copy,
                    );
                }
                doc.manifests.insert(digest.clone(), copy);
                if let Some(t) = tag {
                    let te = TagEntry { digest: digest.clone(), pushed_at: now };
                    proof {
                        table::mapped_insert(doc.tags@, |e: TagEntry| e@, t@, te);
                    }
                    doc.tags.insert(t.clone(), te);
                }
                Ok(
                    LogInfo {
                        action: "push",
                        tag: text::clone_opt(tag),
                        digest: Some(digest.clone()),
                    },
                )
            },
            Mutation::DeleteManifest(d) => {
                proof {
                    table::mapped_remove(doc.manifests@, |e: ManifestEntry| e@, d@);
                }
                match doc.manifests.remove(d.as_str()) {
                    None => {
                        proof {
                            assert(doc@ =~= old(doc)@);
                        }
                        Err("manifest unknown".to_owned())
                    },
                    Some(_) => {
                        drop_tags_of(&mut doc.tags, d.as_str());
                        Ok(
                            LogInfo {
                                action: "delete-manifest",
                                tag: None,
                                digest: Some(d.clone()),
                            },
                        )
                    },
                }
            },
            Mutation::DeleteTag(t) => {
                proof {
                    table::mapped_remove(doc.tags@, |e: TagEntry| e@, t@);
                }
                match doc.tags.remove(t.as_str()) {
                    None => {
                        proof {
                            assert(doc@ =~= old(doc)@);
                        }
                        Err("tag unknown".to_owned())
                    },
                    Some(_) => Ok(
                        LogInfo { action: "delete-tag", tag: Some(t.clone()), digest: None },
                    ),
                }
            },
            Mutation::Collect { digests, cutoff } => {
                let gone = find_collected(&*doc, digests, *cutoff);
                proof {
                    table::mapped_remove_keys(
                        doc.manifests@,
                        |e: ManifestEntry| e@,
                        text::views(gone@).to_set(),
                    );
                }
                doc.manifests.remove_all(&gone);
                Ok(LogInfo { action: "gc", tag: None, digest: None })
            },
            Mutation::Untag(ts) => {
                let gone = find_given_up(&*doc, ts);
                proof {
                    table::mapped_remove_keys(
                        doc.tags@,
                        |e: TagEntry| e@,
                        text::views(gone@).to_set(),
                    );
                }
                doc.tags.remove_all(&gone);
                Ok(LogInfo { action: "retention", tag: None, digest: None })
            },
        }
    }
}

/// What is to be written: the new index, the entity tag of the one that it replaces, and what
/// the log says of the change.
pub struct Proposal {
    pub doc: IndexDoc,
    pub etag: Option<String>,
    pub info: LogInfo,
}

/// The index that a change starts from.
pub open spec fn base_index(found: Option<(IndexDoc, String)>) -> IndexView {
    match found {
        Some((doc, _)) => doc@,
        None => empty_index(),
    }
}

/// The entity tag that a change replaces.
pub open spec fn base_etag(found: Option<(IndexDoc, String)>) -> Option<Seq<char>> {
    match found {
        Some((_, etag)) => Some(etag@),
        None => None,
    }
}

/// Carries a change out on the index that was found, as one attempt at a compare-and-swap:
/// the version goes up by one, and what is written replaces exactly what was found.
pub fn mutate(found: Option<(IndexDoc, String)>, change: &Mutation, now: i64) -> (r: Result<
    Proposal,
    String,
>)
    requires
        base_index(found).version < i64::MAX,
    ensures
        match (r, changed(change@, base_index(found), now)) {
            (Ok(p), Ok((after, log))) => {
                &&& Some(p.doc@) == written(base_index(found), change@, now)
                &&& text::opt_view(p.etag) == base_etag(found)
                &&& p.info@ == log
            },
            (Err(msg), Err(why)) => msg@ == why,
            _ => false,
        },
        r matches Ok(p) ==> match found {
            Some((doc, etag)) => p.doc.version == doc.version + 1 && text::opt_view(p.etag) == Some(
                etag@,
            ),
            None => p.doc.version == 1 && p.etag is None,
        },
{
    let (mut doc, etag) = match found {
        Some((doc, etag)) => (doc, Some(etag)),
        None => (IndexDoc::default(), None),
    };
    match change.apply(&mut doc, now) {
        Err(msg) => Err(msg),
        Ok(info) => {
            doc.version = doc.version + 1;
            Ok(Proposal { doc, etag, info })
        },
    }
}

/// An entry of the log.
#[derive(Debug)]
pub struct LogEntry {
    pub key: String,
    pub version: i64,
    pub action: &'static str,
    pub tag: Option<String>,
    pub digest: Option<String>,
    pub by: Option<String>,
    pub at: i64,
}

#[verifier::ext_equal]
pub struct LogEntryView {
    pub key: Seq<char>,
    pub version: i64,
    pub action: Seq<char>,
    pub tag: Option<Seq<char>>,
    pub digest: Option<Seq<char>>,
    pub by: Option<Seq<char>>,
    pub at: i64,
}

impl View for LogEntry {
    type V = LogEntryView;

    open spec fn view(&self) -> LogEntryView {
        LogEntryView {
            key: self.key@,
            version: self.version,
            action: self.action@,
            tag: text::opt_view(self.tag),
            digest: text::opt_view(self.digest),
            by: text::opt_view(self.by),
            at: self.at,
        }
    }
}

/// What follows a compare-and-swap.
pub enum Settled {
    /// The change stands; its log entry is to be written, and the cache brought up to date
    /// under this entity tag.
    Accepted(LogEntry, String),
    /// Another writer was first: wait so many milliseconds, then start over.
    Retry(u64),
    /// It is too late to start over.
    GivenUp(String),
}

/// How long to wait after so many conflicts in a row: longer each time up to a bound, and a
/// little more by the clock so that competing writers fall out of step.
pub open spec fn backoff(conflicts: int, nanos: int) -> int {
    (if conflicts * 15 < 200 {
        conflicts * 15
    } else {
        200
    }) + nanos % 47
}

/// How long to wait after so many conflicts in a row.
pub fn backoff_millis(conflicts: u64, nanos: u32) -> (ms: u64)
    ensures
        ms == backoff(conflicts as int, nanos as int),
{
    let base: u64 = if conflicts < 14 {
        conflicts * 15
    } else {
        200
    };
    base + (nanos % 47) as u64
}

/// The message about an object that other writers keep changing.
pub open spec fn no_convergence(what: Seq<char>) -> Seq<char> {
    "CAS on "@ + what + " did not converge before deadline"@
}

/// What follows a write that another writer was ahead of.
pub enum Conflicted {
    /// Wait so many milliseconds, then start over.
    Retry(u64),
    /// It is too late to start over.
    GivenUp(String),
}

/// Decides what follows a conflict on `what`: `conflicts` counts those so far, this one among
/// them, and `expired` says whether the deadline has passed.
pub fn after_conflict(what: &str, conflicts: u64, expired: bool, nanos: u32) -> (r: Conflicted)
    ensures
        match r {
            Conflicted::Retry(ms) => !expired && ms == backoff(conflicts as int, nanos as int),
            Conflicted::GivenUp(msg) => expired && msg@ == no_convergence(what@),
        },
        r matches Conflicted::GivenUp(msg) ==> msg@ == "CAS on "@ + what@
            + " did not converge before deadline"@,
{
    if expired {
        let mut msg = "CAS on ".to_owned();
        msg.append(what);
        msg.append(" did not converge before deadline");
        Conflicted::GivenUp(msg)
    } else {
        Conflicted::Retry(backoff_millis(conflicts, nanos))
    }
}

/// Decides what follows a compare-and-swap: `conflicts` counts those so far, this one among
/// them, and `expired` says whether the deadline has passed.
pub fn settle(
    outcome: Cas,
    proposal: &Proposal,
    repo: &str,
    by: Option<&str>,
    now: i64,
    conflicts: u64,
    expired: bool,
    nanos: u32,
) -> (r: Settled)
    ensures
        match (outcome, r) {
            (Cas::Swapped(etag), Settled::Accepted(entry, tag)) => tag@ == etag@ && entry@ == (
            LogEntryView {
                key: log_key_of(repo@, proposal.doc.version as int),
                version: proposal.doc.version,
                action: proposal.info@.action,
                tag: proposal.info@.tag,
                digest: proposal.info@.digest,
                by: text::opt_str(by),
                at: now,
            }),
            (Cas::Conflict, Settled::GivenUp(msg)) => expired && msg@ == no_convergence(repo@),
            (Cas::Conflict, Settled::Retry(ms)) => !expired && ms == backoff(
                conflicts as int,
                nanos as int,
            ),
            _ => false,
        },
{
    match outcome {
        Cas::Swapped(etag) => Settled::Accepted(
            LogEntry {
                key: log_key(repo, proposal.doc.version),
                version: proposal.doc.version,
                action: proposal.info.action,
                tag: text::clone_opt(&proposal.info.tag),
                digest: text::clone_opt(&proposal.info.digest),
                by: match by {
                    Some(b) => Some(b.to_owned()),
                    None => None,
                },
                at: now,
            },
            etag,
        ),
        Cas::Conflict => match after_conflict(repo, conflicts, expired, nanos) {
            Conflicted::Retry(ms) => Settled::Retry(ms),
            Conflicted::GivenUp(msg) => Settled::GivenUp(msg),
        },
    }
}

/// A manifest that was pushed is in the index with what was recorded of it, its tag points at
/// it, and the rest of the index is as it was.
pub proof fn a_push_is_recorded(
    doc: IndexView,
    digest: Seq<char>,
    entry: ManifestEntryView,
    tag: Option<Seq<char>>,
    now: i64,
)
    requires
        forall|i: int|
            0 <= i < entry.manifest_refs.len() ==> doc.manifests.contains_key(
                #[trigger] entry.manifest_refs[i],
            ),
    ensures
        changed(MutationView::Push { digest, entry, tag }, doc, now) matches Ok((after, log)) && {
            &&& after.manifests.contains_key(digest)
            &&& after.manifests[digest] == entry
            &&& tag matches Some(t) ==> after.tags.contains_key(t) && after.tags[t].digest == digest
            &&& forall|d: Seq<char>|
                d != digest ==> (#[trigger] after.manifests.contains_key(d)
                    == doc.manifests.contains_key(d)) && (doc.manifests.contains_key(d)
                    ==> after.manifests[d] == doc.manifests[d])
            &&& forall|t: Seq<char>|
                Some(t) != tag ==> (#[trigger] after.tags.contains_key(t) == doc.tags.contains_key(
                    t,
                )) && (doc.tags.contains_key(t) ==> after.tags[t] == doc.tags[t])
        },
{
    all_present(doc, entry.manifest_refs);
}

proof fn all_present(doc: IndexView, children: Seq<Seq<char>>)
    ensures
        0 <= first_missing(doc, children) <= children.len(),
        (forall|i: int|
            0 <= i < children.len() ==> doc.manifests.contains_key(#[trigger] children[i]))
            ==> first_missing(doc, children) == children.len(),
        first_missing(doc, children) < children.len() ==> !doc.manifests.contains_key(
            children[first_missing(doc, children)],
        ),
        forall|i: int|
            0 <= i < first_missing(doc, children) ==> doc.manifests.contains_key(
                #[trigger] children[i],
            ),
    decreases children.len(),
{
    if children.len() > 0 && doc.manifests.contains_key(children[0]) {
        let rest = children.skip(1);
        all_present(doc, rest);
        assert forall|i: int| 0 <= i < first_missing(
            doc,
            children,
        ) implies doc.manifests.contains_key(#[trigger] children[i]) by {
            if i > 0 {
                assert(rest[i - 1] == children[i]);
            }
        }
        if forall|i: int|
            0 <= i < children.len() ==> doc.manifests.contains_key(#[trigger] children[i]) {
            assert forall|i: int| 0 <= i < rest.len() implies doc.manifests.contains_key(
                #[trigger] rest[i],
            ) by {
                assert(rest[i] == children[i + 1]);
            }
        }
    } else if children.len() > 0 {
        if forall|i: int|
            0 <= i < children.len() ==> doc.manifests.contains_key(#[trigger] children[i]) {
            assert(doc.manifests.contains_key(children[0]));
        }
    }
}

/// A push is refused exactly when a child manifest is not in the index, and then by naming
/// one that is not.
pub proof fn a_push_needs_its_children(
    doc: IndexView,
    digest: Seq<char>,
    entry: ManifestEntryView,
    tag: Option<Seq<char>>,
    now: i64,
)
    ensures
        changed(MutationView::Push { digest, entry, tag }, doc, now) is Err <==> exists|i: int|
            0 <= i < entry.manifest_refs.len() && !doc.manifests.contains_key(
                #[trigger] entry.manifest_refs[i],
            ),
        changed(MutationView::Push { digest, entry, tag }, doc, now) matches Err(why)
            ==> exists|i: int|
            0 <= i < entry.manifest_refs.len() && !doc.manifests.contains_key(
                #[trigger] entry.manifest_refs[i],
            ) && why == missing_manifest(entry.manifest_refs[i]),
{
    all_present(doc, entry.manifest_refs);
    let k = first_missing(doc, entry.manifest_refs);
    if k < entry.manifest_refs.len() {
        assert(!doc.manifests.contains_key(entry.manifest_refs[k]));
    }
}

/// A manifest that was deleted is gone with every tag that pointed at it, and no other tag is.
pub proof fn a_deleted_manifest_is_gone(doc: IndexView, digest: Seq<char>, now: i64)
    requires
        doc.manifests.contains_key(digest),
    ensures
        changed(MutationView::DeleteManifest(digest), doc, now) matches Ok((after, log)) && {
            &&& !after.manifests.contains_key(digest)
            &&& forall|t: Seq<char>|
                #[trigger] after.tags.contains_key(t) <==> doc.tags.contains_key(t)
                    && doc.tags[t].digest != digest
            &&& forall|t: Seq<char>|
                #[trigger] after.tags.contains_key(t) ==> after.tags[t] == doc.tags[t]
        },
{
}

/// A tag that was deleted is gone; its manifest and every other tag stay.
pub proof fn a_deleted_tag_is_gone(doc: IndexView, tag: Seq<char>, now: i64)
    requires
        doc.tags.contains_key(tag),
    ensures
        changed(MutationView::DeleteTag(tag), doc, now) matches Ok((after, log)) && {
            &&& !after.tags.contains_key(tag)
            &&& after.manifests == doc.manifests
            &&& forall|t: Seq<char>|
                t != tag ==> (#[trigger] after.tags.contains_key(t) == doc.tags.contains_key(t))
                    && (doc.tags.contains_key(t) ==> after.tags[t] == doc.tags[t])
        },
{
}

/// Every tag of an index points at a manifest of the index.
pub open spec fn tags_resolve(doc: IndexView) -> bool {
    forall|t: Seq<char>|
        #[trigger] doc.tags.contains_key(t) ==> doc.manifests.contains_key(doc.tags[t].digest)
}

/// Every change keeps the tags of an index pointing at its manifests.
pub proof fn changes_keep_tags_resolved(m: MutationView, doc: IndexView, now: i64)
    requires
        tags_resolve(doc),
    ensures
        tags_resolve(empty_index()),
        changed(m, doc, now) matches Ok((after, log)) ==> tags_resolve(after),
{
    if let Ok((after, log)) = changed(m, doc, now) {
        assert forall|t: Seq<char>| #[trigger] after.tags.contains_key(t) implies 
            after.manifests.contains_key(after.tags[t].digest) by {
            match m {
                MutationView::Push { digest, entry, tag } => {
                    if Some(t) != tag {
                        assert(doc.tags.contains_key(t));
                    }
                },
                MutationView::DeleteManifest(d) => {
                    assert(doc.tags.contains_key(t));
                },
                MutationView::DeleteTag(x) => {
                    assert(doc.tags.contains_key(t));
                },
                MutationView::Collect { digests, cutoff } => {
                    let d = doc.tags[t].digest;
                    assert(doc.tags.contains_key(t));
                    assert(is_tagged(doc, d));
                    assert(spared_within(doc, digests, cutoff, d, 0));
                },
                MutationView::Untag(ts) => {
                    assert(doc.tags.contains_key(t));
                },
            }
        }
    }
}

/// Whatever the index has become since the digests were chosen, a collection takes only chosen
/// entries that were created at the cutoff at the latest, that no tag points at, that no entry
/// which remains lists and whose subject does not remain. Everything else is as it was.
pub proof fn a_collection_takes_only_what_nothing_keeps(
    doc: IndexView,
    digests: Seq<Seq<char>>,
    cutoff: i64,
    now: i64,
    d: Seq<char>,
)
    requires
        doc.manifests.contains_key(d),
    ensures
        changed(MutationView::Collect { digests, cutoff }, doc, now) matches Ok((after, log)) && {
            &&& after.tags == doc.tags
            &&& after.manifests.contains_key(d) ==> after.manifests[d] == doc.manifests[d]
            &&& !after.manifests.contains_key(d) ==> {
                &&& digests.contains(d)
                &&& doc.manifests[d].created_at <= cutoff
                &&& !is_tagged(doc, d)
                &&& forall|a: Seq<char>|
                    #[trigger] after.manifests.contains_key(a)
                        ==> !after.manifests[a].manifest_refs.contains(d)
                &&& doc.manifests[d].subject matches Some(s) ==> !after.manifests.contains_key(s)
            }
        },
{
    let gone = collected(doc, digests, cutoff);
    let after = doc.manifests.remove_keys(gone);
    if !after.contains_key(d) {
        assert(!spared_within(doc, digests, cutoff, d, 0));
        assert forall|a: Seq<char>| #[trigger] after.contains_key(
            a,
        ) implies !after[a].manifest_refs.contains(d) by {
            if after[a].manifest_refs.contains(d) {
                assert(entry_keeps(doc, a, d));
                keeping_spares(doc, digests, cutoff, a, d);
            }
        }
        if let Some(s) = doc.manifests[d].subject {
            if after.contains_key(s) {
                assert(entry_keeps(doc, s, d));
                keeping_spares(doc, digests, cutoff, s, d);
            }
        }
    }
}

proof fn spared_within_is_least(
    doc: IndexView,
    digests: Seq<Seq<char>>,
    cutoff: i64,
    some: Set<Seq<char>>,
    d: Seq<char>,
    n: nat,
)
    requires
        forall|a: Seq<char>|
            #[trigger] left_alone(doc, digests, cutoff, a) ==> some.contains(a),
        forall|a: Seq<char>, b: Seq<char>|
            #![trigger entry_keeps(doc, a, b)]
            some.contains(a) && entry_keeps(doc, a, b) ==> some.contains(b),
        spared_within(doc, digests, cutoff, d, n),
    ensures
        some.contains(d),
    decreases n,
{
    if !left_alone(doc, digests, cutoff, d) {
        let a = choose|a: Seq<char>|
            #[trigger] entry_keeps(doc, a, d) && spared_within(
                doc,
                digests,
                cutoff,
                a,
                (n - 1) as nat,
            );
        spared_within_is_least(doc, digests, cutoff, some, a, (n - 1) as nat);
    }
}

/// A collection spares nothing else: a chosen entry outside some set that holds what the
/// collection leaves alone and whatever its members keep is taken.
pub proof fn a_collection_takes_the_rest(
    doc: IndexView,
    digests: Seq<Seq<char>>,
    cutoff: i64,
    now: i64,
    some: Set<Seq<char>>,
    d: Seq<char>,
)
    requires
        forall|a: Seq<char>|
            #[trigger] left_alone(doc, digests, cutoff, a) ==> some.contains(a),
        forall|a: Seq<char>, b: Seq<char>|
            #![trigger entry_keeps(doc, a, b)]
            some.contains(a) && entry_keeps(doc, a, b) ==> some.contains(b),
        !some.contains(d),
    ensures
        changed(MutationView::Collect { digests, cutoff }, doc, now) matches Ok((after, log))
            && !after.manifests.contains_key(d),
{
    if spared(doc, digests, cutoff, d) {
        let n = choose|n: nat| spared_within(doc, digests, cutoff, d, n);
        spared_within_is_least(doc, digests, cutoff, some, d, n);
    }
}

/// A push that was accepted loses nothing to a collection that was already under way: a
/// manifest created after the cutoff stays as it was recorded, with the manifests that it
/// lists, and its tag goes on pointing at it.
pub proof fn a_collection_spares_pushes_in_flight(
    doc: IndexView,
    digest: Seq<char>,
    entry: ManifestEntryView,
    tag: Option<Seq<char>>,
    at: i64,
    digests: Seq<Seq<char>>,
    cutoff: i64,
    now: i64,
)
    requires
        entry.created_at > cutoff,
        changed(MutationView::Push { digest, entry, tag }, doc, at) is Ok,
    ensures
        ({
            let pushed = changed(MutationView::Push { digest, entry, tag }, doc, at)->Ok_0.0;
            changed(MutationView::Collect { digests, cutoff }, pushed, now) matches Ok(
                (after, log),
            ) && {
                &&& after.manifests.contains_key(digest)
                &&& after.manifests[digest] == entry
                &&& tag matches Some(t) ==> after.tags.contains_key(t) && after.tags[t].digest
                    == digest
                &&& forall|i: int|
                    0 <= i < entry.manifest_refs.len() ==> after.manifests.contains_key(
                        #[trigger] entry.manifest_refs[i],
                    )
            }
        }),
{
    let pushed = changed(MutationView::Push { digest, entry, tag }, doc, at)->Ok_0.0;
    all_present(doc, entry.manifest_refs);
    assert(spared_within(pushed, digests, cutoff, digest, 0));
    assert forall|i: int| 0 <= i < entry.manifest_refs.len() implies !collected(
        pushed,
        digests,
        cutoff,
    ).contains(#[trigger] entry.manifest_refs[i]) by {
        let c = entry.manifest_refs[i];
        assert(pushed.manifests[digest].manifest_refs.contains(c));
        assert(doc.manifests.contains_key(c));
        assert(entry_keeps(pushed, digest, c));
        keeping_spares(pushed, digests, cutoff, digest, c);
    }
}

/// A tag goes exactly where it is still as it was pushed when a policy gave up on it, and no
/// manifest goes with it.
pub proof fn only_tags_as_given_up_go(
    doc: IndexView,
    ts: Seq<(Seq<char>, i64)>,
    now: i64,
    t: Seq<char>,
)
    ensures
        changed(MutationView::Untag(ts), doc, now) matches Ok((after, log)) && {
            &&& after.manifests == doc.manifests
            &&& after.tags.contains_key(t) <==> doc.tags.contains_key(t) && !ts.contains(
                (t, doc.tags[t].pushed_at),
            )
            &&& after.tags.contains_key(t) ==> after.tags[t] == doc.tags[t]
        },
{
}

/// A tag that was pushed anew since a policy gave up on it keeps its new entry.
pub proof fn a_repushed_tag_keeps_its_entry(
    doc: IndexView,
    digest: Seq<char>,
    entry: ManifestEntryView,
    tag: Seq<char>,
    at: i64,
    ts: Seq<(Seq<char>, i64)>,
    now: i64,
)
    requires
        changed(MutationView::Push { digest, entry, tag: Some(tag) }, doc, at) is Ok,
        !ts.contains((tag, at)),
    ensures
        ({
            let pushed = changed(
                MutationView::Push { digest, entry, tag: Some(tag) },
                doc,
                at,
            )->Ok_0.0;
            changed(MutationView::Untag(ts), pushed, now) matches Ok((after, log)) && {
                &&& after.tags.contains_key(tag)
                &&& after.tags[tag] == (TagEntryView { digest, pushed_at: at })
                &&& after.manifests.contains_key(digest)
                &&& after.manifests[digest] == entry
            }
        }),
{
}

/// No change touches the version: only an accepted compare-and-swap moves it, by one.
pub proof fn changes_keep_the_version(m: MutationView, doc: IndexView, now: i64)
    ensures
        changed(m, doc, now) matches Ok((after, log)) ==> after.version == doc.version,
{
}

/// A change carried out on an index and accepted: its version goes up by one.
pub open spec fn written(doc: IndexView, m: MutationView, now: i64) -> Option<IndexView> {
    match changed(m, doc, now) {
        Ok((after, _)) => Some(IndexView { version: (doc.version + 1) as i64, ..after }),
        Err(_) => None,
    }
}

/// The index after some accepted changes, one after the other.
pub open spec fn replayed(start: IndexView, writes: Seq<(MutationView, i64)>) -> Option<IndexView>
    decreases writes.len(),
{
    if writes.len() == 0 {
        Some(start)
    } else {
        match replayed(start, writes.drop_last()) {
            Some(doc) => written(doc, writes.last().0, writes.last().1),
            None => None,
        }
    }
}

/// An accepted write is the change carried out on the index as it is at that moment, not as it
/// was when the writer read it: the swap only takes place where the two have the same entity
/// tag. Here `read` is what the writer found, `current` what the write replaces, and the
/// entity tag tells different states apart.
pub proof fn accepted_writes_apply_to_the_current_index(
    read: Option<(IndexView, Seq<char>)>,
    current: Option<(IndexView, Seq<char>)>,
    m: MutationView,
    now: i64,
)
    requires
        objectstore::swap_allowed(
            match read {
                Some((_, e)) => Some(e),
                None => None,
            },
            match current {
                Some((_, e)) => Some(e),
                None => None,
            },
        ),
        match (read, current) {
            (Some((a, e)), Some((b, f))) => e == f ==> a == b,
            _ => true,
        },
    ensures
        ({
            let base = match read {
                Some((d, _)) => d,
                None => empty_index(),
            };
            let now_there = match current {
                Some((d, _)) => d,
                None => empty_index(),
            };
            written(base, m, now) == written(now_there, m, now)
        }),
{
}

/// The version of an index counts the writes that were accepted, so each of them has a log key
/// of its own.
pub proof fn versions_count_writes(start: IndexView, writes: Seq<(MutationView, i64)>)
    requires
        start.version + writes.len() <= i64::MAX,
    ensures
        replayed(start, writes) matches Some(doc) ==> doc.version == start.version + writes.len(),
    decreases writes.len(),
{
    if writes.len() > 0 {
        versions_count_writes(start, writes.drop_last());
        if let Some(doc) = replayed(start, writes.drop_last()) {
            changes_keep_the_version(writes.last().0, doc, writes.last().1);
        }
    }
}

/// A write of an index: what the writer read with its entity tag, the change that the writer
/// carries out on it, and the entity tag of what comes of it.
pub struct Attempt {
    pub read: (IndexView, Seq<char>),
    pub change: MutationView,
    pub at: i64,
    pub etag: Seq<char>,
}

/// The index and its entity tag after a write that was accepted; nothing where it was not.
pub open spec fn landed(current: (IndexView, Seq<char>), w: Attempt) -> Option<
    (IndexView, Seq<char>),
> {
    if objectstore::swap_allowed(Some(w.read.1), Some(current.1)) {
        match written(w.read.0, w.change, w.at) {
            Some(doc) => Some((doc, w.etag)),
            None => None,
        }
    } else {
        None
    }
}

/// The index and its entity tag after two writes that were accepted, one after the other.
pub open spec fn both_landed(
    start: (IndexView, Seq<char>),
    first: Attempt,
    second: Attempt,
) -> Option<(IndexView, Seq<char>)> {
    match landed(start, first) {
        Some(middle) => landed(middle, second),
        None => None,
    }
}

/// The entity tag that a writer read tells what was read from other states.
pub open spec fn tells_apart(w: Attempt, state: (IndexView, Seq<char>)) -> bool {
    w.read.1 == state.1 ==> w.read.0 == state.0
}

/// No update is lost: where two writers write at the same time and both are accepted, whatever
/// each of them read, the index is the one change and then the other carried out on what was
/// there before, in one order or the other, and its version went up by two. Entity tags tell
/// the states of the index apart.
pub proof fn no_update_is_lost(
    start: (IndexView, Seq<char>),
    f: Attempt,
    g: Attempt,
    end: (IndexView, Seq<char>),
)
    requires
        start.0.version + 2 <= i64::MAX,
        both_landed(start, f, g) == Some(end) || both_landed(start, g, f) == Some(end),
        tells_apart(f, start),
        tells_apart(g, start),
        landed(start, f) matches Some(s) ==> tells_apart(g, s),
        landed(start, g) matches Some(s) ==> tells_apart(f, s),
    ensures
        replayed(start.0, seq![(f.change, f.at), (g.change, g.at)]) == Some(end.0) || replayed(
            start.0,
            seq![(g.change, g.at), (f.change, f.at)],
        ) == Some(end.0),
        end.0.version == start.0.version + 2,
{
    if both_landed(start, f, g) == Some(end) {
        two_in_order(start, f, g, end);
    } else {
        two_in_order(start, g, f, end);
    }
}

proof fn two_in_order(
    start: (IndexView, Seq<char>),
    f: Attempt,
    g: Attempt,
    end: (IndexView, Seq<char>),
)
    requires
        start.0.version + 2 <= i64::MAX,
        both_landed(start, f, g) == Some(end),
        tells_apart(f, start),
        landed(start, f) matches Some(s) ==> tells_apart(g, s),
    ensures
        replayed(start.0, seq![(f.change, f.at), (g.change, g.at)]) == Some(end.0),
        end.0.version == start.0.version + 2,
{
    let writes = seq![(f.change, f.at), (g.change, g.at)];
    let one = seq![(f.change, f.at)];
    assert(writes.drop_last() =~= one);
    assert(one.drop_last() =~= Seq::empty());
    assert(replayed(start.0, one.drop_last()) == Some(start.0));
    assert(replayed(start.0, one) == written(start.0, f.change, f.at));
    versions_count_writes(start.0, writes);
}

// What a change does, entry by entry.

/// A push sets the time of its tag, and the log tells it with its tag and its digest.
pub proof fn a_push_is_dated_and_logged(
    doc: IndexView,
    digest: Seq<char>,
    entry: ManifestEntryView,
    tag: Option<Seq<char>>,
    now: i64,
)
    ensures
        changed(MutationView::Push { digest, entry, tag }, doc, now) matches Ok((after, log)) ==> {
            &&& after.version == doc.version
            &&& after.manifests[digest] == entry
            &&& tag matches Some(t) ==> after.tags.contains_key(t) && after.tags[t].digest == digest
                && after.tags[t].pushed_at == now
            &&& tag is None ==> after.tags == doc.tags
            &&& log.action == "push"@
            &&& log.tag == tag
            &&& log.digest == Some(digest)
        },
        changed(MutationView::Push { digest, entry, tag }, doc, now) matches Err(why) ==> exists|
            i: int,
        |
            0 <= i < entry.manifest_refs.len() && !doc.manifests.contains_key(
                #[trigger] entry.manifest_refs[i],
            ) && why == "manifest "@ + entry.manifest_refs[i] + " not found in repository"@,
{
    a_push_needs_its_children(doc, digest, entry, tag, now);
    if let Err(why) = changed(MutationView::Push { digest, entry, tag }, doc, now) {
        let i = choose|i: int|
            0 <= i < entry.manifest_refs.len() && !doc.manifests.contains_key(
                #[trigger] entry.manifest_refs[i],
            ) && why == missing_manifest(entry.manifest_refs[i]);
        assert(!doc.manifests.contains_key(entry.manifest_refs[i]));
    }
}

/// A delete takes out one manifest or one tag and leaves all other manifests as they are; the
/// log tells which. What the index does not have cannot be deleted.
pub proof fn a_delete_takes_one_and_is_logged(doc: IndexView, x: Seq<char>, d: Seq<char>, now: i64)
    ensures
        doc.manifests.contains_key(x) ==> (changed(MutationView::DeleteManifest(x), doc, now)
            matches Ok((after, log)) && {
            &&& after.version == doc.version
            &&& after.manifests.contains_key(d) <==> doc.manifests.contains_key(d) && d != x
            &&& after.manifests.contains_key(d) ==> after.manifests[d] == doc.manifests[d]
            &&& log.action == "delete-manifest"@
            &&& log.tag is None
            &&& log.digest == Some(x)
        }),
        !doc.manifests.contains_key(x) ==> changed(MutationView::DeleteManifest(x), doc, now)
            == Err::<(IndexView, LogInfoView), Seq<char>>("manifest unknown"@),
        doc.tags.contains_key(x) ==> (changed(MutationView::DeleteTag(x), doc, now) matches Ok(
            (after, log),
        ) && {
            &&& after.version == doc.version
            &&& after.manifests == doc.manifests
            &&& log.action == "delete-tag"@
            &&& log.tag == Some(x)
            &&& log.digest is None
        }),
        !doc.tags.contains_key(x) ==> changed(MutationView::DeleteTag(x), doc, now) == Err::<
            (IndexView, LogInfoView),
            Seq<char>,
        >("tag unknown"@),
{
}

/// What a collection spares: an entry that was not chosen, one that was created after the cutoff,
/// one that a tag points at, one that an entry which remains lists, and one whose subject
/// remains, whichever is older. It changes no entry that it spares and no tag.
pub proof fn what_a_collection_spares(
    doc: IndexView,
    digests: Seq<Seq<char>>,
    cutoff: i64,
    now: i64,
    d: Seq<char>,
    t: Seq<char>,
    a: Seq<char>,
)
    requires
        doc.manifests.contains_key(d),
    ensures
        changed(MutationView::Collect { digests, cutoff }, doc, now) matches Ok((after, log)) && {
            &&& after.tags == doc.tags
            &&& after.version == doc.version
            &&& log.action == "gc"@
            &&& after.manifests.contains_key(a) ==> doc.manifests.contains_key(a)
                && after.manifests[a] == doc.manifests[a]
            &&& !digests.contains(d) ==> after.manifests.contains_key(d)
            &&& doc.manifests[d].created_at > cutoff ==> after.manifests.contains_key(d)
            &&& doc.tags.contains_key(t) && doc.tags[t].digest == d ==> after.manifests.contains_key(
                d,
            )
            &&& after.manifests.contains_key(a) && doc.manifests[a].manifest_refs.contains(d)
                ==> after.manifests.contains_key(d)
            &&& after.manifests.contains_key(a) && doc.manifests[d].subject == Some(a)
                ==> after.manifests.contains_key(d)
        },
{
    a_collection_takes_only_what_nothing_keeps(doc, digests, cutoff, now, d);
    if doc.tags.contains_key(t) && doc.tags[t].digest == d {
        assert(is_tagged(doc, d));
    }
}

/// What a collection takes: a chosen entry outside any set that holds the entries which were not
/// chosen, those created after the cutoff and those with a tag, and with each of its members the
/// entries that the member lists and those whose subject it is.
pub proof fn what_a_collection_takes(
    doc: IndexView,
    digests: Seq<Seq<char>>,
    cutoff: i64,
    now: i64,
    some: Set<Seq<char>>,
    d: Seq<char>,
)
    requires
        forall|a: Seq<char>| #[trigger]
            doc.manifests.contains_key(a) && (!digests.contains(a) || doc.manifests[a].created_at
                > cutoff) ==> some.contains(a),
        forall|t: Seq<char>| #[trigger]
            doc.tags.contains_key(t) ==> some.contains(doc.tags[t].digest),
        forall|a: Seq<char>, b: Seq<char>|
            #[trigger] doc.manifests.contains_key(a) && #[trigger] doc.manifests.contains_key(b)
                && some.contains(a) && (doc.manifests[a].manifest_refs.contains(b)
                || doc.manifests[b].subject == Some(a)) ==> some.contains(b),
        !some.contains(d),
    ensures
        changed(MutationView::Collect { digests, cutoff }, doc, now) matches Ok((after, log))
            && !after.manifests.contains_key(d),
{
    assert forall|a: Seq<char>| #[trigger] left_alone(
        doc,
        digests,
        cutoff,
        a,
    ) implies some.contains(a) by {
        if is_tagged(doc, a) {
            let t = choose|t: Seq<char>|
                #[trigger] doc.tags.contains_key(t) && doc.tags[t].digest == a;
            assert(some.contains(doc.tags[t].digest));
        }
    }
    assert forall|a: Seq<char>, b: Seq<char>|
        #![trigger entry_keeps(doc, a, b)]
        some.contains(a) && entry_keeps(doc, a, b) implies some.contains(b) by {
        assert(doc.manifests.contains_key(a) && doc.manifests.contains_key(b));
    }
    a_collection_takes_the_rest(doc, digests, cutoff, now, some, d);
}

/// A write that is accepted has the version after the one that it replaces, and else what the
/// change makes of it; a change that is refused writes nothing.
pub proof fn a_write_has_the_next_version(doc: IndexView, m: MutationView, now: i64)
    requires
        doc.version < i64::MAX,
    ensures
        written(doc, m, now) is Some <==> changed(m, doc, now) is Ok,
        written(doc, m, now) matches Some(after) ==> {
            &&& after.version == doc.version + 1
            &&& after.manifests == changed(m, doc, now)->Ok_0.0.manifests
            &&& after.tags == changed(m, doc, now)->Ok_0.0.tags
        },
{
}

/// How long a writer waits after a conflict: 15 milliseconds more each time, 200 at most, and
/// less than 47 on top of that by the clock.
pub proof fn writers_wait_longer_each_time(conflicts: int, nanos: int)
    requires
        conflicts >= 0,
        nanos >= 0,
    ensures
        0 <= backoff(conflicts, nanos) - backoff(conflicts, 0) < 47,
        backoff(conflicts, nanos) - backoff(conflicts, 0) == nanos % 47,
        conflicts <= 13 ==> backoff(conflicts, 0) == 15 * conflicts,
        conflicts > 13 ==> backoff(conflicts, 0) == 200,
{
}

/// Where things are kept: indexes and logs under the repository's name, manifests and blobs under
/// the prefixes that a sweep lists.
pub proof fn where_things_are_kept(repo: Seq<char>, version: int, digest: Seq<char>, key: Seq<char>)
    ensures
        text::after_prefix(manifest_key_of(digest), "manifests/"@) == Some(digest),
        text::after_prefix(blob_key_of(digest), "blobs/"@) == Some(digest),
        index_key_of(repo) == "repos/"@ + repo + "/index.json"@,
        log_key_of(repo, version) == "repos/"@ + repo + "/log/"@ + number::padded(version)
            + ".json"@,
        indexed_repo(key) == Some(repo) <==> key == "repos/"@ + repo + "/index.json"@,
{
    text::what_is_stripped_comes_off(manifest_key_of(digest), "manifests/"@, digest);
    text::what_is_stripped_comes_off(blob_key_of(digest), "blobs/"@, digest);
    index_key_reads_back(repo);
    if indexed_repo(key) == Some(repo) {
        let rest = text::after_prefix(key, "repos/"@)->0;
        text::what_is_stripped_comes_off(key, "repos/"@, rest);
        text::what_is_stripped_comes_off(rest, "/index.json"@, repo);
        assert(key =~= "repos/"@ + repo + "/index.json"@);
    }
}

} // verus!
