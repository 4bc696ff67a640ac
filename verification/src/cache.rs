//! The local cache of what the bucket holds: bringing it up to date, and reading through it.

use crate::ident;
use crate::ident::new_uuid;
use crate::pending::PendingDoc;
use crate::table;
use crate::text;
use crate::truth;
use crate::truth::{blob_key, IndexDoc, IndexView, ManifestEntryView, TagEntryView};
use vstd::hash_set::StringHashSet;
use vstd::prelude::*;
use vstd::string::*;

verus! {

/// The manifests of an index that the cache does not have, in order.
pub fn missing_manifests(doc: &IndexDoc, have: &Vec<String>) -> (r: Vec<String>)
    ensures
        table::ascending(text::views(r@)),
        forall|d: Seq<char>|
            #[trigger] text::views(r@).contains(d) <==> doc@.manifests.contains_key(d)
                && !text::views(have@).contains(d),
{
    let had = text::set_of(have);
    let n = doc.manifests.len();
    let ghost keys = doc.manifests.keys();
    let mut r: Vec<String> = Vec::new();
    let mut i: usize = 0;
    while i < n
        invariant
            i <= n,
            n == keys.len(),
            keys == doc.manifests.keys(),
            table::ascending(keys),
            had@ == text::views(have@).to_set(),
            table::ascending(text::views(r@)),
            forall|j: int|
                0 <= j < r@.len() ==> keys.take(i as int).contains(#[trigger] text::views(r@)[j]),
            forall|d: Seq<char>|
                #[trigger] text::views(r@).contains(d) <==> keys.take(i as int).contains(d)
                    && !had@.contains(d),
        decreases n - i,
    {
        let ghost before = text::views(r@);
        let d = doc.manifests.key_at(i);
        let hit = !had.contains(d.as_str());
        if hit {
            r.push(d.clone());
            proof {
                assert(text::views(r@) =~= before.push(keys[i as int]));
            }
        }
        proof {
            table::picked_in_order(keys, i as int, before);
            assert forall|d: Seq<char>| #[trigger] text::views(r@).contains(d) <==> keys.take(
                i + 1,
            ).contains(d) && !had@.contains(d) by {
                text::contains_push(keys.take(i as int), keys[i as int], d);
                text::contains_push(before, keys[i as int], d);
                assert(keys.take(i + 1) =~= keys.take(i as int).push(keys[i as int]));
            }
        }
        i += 1;
    }
    proof {
        assert(keys.take(n as int) =~= keys);
        assert forall|d: Seq<char>| #[trigger] text::views(r@).contains(d) <==> 
            doc@.manifests.contains_key(d) && !text::views(have@).contains(d) by {
            assert(doc.manifests@ == table::paired(keys, doc.manifests.values()));
            assert(had@.contains(d) == text::views(have@).contains(d));
        }
    }
    r
}

/// A tag row to write: its name, the digest it points at and the time of its push.
#[derive(Debug, PartialEq)]
pub struct TagRow {
    pub name: String,
    pub digest: String,
    pub pushed_at: i64,
}

/// What brings the cache of a repository in line with its index. All its tag rows go first.
#[derive(Debug)]
pub struct SyncPlan {
    /// The version and the entity tag of the index, which the repository's row gets.
    pub version: i64,
    pub etag: String,
    /// The rows of manifests that the index no longer has.
    pub delete: Vec<i64>,
    /// The digests of the manifests whose rows are written anew, with their references: the
    /// index may have recorded them anew.
    pub update: Vec<String>,
    /// The digests of the manifests to insert.
    pub insert: Vec<String>,
    /// The tags to write.
    pub tags: Vec<TagRow>,
}

/// A manifest of the index whose bytes are at hand: its row is updated or inserted.
pub open spec fn present(
    doc: IndexView,
    cached: Set<Seq<char>>,
    fetched: Set<Seq<char>>,
    digest: Seq<char>,
) -> bool {
    doc.manifests.contains_key(digest) && (cached.contains(digest) || fetched.contains(digest))
}

/// The digests of some rows.
pub open spec fn row_digests(rows: Seq<(i64, String)>) -> Seq<Seq<char>> {
    rows.map_values(|r: (i64, String)| r.1@)
}

/// The names of some tag rows.
pub open spec fn tag_names(rows: Seq<TagRow>) -> Seq<Seq<char>> {
    rows.map_values(|r: TagRow| r.name@)
}

fn digest_set(rows: &Vec<(i64, String)>) -> (r: StringHashSet)
    ensures
        r@ == row_digests(rows@).to_set(),
{
    let mut list: Vec<String> = Vec::new();
    let mut i: usize = 0;
    while i < rows.len()
        invariant
            i <= rows@.len(),
            text::views(list@) == row_digests(rows@).take(i as int),
        decreases rows@.len() - i,
    {
        let ghost before = text::views(list@);
        list.push(rows[i].1.clone());
        proof {
            assert(text::views(list@) =~= before.push(rows@[i as int].1@));
            assert(row_digests(rows@).take(i + 1) =~= row_digests(rows@).take(i as int).push(
                row_digests(rows@)[i as int],
            ));
        }
        i += 1;
    }
    proof {
        assert(row_digests(rows@).take(i as int) =~= row_digests(rows@));
    }
    text::set_of(&list)
}

/// The rows that the index no longer has.
pub open spec fn stale_rows(doc: IndexView, rows: Seq<(i64, String)>) -> Seq<i64>
    decreases rows.len(),
{
    if rows.len() == 0 {
        Seq::empty()
    } else {
        let before = stale_rows(doc, rows.drop_last());
        if doc.manifests.contains_key(rows.last().1@) {
            before
        } else {
            before.push(rows.last().0)
        }
    }
}

fn rows_to_delete(doc: &IndexDoc, rows: &Vec<(i64, String)>) -> (r: Vec<i64>)
    ensures
        r@ == stale_rows(doc@, rows@),
{
    let mut r: Vec<i64> = Vec::new();
    let mut i: usize = 0;
    while i < rows.len()
        invariant
            i <= rows@.len(),
            r@ == stale_rows(doc@, rows@.take(i as int)),
        decreases rows@.len() - i,
    {
        proof {
            assert(rows@.take(i + 1).drop_last() =~= rows@.take(i as int));
        }
        if !doc.manifests.contains_key(rows[i].1.as_str()) {
            r.push(rows[i].0);
        }
        i += 1;
    }
    proof {
        assert(rows@.take(i as int) =~= rows@);
    }
    r
}

/// The manifests of an index that are in `among` and not in `except`, in order.
fn manifests_among(doc: &IndexDoc, among: &StringHashSet, except: &StringHashSet) -> (r: Vec<
    String,
>)
    ensures
        table::ascending(text::views(r@)),
        forall|d: Seq<char>|
            #[trigger] text::views(r@).contains(d) <==> doc@.manifests.contains_key(d)
                && among@.contains(d) && !except@.contains(d),
{
    let n = doc.manifests.len();
    let ghost keys = doc.manifests.keys();
    let mut r: Vec<String> = Vec::new();
    let mut i: usize = 0;
    while i < n
        invariant
            i <= n,
            n == keys.len(),
            keys == doc.manifests.keys(),
            table::ascending(keys),
            table::ascending(text::views(r@)),
            forall|j: int|
                0 <= j < r@.len() ==> keys.take(i as int).contains(#[trigger] text::views(r@)[j]),
            forall|d: Seq<char>|
                #[trigger] text::views(r@).contains(d) <==> keys.take(i as int).contains(d)
                    && among@.contains(d) && !except@.contains(d),
        decreases n - i,
    {
        let ghost before = text::views(r@);
        let d = doc.manifests.key_at(i);
        let hit = among.contains(d.as_str()) && !except.contains(d.as_str());
        if hit {
            r.push(d.clone());
            proof {
                assert(text::views(r@) =~= before.push(keys[i as int]));
            }
        }
        proof {
            table::picked_in_order(keys, i as int, before);
            assert forall|d: Seq<char>| #[trigger] text::views(r@).contains(d) <==> keys.take(
                i + 1,
            ).contains(d) && among@.contains(d) && !except@.contains(d) by {
                text::contains_push(keys.take(i as int), keys[i as int], d);
                text::contains_push(before, keys[i as int], d);
                assert(keys.take(i + 1) =~= keys.take(i as int).push(keys[i as int]));
            }
        }
        i += 1;
    }
    proof {
        assert(keys.take(n as int) =~= keys);
    }
    r
}

/// The tags of an index that point at manifests at hand.
pub open spec fn tags_present(
    doc: IndexView,
    cached: Set<Seq<char>>,
    fetched: Set<Seq<char>>,
) -> Set<Seq<char>> {
    Set::new(
        |t: Seq<char>|
            doc.tags.contains_key(t) && present(doc, cached, fetched, doc.tags[t].digest),
    )
}

fn tags_to_write(doc: &IndexDoc, cached: &StringHashSet, fetched: &StringHashSet) -> (r: Vec<
    TagRow,
>)
    ensures
        table::ascending(tag_names(r@)),
        forall|t: Seq<char>|
            #[trigger] tag_names(r@).contains(t) <==> tags_present(
                doc@,
                cached@,
                fetched@,
            ).contains(t),
        forall|i: int|
            0 <= i < r@.len() ==> (#[trigger] r@[i]).digest@ == doc@.tags[r@[i].name@].digest
                && r@[i].pushed_at == doc@.tags[r@[i].name@].pushed_at,
{
    let n = doc.tags.len();
    let ghost keys = doc.tags.keys();
    let ghost wanted = tags_present(doc@, cached@, fetched@);
    let mut r: Vec<TagRow> = Vec::new();
    let mut i: usize = 0;
    while i < n
        invariant
            i <= n,
            n == keys.len(),
            keys == doc.tags.keys(),
            doc.tags@ == table::paired(keys, doc.tags.values()),
            table::ascending(keys),
            wanted == tags_present(doc@, cached@, fetched@),
            table::ascending(tag_names(r@)),
            forall|j: int|
                0 <= j < r@.len() ==> keys.take(i as int).contains(#[trigger] tag_names(r@)[j]),
            forall|t: Seq<char>|
                #[trigger] tag_names(r@).contains(t) <==> keys.take(i as int).contains(t)
                    && wanted.contains(t),
            forall|j: int|
                0 <= j < r@.len() ==> (#[trigger] r@[j]).digest@ == doc@.tags[r@[j].name@].digest
                    && r@[j].pushed_at == doc@.tags[r@[j].name@].pushed_at,
        decreases n - i,
    {
        let ghost before = tag_names(r@);
        let name = doc.tags.key_at(i);
        let entry = doc.tags.value_at(i);
        let d = entry.digest.as_str();
        let hit = doc.manifests.contains_key(d) && (cached.contains(d) || fetched.contains(d));
        proof {
            assert(doc@.tags.contains_key(keys[i as int]));
            assert(doc@.tags[keys[i as int]] == entry@);
            assert(wanted.contains(keys[i as int]) == hit);
        }
        if hit {
            r.push(
                TagRow {
                    name: name.clone(),
                    digest: entry.digest.clone(),
                    pushed_at: entry.pushed_at,
                },
            );
            proof {
                assert(tag_names(r@) =~= before.push(keys[i as int]));
            }
        }
        proof {
            table::picked_in_order(keys, i as int, before);
            assert forall|t: Seq<char>| #[trigger] tag_names(r@).contains(t) <==> keys.take(
                i + 1,
            ).contains(t) && wanted.contains(t) by {
                text::contains_push(keys.take(i as int), keys[i as int], t);
                text::contains_push(before, keys[i as int], t);
                assert(keys.take(i + 1) =~= keys.take(i as int).push(keys[i as int]));
            }
        }
        i += 1;
    }
    proof {
        assert(keys.take(n as int) =~= keys);
    }
    r
}

/// `p` brings the cache of a repository in line with its index: `rows` are the cached manifests,
/// and `fetched` the missing ones whose bytes the bucket had.
pub open spec fn is_plan(
    p: SyncPlan,
    doc: IndexView,
    rows: Seq<(i64, String)>,
    fetched: Set<Seq<char>>,
) -> bool {
    let cached = row_digests(rows).to_set();
    &&& p.version == doc.version
    &&& p.delete@ == stale_rows(doc, rows)
    &&& table::ascending(text::views(p.update@))
    &&& forall|d: Seq<char>|
        #[trigger] text::views(p.update@).contains(d) <==> doc.manifests.contains_key(d)
            && cached.contains(d)
    &&& table::ascending(text::views(p.insert@))
    &&& forall|d: Seq<char>|
        #[trigger] text::views(p.insert@).contains(d) <==> doc.manifests.contains_key(d)
            && !cached.contains(d) && fetched.contains(d)
    &&& table::ascending(tag_names(p.tags@))
    &&& forall|t: Seq<char>|
        #[trigger] tag_names(p.tags@).contains(t) <==> tags_present(doc, cached, fetched).contains(
            t,
        )
    &&& forall|i: int|
        0 <= i < p.tags@.len() ==> (#[trigger] p.tags@[i]).digest@
            == doc.tags[p.tags@[i].name@].digest && p.tags@[i].pushed_at
            == doc.tags[p.tags@[i].name@].pushed_at
}

/// What makes the cache of a repository mirror its index: `rows` are the cached manifests, and
/// `fetched` the missing ones whose bytes the bucket had. The bytes of a manifest never change,
/// but what the index records of it may. `etag` is the entity tag of the index.
pub fn sync_repo(
    doc: &IndexDoc,
    etag: &str,
    rows: &Vec<(i64, String)>,
    fetched: &Vec<String>,
) -> (p: SyncPlan)
    ensures
        is_plan(p, doc@, rows@, text::views(fetched@).to_set()),
        p.etag@ == etag@,
{
    let cached = digest_set(rows);
    let got = text::set_of(fetched);
    let none = StringHashSet::new();
    SyncPlan {
        version: doc.version,
        etag: etag.to_owned(),
        delete: rows_to_delete(doc, rows),
        update: manifests_among(doc, &cached, &none),
        insert: manifests_among(doc, &got, &cached),
        tags: tags_to_write(doc, &cached, &got),
    }
}

/// The cached entries once a plan was carried out, where `before` were cached: what is left of
/// them and what is inserted, as the index has it where it is inserted or updated.
pub open spec fn entries_after(
    p: SyncPlan,
    doc: IndexView,
    rows: Seq<(i64, String)>,
    before: Map<Seq<char>, ManifestEntryView>,
) -> Map<Seq<char>, ManifestEntryView> {
    Map::new(
        |d: Seq<char>|
            left_over(rows, p.delete@).contains(d) || text::views(p.insert@).contains(d),
        |d: Seq<char>|
            if text::views(p.update@).contains(d) || text::views(p.insert@).contains(d) {
                doc.manifests[d]
            } else {
                before[d]
            },
    )
}

/// The cached tags once a plan was carried out.
pub open spec fn tags_after(p: SyncPlan) -> Map<Seq<char>, TagEntryView> {
    Map::new(
        |t: Seq<char>| tag_names(p.tags@).contains(t),
        |t: Seq<char>|
            {
                let row = p.tags@[tag_names(p.tags@).index_of(t)];
                TagEntryView { digest: row.digest@, pushed_at: row.pushed_at }
            },
    )
}

/// The entries of an index whose bytes are at hand.
pub open spec fn mirrored(
    doc: IndexView,
    cached: Set<Seq<char>>,
    fetched: Set<Seq<char>>,
) -> Map<Seq<char>, ManifestEntryView> {
    Map::new(
        |d: Seq<char>| present(doc, cached, fetched, d),
        |d: Seq<char>| doc.manifests[d],
    )
}

/// The tags of an index that point at manifests at hand.
pub open spec fn mirrored_tags(
    doc: IndexView,
    cached: Set<Seq<char>>,
    fetched: Set<Seq<char>>,
) -> Map<Seq<char>, TagEntryView> {
    Map::new(
        |t: Seq<char>| tags_present(doc, cached, fetched).contains(t),
        |t: Seq<char>| doc.tags[t],
    )
}

/// The digests of the rows that are left once some rows were deleted.
pub open spec fn left_over(rows: Seq<(i64, String)>, delete: Seq<i64>) -> Set<Seq<char>> {
    Set::new(
        |d: Seq<char>|
            exists|i: int|
                0 <= i < rows.len() && (#[trigger] rows[i]).1@ == d && !delete.contains(rows[i].0),
    )
}

proof fn stale_rows_are_stale(doc: IndexView, rows: Seq<(i64, String)>, id: i64)
    ensures
        stale_rows(doc, rows).contains(id) <==> exists|i: int|
            0 <= i < rows.len() && (#[trigger] rows[i]).0 == id && !doc.manifests.contains_key(
                rows[i].1@,
            ),
    decreases rows.len(),
{
    if rows.len() > 0 {
        let rest = rows.drop_last();
        let before = stale_rows(doc, rest);
        stale_rows_are_stale(doc, rest, id);
        text::contains_push(before, rows.last().0, id);
        if before.contains(id) {
            let i = choose|i: int|
                0 <= i < rest.len() && (#[trigger] rest[i]).0 == id && !doc.manifests.contains_key(
                    rest[i].1@,
                );
            assert(rows[i] == rest[i]);
        }
        if exists|i: int|
            0 <= i < rows.len() && (#[trigger] rows[i]).0 == id && !doc.manifests.contains_key(
                rows[i].1@,
            ) {
            let i = choose|i: int|
                0 <= i < rows.len() && (#[trigger] rows[i]).0 == id && !doc.manifests.contains_key(
                    rows[i].1@,
                );
            if i < rest.len() {
                assert(rest[i] == rows[i]);
            }
        }
        assert(rows[rows.len() - 1] == rows.last());
    }
}

/// Carrying a plan out leaves the cache with exactly those manifests of the index that it had
/// or that were fetched, each as the index records it whatever was cached of it before, and
/// with exactly the tags that point at them.
pub proof fn a_plan_does_what_it_says(
    p: SyncPlan,
    doc: IndexView,
    rows: Seq<(i64, String)>,
    before: Map<Seq<char>, ManifestEntryView>,
    fetched: Set<Seq<char>>,
)
    requires
        forall|i: int, j: int|
            0 <= i < j < rows.len() ==> (#[trigger] rows[i]).0 != (#[trigger] rows[j]).0,
        is_plan(p, doc, rows, fetched),
    ensures
        entries_after(p, doc, rows, before) == mirrored(doc, row_digests(rows).to_set(), fetched),
        tags_after(p) == mirrored_tags(doc, row_digests(rows).to_set(), fetched),
{
    let cached = row_digests(rows).to_set();
    let left = left_over(rows, stale_rows(doc, rows));
    assert forall|d: Seq<char>| left.contains(d) == (cached.contains(d)
        && doc.manifests.contains_key(d)) by {
        if left.contains(d) {
            let i = choose|i: int|
                0 <= i < rows.len() && (#[trigger] rows[i]).1@ == d && !stale_rows(
                    doc,
                    rows,
                ).contains(rows[i].0);
            stale_rows_are_stale(doc, rows, rows[i].0);
            assert(row_digests(rows)[i] == d);
        }
        if cached.contains(d) && doc.manifests.contains_key(d) {
            let i = row_digests(rows).index_of(d);
            assert(rows[i].1@ == d);
            stale_rows_are_stale(doc, rows, rows[i].0);
            if stale_rows(doc, rows).contains(rows[i].0) {
                let j = choose|j: int|
                    0 <= j < rows.len() && (#[trigger] rows[j]).0 == rows[i].0
                        && !doc.manifests.contains_key(rows[j].1@);
                assert(i == j);
            }
        }
    }
    let after = entries_after(p, doc, rows, before);
    let want = mirrored(doc, cached, fetched);
    assert forall|d: Seq<char>| #[trigger] after.contains_key(d) == want.contains_key(d) && (
    want.contains_key(d) ==> after[d] == want[d]) by {
        assert(text::views(p.insert@).contains(d) <==> doc.manifests.contains_key(d)
            && !cached.contains(d) && fetched.contains(d));
        assert(text::views(p.update@).contains(d) <==> doc.manifests.contains_key(d)
            && cached.contains(d));
        assert(left.contains(d) == (cached.contains(d) && doc.manifests.contains_key(d)));
    }
    assert(after =~= want);
    let tags = tags_after(p);
    let want_tags = mirrored_tags(doc, cached, fetched);
    assert forall|t: Seq<char>| #[trigger] tags.contains_key(t) == want_tags.contains_key(t) && (
    want_tags.contains_key(t) ==> tags[t] == want_tags[t]) by {
        if tag_names(p.tags@).contains(t) {
            let i = tag_names(p.tags@).index_of(t);
            assert(p.tags@[i].name@ == t);
            assert(p.tags@[i].digest@ == doc.tags[t].digest);
        }
    }
    assert(tags =~= want_tags);
}

/// Once the bytes of everything missing are at hand, the cache mirrors the index: its version is
/// that of the index, its manifest rows are the entries of the index, values and all, whatever
/// was cached before, and its tag rows are the tags of the index where they all resolve.
pub proof fn the_cache_mirrors_the_index(
    p: SyncPlan,
    doc: IndexView,
    rows: Seq<(i64, String)>,
    before: Map<Seq<char>, ManifestEntryView>,
    fetched: Set<Seq<char>>,
)
    requires
        forall|i: int, j: int|
            0 <= i < j < rows.len() ==> (#[trigger] rows[i]).0 != (#[trigger] rows[j]).0,
        is_plan(p, doc, rows, fetched),
        forall|d: Seq<char>|
            #[trigger] doc.manifests.contains_key(d) && !row_digests(rows).contains(d)
                ==> fetched.contains(d),
    ensures
        p.version == doc.version,
        entries_after(p, doc, rows, before) == doc.manifests,
        truth::tags_resolve(doc) ==> tags_after(p) == doc.tags,
{
    let cached = row_digests(rows).to_set();
    a_plan_does_what_it_says(p, doc, rows, before, fetched);
    assert(mirrored(doc, cached, fetched) =~= doc.manifests) by {
        assert forall|d: Seq<char>| #[trigger]
            mirrored(doc, cached, fetched).contains_key(d) == doc.manifests.contains_key(d) by {
            if doc.manifests.contains_key(d) && !row_digests(rows).contains(d) {
                assert(fetched.contains(d));
            }
            assert(cached.contains(d) == row_digests(rows).contains(d));
        }
    }
    if truth::tags_resolve(doc) {
        assert forall|t: Seq<char>| #[trigger]
            mirrored_tags(doc, cached, fetched).contains_key(t) == doc.tags.contains_key(t) by {
            if doc.tags.contains_key(t) {
                let d = doc.tags[t].digest;
                assert(doc.manifests.contains_key(d));
                assert(mirrored(doc, cached, fetched).contains_key(d));
            }
        }
        assert(mirrored_tags(doc, cached, fetched) =~= doc.tags);
    }
}

/// Whatever could be fetched, the cache never holds a manifest that the index lacks, and a
/// second pass over it changes nothing.
pub proof fn syncing_twice_changes_nothing(
    doc: IndexView,
    cached: Set<Seq<char>>,
    fetched: Set<Seq<char>>,
)
    ensures
        mirrored(doc, cached, fetched).dom().subset_of(doc.manifests.dom()),
        mirrored(doc, mirrored(doc, cached, fetched).dom(), fetched) == mirrored(
            doc,
            cached,
            fetched,
        ),
        mirrored_tags(doc, mirrored(doc, cached, fetched).dom(), fetched) == mirrored_tags(
            doc,
            cached,
            fetched,
        ),
{
    let once = mirrored(doc, cached, fetched);
    assert(mirrored(doc, once.dom(), fetched) =~= once);
    assert(mirrored_tags(doc, once.dom(), fetched) =~= mirrored_tags(doc, cached, fetched));
}

/// The entity tag to validate the cache with: the one it was last brought in line with.
pub fn cached_etag(row: Option<Option<String>>) -> (r: Option<String>)
    ensures
        r == match row {
            Some(e) => e,
            None => None,
        },
{
    match row {
        Some(e) => e,
        None => None,
    }
}

/// What a read of a repository's index brought.
pub enum Found {
    NotModified,
    New(IndexDoc, String),
    Missing,
}

/// Decides what to bring the cache in line with. A read without an entity tag that finds no
/// index leaves the cache alone; one with an entity tag means that the index is gone.
pub fn refresh_repo(conditional: bool, found: Found) -> (r: Option<(IndexDoc, String)>)
    ensures
        match found {
            Found::NotModified => r is None,
            Found::New(doc, etag) => r == Some((doc, etag)),
            Found::Missing => if conditional {
                r matches Some((doc, etag)) && doc@ == truth::empty_index() && etag@.len() == 0
            } else {
                r is None
            },
        },
{
    match found {
        Found::NotModified => None,
        Found::New(doc, etag) => Some((doc, etag)),
        Found::Missing => {
            if conditional {
                Some((IndexDoc::default(), String::new()))
            } else {
                None
            }
        },
    }
}

/// The repositories whose indexes are among some keys, in the order of the keys.
pub open spec fn indexed_repos(keys: Seq<Seq<char>>) -> Seq<Seq<char>>
    decreases keys.len(),
{
    if keys.len() == 0 {
        Seq::empty()
    } else {
        let before = indexed_repos(keys.drop_last());
        match truth::indexed_repo(keys.last()) {
            Some(repo) => before.push(repo),
            None => before,
        }
    }
}

/// The repositories to bring in line with a bucket that lists these keys.
pub fn rebuild_all(keys: &Vec<String>) -> (names: Vec<String>)
    ensures
        text::views(names@) == indexed_repos(text::views(keys@)),
{
    let ghost all = text::views(keys@);
    let mut names: Vec<String> = Vec::new();
    let mut i: usize = 0;
    proof {
        assert(text::views(names@) =~= Seq::empty());
    }
    while i < keys.len()
        invariant
            i <= keys@.len(),
            all == text::views(keys@),
            text::views(names@) == indexed_repos(all.take(i as int)),
        decreases keys@.len() - i,
    {
        let ghost before = text::views(names@);
        proof {
            assert(all.take(i + 1).drop_last() =~= all.take(i as int));
            assert(all.take(i + 1).last() == all[i as int]);
        }
        if let Some(rest) = text::strip_prefix(keys[i].as_str(), "repos/") {
            if let Some(name) = text::strip_suffix(rest.as_str(), "/index.json") {
                names.push(name);
                proof {
                    assert(text::views(names@) =~= before.push(name@));
                }
            }
        }
        i += 1;
    }
    proof {
        assert(all.take(i as int) =~= all);
    }
    names
}

/// Every repository whose index a bucket lists is rebuilt.
pub proof fn every_indexed_repo_is_rebuilt(keys: Seq<Seq<char>>, repo: Seq<char>)
    requires
        keys.contains(truth::index_key_of(repo)),
    ensures
        indexed_repos(keys).contains(repo),
    decreases keys.len(),
{
    truth::index_key_reads_back(repo);
    let before = indexed_repos(keys.drop_last());
    if keys.last() == truth::index_key_of(repo) {
        assert(indexed_repos(keys).last() == repo);
    } else {
        let i = keys.index_of(truth::index_key_of(repo));
        assert(keys.drop_last()[i] == truth::index_key_of(repo));
        every_indexed_repo_is_rebuilt(keys.drop_last(), repo);
        if let Some(other) = truth::indexed_repo(keys.last()) {
            text::contains_push(before, other, repo);
        }
    }
}

/// How a blob gets onto the local disk.
#[derive(Debug)]
pub enum Fill {
    /// It is there, and this long.
    Ready(i64),
    /// There is no such blob here, and nowhere to get it from.
    Unknown,
    /// It is to be copied from this key of the bucket to this staging file.
    Download(String, String),
}

/// Decides how a blob gets onto the local disk: `row` is its length where the database has a
/// row for it, and `on_disk` says whether its file is there. It is ready where both are.
pub fn ensure_blob_local(
    row: Option<i64>,
    on_disk: bool,
    object_mode: bool,
    digest: &str,
) -> (r: Fill)
    ensures
        r is Ready <==> row is Some && on_disk,
        r is Download <==> !(row is Some && on_disk) && object_mode,
        match r {
            Fill::Ready(size) => row == Some(size),
            Fill::Unknown => true,
            Fill::Download(key, staging) => {
                &&& key@ == truth::blob_key_of(digest@)
                &&& exists|u: Seq<char>|
                    #![trigger ident::is_uuid(u)]
                    ident::is_uuid(u) && staging@ == "fill-"@ + u
            },
        },
{
    if let Some(size) = row {
        if on_disk {
            return Fill::Ready(size);
        }
    }
    if !object_mode {
        return Fill::Unknown;
    }
    let uuid = new_uuid();
    let mut staging = "fill-".to_owned();
    staging.append(uuid.as_str());
    proof {
        assert(ident::is_uuid(uuid@));
    }
    Fill::Download(blob_key(digest), staging)
}

/// Whether a blob can be relied on.
#[derive(Debug, PartialEq)]
pub enum Existence {
    Yes,
    No,
    /// As the bucket has it under this key.
    InBucket(String),
}

/// Decides whether a blob can be relied on. `ledger` is the ledger of pending deletions, where
/// there is a bucket; a blob that it holds cannot be relied on, wherever it still is.
pub fn blob_exists(ledger: Option<&PendingDoc>, cached: bool, digest: &str) -> (r: Existence)
    ensures
        match r {
            Existence::Yes => cached && !(ledger matches Some(l) && l@.holds(digest@)),
            Existence::No => (ledger matches Some(l) && l@.holds(digest@)) || (ledger is None
                && !cached),
            Existence::InBucket(key) => {
                &&& ledger matches Some(l) && !l@.holds(digest@)
                &&& !cached
                &&& key@ == truth::blob_key_of(digest@)
            },
        },
{
    if let Some(l) = ledger {
        if l.holds(digest) {
            return Existence::No;
        }
    }
    if cached {
        return Existence::Yes;
    }
    if ledger.is_some() {
        Existence::InBucket(blob_key(digest))
    } else {
        Existence::No
    }
}

/// What a plan holds, row by row. The rows of manifests that the index lacks are deleted, those of
/// manifests that it has are written anew, and a manifest without a row is inserted where its
/// bytes were fetched.
pub proof fn what_a_plan_does_to_manifests(
    p: SyncPlan,
    doc: IndexView,
    rows: Seq<(i64, String)>,
    fetched: Set<Seq<char>>,
    id: i64,
    d: Seq<char>,
)
    requires
        is_plan(p, doc, rows, fetched),
    ensures
        p.version == doc.version,
        p.delete@.contains(id) <==> exists|i: int|
            0 <= i < rows.len() && (#[trigger] rows[i]).0 == id && !doc.manifests.contains_key(
                rows[i].1@,
            ),
        text::views(p.update@).contains(d) <==> doc.manifests.contains_key(d) && exists|i: int|
            0 <= i < rows.len() && (#[trigger] rows[i]).1@ == d,
        text::views(p.insert@).contains(d) <==> doc.manifests.contains_key(d) && fetched.contains(d)
            && forall|i: int| 0 <= i < rows.len() ==> (#[trigger] rows[i]).1@ != d,
        text::views(p.update@).no_duplicates(),
        text::views(p.insert@).no_duplicates(),
{
    stale_rows_are_stale(doc, rows, id);
    digests_of_rows(rows, d);
    table::ascending_distinct(text::views(p.update@));
    table::ascending_distinct(text::views(p.insert@));
}

proof fn digests_of_rows(rows: Seq<(i64, String)>, d: Seq<char>)
    ensures
        row_digests(rows).to_set().contains(d) <==> exists|i: int|
            0 <= i < rows.len() && (#[trigger] rows[i]).1@ == d,
{
    let all = row_digests(rows);
    assert(all.to_set().contains(d) <==> all.contains(d));
    if all.contains(d) {
        let i = all.index_of(d);
        assert(rows[i].1@ == d);
    }
    if exists|i: int| 0 <= i < rows.len() && (#[trigger] rows[i]).1@ == d {
        let i = choose|i: int| 0 <= i < rows.len() && (#[trigger] rows[i]).1@ == d;
        assert(all[i] == d);
    }
}

/// A plan writes each tag of the index whose manifest the index has and whose bytes are in a row
/// or were fetched, with the digest and the time that the index records, and no other tag.
pub proof fn what_a_plan_does_to_tags(
    p: SyncPlan,
    doc: IndexView,
    rows: Seq<(i64, String)>,
    fetched: Set<Seq<char>>,
    t: Seq<char>,
)
    requires
        is_plan(p, doc, rows, fetched),
    ensures
        (exists|j: int| 0 <= j < p.tags@.len() && (#[trigger] p.tags@[j]).name@ == t) <==> {
            &&& doc.tags.contains_key(t)
            &&& doc.manifests.contains_key(doc.tags[t].digest)
            &&& fetched.contains(doc.tags[t].digest) || exists|i: int|
                0 <= i < rows.len() && (#[trigger] rows[i]).1@ == doc.tags[t].digest
        },
        forall|j: int|
            0 <= j < p.tags@.len() ==> (#[trigger] p.tags@[j]).digest@
                == doc.tags[p.tags@[j].name@].digest && p.tags@[j].pushed_at
                == doc.tags[p.tags@[j].name@].pushed_at,
        forall|i: int, j: int|
            0 <= i < j < p.tags@.len() ==> (#[trigger] p.tags@[i]).name@ != (
            #[trigger] p.tags@[j]).name@,
{
    let names = tag_names(p.tags@);
    table::ascending_distinct(names);
    digests_of_rows(rows, doc.tags[t].digest);
    assert(names.contains(t) <==> tags_present(doc, row_digests(rows).to_set(), fetched).contains(
        t,
    ));
    assert(forall|j: int| 0 <= j < names.len() ==> #[trigger] names[j] == p.tags@[j].name@);
    if names.contains(t) {
        let j = names.index_of(t);
        assert(p.tags@[j].name@ == t);
    }
    if exists|j: int| 0 <= j < p.tags@.len() && (#[trigger] p.tags@[j]).name@ == t {
        let j = choose|j: int| 0 <= j < p.tags@.len() && (#[trigger] p.tags@[j]).name@ == t;
        assert(names[j] == t);
    }
    assert forall|i: int, j: int| 0 <= i < j < p.tags@.len() implies (#[trigger] p.tags@[i]).name@
        != (#[trigger] p.tags@[j]).name@ by {
        assert(names[i] != names[j]);
    }
}

/// What the cache mirrors: of an index just the entries whose bytes are cached or fetched, as the
/// index records them, and the tags that point at those.
pub proof fn what_the_cache_mirrors(
    doc: IndexView,
    cached: Set<Seq<char>>,
    fetched: Set<Seq<char>>,
    d: Seq<char>,
    t: Seq<char>,
)
    ensures
        mirrored(doc, cached, fetched).contains_key(d) <==> doc.manifests.contains_key(d) && (
        cached.contains(d) || fetched.contains(d)),
        mirrored(doc, cached, fetched).contains_key(d) ==> mirrored(doc, cached, fetched)[d]
            == doc.manifests[d],
        mirrored_tags(doc, cached, fetched).contains_key(t) <==> doc.tags.contains_key(t) && mirrored(
            doc,
            cached,
            fetched,
        ).contains_key(doc.tags[t].digest),
        mirrored_tags(doc, cached, fetched).contains_key(t) ==> mirrored_tags(
            doc,
            cached,
            fetched,
        )[t] == doc.tags[t],
{
}

/// The repositories that are rebuilt are those whose indexes are listed, and no others, in the
/// order of the keys.
pub proof fn which_repositories_are_rebuilt(keys: Seq<Seq<char>>, key: Seq<char>, repo: Seq<char>)
    ensures
        indexed_repos(Seq::empty()).len() == 0,
        key == "repos/"@ + repo + "/index.json"@ ==> indexed_repos(keys.push(key)) == indexed_repos(
            keys,
        ).push(repo),
        (forall|r: Seq<char>| key != #[trigger] ("repos/"@ + r + "/index.json"@)) ==> indexed_repos(
            keys.push(key),
        ) == indexed_repos(keys),
{
    assert(keys.push(key).drop_last() =~= keys);
    truth::where_things_are_kept(repo, 0, repo, key);
    if let Some(r) = truth::indexed_repo(key) {
        truth::where_things_are_kept(r, 0, r, key);
        assert(key == "repos/"@ + r + "/index.json"@);
    }
}

} // verus!
