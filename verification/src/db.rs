//! Rows of the local database.

use crate::text;
use vstd::prelude::*;
use vstd::string::*;

verus! {

/// What collection reads of a manifest.
#[derive(Debug)]
pub struct ManifestRow {
    pub id: i64,
    pub repo_id: i64,
    pub digest: String,
    pub subject: Option<String>,
    pub created_at: i64,
}

/// A manifest refers to a blob or to another manifest, as `kind` says.
#[derive(Debug, PartialEq)]
pub struct RefRow {
    pub manifest_id: i64,
    pub child: String,
    pub kind: String,
}

/// A blob that the registry has.
#[derive(Debug)]
pub struct BlobRow {
    pub digest: String,
    pub size: i64,
    pub created_at: i64,
}

/// The references that the rows of one manifest hold.
pub open spec fn ref_views(rows: Seq<RefRow>) -> Seq<(i64, Seq<char>, Seq<char>)> {
    rows.map_values(|r: RefRow| (r.manifest_id, r.child@, r.kind@))
}

/// The references of a manifest: its blobs, then its manifests.
pub open spec fn refs_of(id: i64, blobs: Seq<Seq<char>>, manifests: Seq<Seq<char>>) -> Seq<
    (i64, Seq<char>, Seq<char>),
> {
    blobs.map_values(|d: Seq<char>| (id, d, "blob"@)) + manifests.map_values(
        |d: Seq<char>| (id, d, "manifest"@),
    )
}

fn push_refs(rows: &mut Vec<RefRow>, id: i64, children: &Vec<String>, kind: &str)
    ensures
        ref_views(final(rows)@) == ref_views(old(rows)@) + text::views(children@).map_values(
            |d: Seq<char>| (id, d, kind@),
        ),
{
    let ghost start = ref_views(rows@);
    let ghost all = text::views(children@);
    let ghost f = |d: Seq<char>| (id, d, kind@);
    let mut i: usize = 0;
    proof {
        assert(start =~= start + all.take(0).map_values(f));
    }
    while i < children.len()
        invariant
            i <= children@.len(),
            all == text::views(children@),
            f == (|d: Seq<char>| (id, d, kind@)),
            ref_views(rows@) == start + all.take(i as int).map_values(f),
        decreases children@.len() - i,
    {
        let ghost before = ref_views(rows@);
        rows.push(
            RefRow { manifest_id: id, child: children[i].clone(), kind: kind.to_owned() },
        );
        proof {
            assert(ref_views(rows@) =~= before.push((id, all[i as int], kind@)));
            assert(all.take(i + 1).map_values(f) =~= all.take(i as int).map_values(f).push(
                f(all[i as int]),
            ));
            assert(start + all.take(i + 1).map_values(f) =~= (start + all.take(i as int).map_values(
                f,
            )).push(f(all[i as int])));
        }
        i += 1;
    }
    proof {
        assert(all.take(i as int) =~= all);
    }
}

/// The reference rows of a manifest: its blobs, then its manifests.
pub fn ref_rows(id: i64, blobs: &Vec<String>, manifests: &Vec<String>) -> (rows: Vec<RefRow>)
    ensures
        ref_views(rows@) == refs_of(id, text::views(blobs@), text::views(manifests@)),
{
    let mut rows: Vec<RefRow> = Vec::new();
    push_refs(&mut rows, id, blobs, "blob");
    push_refs(&mut rows, id, manifests, "manifest");
    proof {
        assert(ref_views(rows@) =~= refs_of(id, text::views(blobs@), text::views(manifests@)));
    }
    rows
}

/// A manifest has one reference for each of its blobs and one for each of its manifests, all
/// under its own id, in that order.
pub proof fn every_child_has_a_reference(
    id: i64,
    blobs: Seq<Seq<char>>,
    manifests: Seq<Seq<char>>,
    i: int,
)
    ensures
        refs_of(id, blobs, manifests).len() == blobs.len() + manifests.len(),
        0 <= i < blobs.len() ==> refs_of(id, blobs, manifests)[i] == (id, blobs[i], "blob"@),
        0 <= i < manifests.len() ==> refs_of(id, blobs, manifests)[blobs.len() + i] == (
            id,
            manifests[i],
            "manifest"@,
        ),
{
}

} // verus!
