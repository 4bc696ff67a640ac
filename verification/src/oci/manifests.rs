//! Manifests: what a push records, and what reads give back.

use crate::cache;
use crate::db;
use crate::db::{ref_rows, RefRow};
use crate::digest;
use crate::digest::digest_of;
use crate::json;
use crate::number;
use crate::number::{decimal_of, parse_i64, signed_of};
use crate::oci;
use crate::oci::errors;
use crate::oci::errors::{
    digest_invalid, internal, manifest_unknown, name_unknown, oci_error, Body, Descriptor, Reply,
};
use crate::oci::{lookup, valid_digest, valid_tag};
use crate::order;
use crate::order::sorted;
use crate::table;
use crate::table::Table;
use crate::text;
use crate::truth;
use crate::truth::{ManifestEntry, Mutation};
use vstd::prelude::*;
use vstd::string::*;

verus! {

/// The longest manifest that is taken.
pub const MANIFEST_LIMIT: usize = 4_194_304;

/// The media type of an image manifest.
pub const OCI_MANIFEST: &'static str = "application/vnd.oci.image.manifest.v1+json";

/// The media type of an image index.
pub const OCI_INDEX: &'static str = "application/vnd.oci.image.index.v1+json";

/// A manifest that is to be recorded.
#[derive(Debug)]
pub struct Push {
    pub digest: String,
    /// The tag to move, where the manifest was pushed by tag.
    pub tag: Option<String>,
    pub payload: Vec<u8>,
    pub media_type: String,
    pub subject: Option<String>,
    pub artifact_type: Option<String>,
    /// JSON text.
    pub annotations: Option<String>,
    pub blobs: Vec<String>,
    pub manifests: Vec<String>,
}

/// What a manifest says of itself.
#[derive(Debug)]
pub struct Description {
    pub media_type: String,
    pub subject: Option<String>,
    pub artifact_type: Option<String>,
    pub annotations: Option<String>,
    pub blobs: Vec<String>,
    pub manifests: Vec<String>,
}

#[verifier::ext_equal]
pub struct DescriptionView {
    pub media_type: Seq<char>,
    pub subject: Option<Seq<char>>,
    pub artifact_type: Option<Seq<char>>,
    pub annotations: Option<Seq<char>>,
    pub blobs: Seq<Seq<char>>,
    pub manifests: Seq<Seq<char>>,
}

impl View for Description {
    type V = DescriptionView;

    open spec fn view(&self) -> DescriptionView {
        DescriptionView {
            media_type: self.media_type@,
            subject: text::opt_view(self.subject),
            artifact_type: text::opt_view(self.artifact_type),
            annotations: text::opt_view(self.annotations),
            blobs: text::views(self.blobs@),
            manifests: text::views(self.manifests@),
        }
    }
}

#[verifier::ext_equal]
pub struct PushView {
    pub digest: Seq<char>,
    pub tag: Option<Seq<char>>,
    pub payload: Seq<u8>,
    pub what: DescriptionView,
}

impl View for Push {
    type V = PushView;

    open spec fn view(&self) -> PushView {
        PushView {
            digest: self.digest@,
            tag: text::opt_view(self.tag),
            payload: self.payload@,
            what: DescriptionView {
                media_type: self.media_type@,
                subject: text::opt_view(self.subject),
                artifact_type: text::opt_view(self.artifact_type),
                annotations: text::opt_view(self.annotations),
                blobs: text::views(self.blobs@),
                manifests: text::views(self.manifests@),
            },
        }
    }
}

/// A manifest that is not acceptable.
pub open spec fn invalid(message: Seq<char>) -> errors::ReplyView {
    errors::error_reply(400, "MANIFEST_INVALID"@, message)
}

/// The digests under `digest` of the items of a list, where every item has a valid one.
pub open spec fn digests(items: Seq<json::JsonView>) -> Option<Seq<Seq<char>>>
    decreases items.len(),
{
    if items.len() == 0 {
        Some(Seq::empty())
    } else {
        match (digests(items.drop_last()), json::text_at(items.last(), "digest"@)) {
            (Some(before), Some(d)) => if digest::is_digest(d) {
                Some(before.push(d))
            } else {
                None
            },
            _ => None,
        }
    }
}

/// The digests under a list's name; none where there is no such list.
pub open spec fn listed_digests(v: json::JsonView, name: Seq<char>) -> Option<Seq<Seq<char>>> {
    match json::list_at(v, name) {
        Some(items) => digests(items),
        None => Some(Seq::empty()),
    }
}

/// Why the content of a manifest is refused, if it is: an index entry, the configuration or a
/// layer without a valid digest.
pub open spec fn content_refusal(v: json::JsonView) -> Option<errors::ReplyView> {
    if listed_digests(v, "manifests"@) is None {
        Some(invalid("index entry missing valid digest"@))
    } else if json::text_within(v, "config"@, "digest"@) matches Some(d) && !digest::is_digest(d) {
        Some(errors::digest_invalid_reply("config digest invalid"@))
    } else if listed_digests(v, "layers"@) is None {
        Some(invalid("layer missing valid digest"@))
    } else {
        None
    }
}

/// The blobs that a manifest refers to: its configuration and its layers.
pub open spec fn blobs_of(v: json::JsonView) -> Seq<Seq<char>> {
    (match json::text_within(v, "config"@, "digest"@) {
        Some(d) => seq![d],
        None => Seq::empty(),
    }) + listed_digests(v, "layers"@)->0
}

/// The media type that a `content-type` header declares: what stands before its first
/// semicolon, unless that is empty or says nothing.
pub open spec fn declared_type(header: Option<Seq<char>>) -> Option<Seq<char>> {
    match header {
        Some(h) => {
            let t = text::trimmed(text::pieces(h, ';')[0]);
            if t.len() == 0 || t == "application/octet-stream"@ {
                None
            } else {
                Some(t)
            }
        },
        None => None,
    }
}

/// The media type of a manifest: as declared, else as the manifest says, else an image manifest.
pub open spec fn media_type_of(header: Option<Seq<char>>, v: json::JsonView) -> Seq<char> {
    match declared_type(header) {
        Some(t) => t,
        None => match json::text_at(v, "mediaType"@) {
            Some(t) => t,
            None => OCI_MANIFEST@,
        },
    }
}

/// The manifest that a manifest refers to as its subject; a malformed digest counts for nothing.
pub open spec fn subject_of(v: json::JsonView) -> Option<Seq<char>> {
    match json::text_within(v, "subject"@, "digest"@) {
        Some(d) => if digest::is_digest(d) {
            Some(d)
        } else {
            None
        },
        None => None,
    }
}

/// The artifact type of a manifest: its own, else the type of its configuration.
pub open spec fn artifact_type_of(v: json::JsonView) -> Option<Seq<char>> {
    match json::text_at(v, "artifactType"@) {
        Some(t) => Some(t),
        None => json::text_within(v, "config"@, "mediaType"@),
    }
}

/// The annotations of a manifest, as JSON text.
pub open spec fn annotations_of(v: json::JsonView) -> Option<Seq<char>> {
    match json::member(v, "annotations"@) {
        Some(a) => Some(json::rendered(a)),
        None => None,
    }
}

/// `d` says what the manifest `v` says; its references stand in ascending order, each once.
pub open spec fn describes(
    d: DescriptionView,
    header: Option<Seq<char>>,
    v: json::JsonView,
) -> bool {
    &&& d.media_type == media_type_of(header, v)
    &&& d.subject == subject_of(v)
    &&& d.artifact_type == artifact_type_of(v)
    &&& d.annotations == annotations_of(v)
    &&& table::ascending(d.blobs)
    &&& d.blobs.to_set() == blobs_of(v).to_set()
    &&& table::ascending(d.manifests)
    &&& d.manifests.to_set() == (listed_digests(v, "manifests"@)->0).to_set()
}

fn collect(items: &Vec<serde_json::Value>) -> (r: Option<Vec<String>>)
    ensures
        match r {
            Some(list) => digests(json::all_contents(items@)) == Some(text::views(list@)),
            None => digests(json::all_contents(items@)) is None,
        },
{
    let ghost all = json::all_contents(items@);
    let mut out: Vec<String> = Vec::new();
    let mut i: usize = 0;
    proof {
        assert(text::views(out@) =~= Seq::empty());
    }
    while i < items.len()
        invariant
            i <= items@.len(),
            all == json::all_contents(items@),
            digests(all.take(i as int)) == Some(text::views(out@)),
        decreases items@.len() - i,
    {
        let ghost before = text::views(out@);
        let found = json::get_text(&items[i], "digest");
        proof {
            assert(all.take(i + 1).drop_last() =~= all.take(i as int));
            assert(all.take(i + 1).last() == json::contents(items@[i as int]));
        }
        let ok = match &found {
            Some(d) => valid_digest(d.as_str()),
            None => false,
        };
        if !ok {
            proof {
                bad_item(all, i + 1);
            }
            return None;
        }
        if let Some(d) = found {
            out.push(d);
            proof {
                assert(text::views(out@) =~= before.push(d@));
            }
        }
        i += 1;
    }
    proof {
        assert(all.take(i as int) =~= all);
    }
    Some(out)
}

proof fn bad_item(all: Seq<json::JsonView>, n: int)
    requires
        0 <= n <= all.len(),
        digests(all.take(n)) is None,
    ensures
        digests(all) is None,
    decreases all.len() - n,
{
    if n < all.len() {
        assert(all.take(n + 1).drop_last() =~= all.take(n));
        bad_item(all, n + 1);
    } else {
        assert(all.take(n) =~= all);
    }
}

fn listed(v: &serde_json::Value, name: &str) -> (r: Option<Vec<String>>)
    ensures
        match r {
            Some(list) => listed_digests(json::contents(*v), name@) == Some(text::views(list@)),
            None => listed_digests(json::contents(*v), name@) is None,
        },
{
    match json::get_list(v, name) {
        Some(items) => collect(items),
        None => {
            let none: Vec<String> = Vec::new();
            proof {
                assert(text::views(none@) =~= Seq::empty());
            }
            Some(none)
        },
    }
}

fn declared(header: Option<&str>) -> (r: Option<String>)
    ensures
        text::opt_view(r) == declared_type(text::opt_str(header)),
{
    match header {
        None => None,
        Some(h) => {
            let parts = text::split(h, ';');
            let t = text::trim(parts[0].as_str());
            proof {
                assert(text::views(parts@)[0] == parts@[0]@);
                reveal_strlit("");
                assert(t@.len() == 0 <==> t@ =~= ""@);
            }
            if text::same(t.as_str(), "") || text::same(t.as_str(), "application/octet-stream") {
                None
            } else {
                Some(t)
            }
        },
    }
}

/// Reads what a manifest says of itself, given its `content-type` header.
pub fn describe(header: Option<&str>, v: &serde_json::Value) -> (r: Result<Description, Reply>)
    ensures
        match r {
            Ok(d) => content_refusal(json::contents(*v)) is None && describes(
                d@,
                text::opt_str(header),
                json::contents(*v),
            ),
            Err(reply) => content_refusal(json::contents(*v)) == Some(reply@),
        },
{
    let media_type = match declared(header) {
        Some(t) => t,
        None => match json::get_text(v, "mediaType") {
            Some(t) => t,
            None => OCI_MANIFEST.to_owned(),
        },
    };
    let manifests = match listed(v, "manifests") {
        Some(list) => list,
        None => return Err(
            oci_error(400, "MANIFEST_INVALID", "index entry missing valid digest"),
        ),
    };
    let mut blobs: Vec<String> = Vec::new();
    proof {
        assert(text::views(blobs@) =~= Seq::empty());
    }
    if let Some(d) = json::get_text_within(v, "config", "digest") {
        if !valid_digest(d.as_str()) {
            return Err(digest_invalid("config digest invalid"));
        }
        blobs.push(d);
        proof {
            assert(text::views(blobs@) =~= seq![d@]);
        }
    }
    let ghost config = text::views(blobs@);
    let mut layers = match listed(v, "layers") {
        Some(list) => list,
        None => return Err(oci_error(400, "MANIFEST_INVALID", "layer missing valid digest")),
    };
    let ghost before = text::views(layers@);
    blobs.append(&mut layers);
    proof {
        assert(text::views(blobs@) =~= config + before);
        assert(text::views(blobs@) =~= blobs_of(json::contents(*v)));
    }
    let subject = match json::get_text_within(v, "subject", "digest") {
        Some(d) => {
            if valid_digest(d.as_str()) {
                Some(d)
            } else {
                None
            }
        },
        None => None,
    };
    let artifact_type = match json::get_text(v, "artifactType") {
        Some(t) => Some(t),
        None => json::get_text_within(v, "config", "mediaType"),
    };
    Ok(
        Description {
            media_type,
            subject,
            artifact_type,
            annotations: json::get_rendered(v, "annotations"),
            blobs: sorted(&blobs),
            manifests: sorted(&manifests),
        },
    )
}

/// Why a reference is refused for a manifest with that digest, if it is: a digest has to be the
/// manifest's own, and anything else has to be a tag.
pub open spec fn reference_refusal(reference: Seq<char>, own: Seq<char>) -> Option<
    errors::ReplyView,
> {
    if "sha256:"@.is_prefix_of(reference) {
        if reference != own {
            Some(
                errors::digest_invalid_reply("provided digest does not match manifest content"@),
            )
        } else {
            None
        }
    } else if !oci::is_tag(reference) {
        Some(invalid("invalid tag"@))
    } else {
        None
    }
}

/// The tag that a reference names.
pub open spec fn tag_of(reference: Seq<char>) -> Option<Seq<char>> {
    if "sha256:"@.is_prefix_of(reference) {
        None
    } else {
        Some(reference)
    }
}

/// Why a push is refused, if it is. `body` is what was sent, where it could be read.
pub open spec fn push_refusal(reference: Seq<char>, body: Option<Seq<u8>>) -> Option<
    errors::ReplyView,
> {
    match body {
        None => Some(invalid("manifest too large or unreadable"@)),
        Some(bytes) => if bytes.len() > MANIFEST_LIMIT {
            Some(invalid("manifest too large or unreadable"@))
        } else {
            match reference_refusal(reference, digest::content_digest(bytes)) {
                Some(r) => Some(r),
                None => match json::parsed(bytes) {
                    None => Some(invalid("manifest is not valid JSON"@)),
                    Some(v) => content_refusal(v),
                },
            }
        },
    }
}

/// Takes a push in: the manifest is recorded under the digest of exactly the bytes that were
/// sent.
pub fn put(reference: &str, content_type: Option<&str>, body: Option<Vec<u8>>) -> (r: Result<
    Push,
    Reply,
>)
    ensures
        ({
            let sent = match body {
                Some(b) => Some(b@),
                None => None,
            };
            match r {
                Err(reply) => push_refusal(reference@, sent) == Some(reply@),
                Ok(p) => {
                    &&& push_refusal(reference@, sent) is None
                    &&& sent == Some(p@.payload)
                    &&& p@.digest == digest::content_digest(p@.payload)
                    &&& p@.tag == tag_of(reference@)
                    &&& describes(
                        p@.what,
                        text::opt_str(content_type),
                        json::parsed(p@.payload)->0,
                    )
                },
            }
        }),
{
    let payload = match body {
        Some(b) => b,
        None => return Err(
            oci_error(400, "MANIFEST_INVALID", "manifest too large or unreadable"),
        ),
    };
    if payload.len() > MANIFEST_LIMIT {
        return Err(oci_error(400, "MANIFEST_INVALID", "manifest too large or unreadable"));
    }
    let digest = digest_of(payload.as_slice());
    let tag = if text::has_prefix(reference, "sha256:") {
        if !text::same(reference, digest.as_str()) {
            return Err(digest_invalid("provided digest does not match manifest content"));
        }
        None
    } else {
        if !valid_tag(reference) {
            return Err(oci_error(400, "MANIFEST_INVALID", "invalid tag"));
        }
        Some(reference.to_owned())
    };
    let parsed = match json::parse(payload.as_slice()) {
        Some(v) => v,
        None => return Err(oci_error(400, "MANIFEST_INVALID", "manifest is not valid JSON")),
    };
    match describe(content_type, &parsed) {
        Err(reply) => Err(reply),
        Ok(d) => Ok(
            Push {
                digest,
                tag,
                payload,
                media_type: d.media_type,
                subject: d.subject,
                artifact_type: d.artifact_type,
                annotations: d.annotations,
                blobs: d.blobs,
                manifests: d.manifests,
            },
        ),
    }
}

/// A manifest that refers to something the registry does not have.
pub open spec fn unknown_content_reply(message: Seq<char>) -> errors::ReplyView {
    errors::error_reply(400, "MANIFEST_BLOB_UNKNOWN"@, message)
}

/// The message about a blob that is missing.
pub open spec fn missing_blob(d: Seq<char>) -> Seq<char> {
    "blob "@ + d + " not found"@
}

fn missing_blob_message(d: &str) -> (m: String)
    ensures
        m@ == missing_blob(d@),
{
    let mut m = "blob ".to_owned();
    m.append(d);
    m.append(" not found");
    m
}

/// The reply to a push that was recorded.
pub open spec fn created_reply(name: Seq<char>, p: PushView) -> errors::ReplyView {
    let r = errors::plain(201, errors::BodyView::Empty).with(
        "location"@,
        "/v2/"@ + name + "/manifests/"@ + p.digest,
    ).with("docker-content-digest"@, p.digest);
    match p.what.subject {
        Some(s) => r.with("oci-subject"@, s),
        None => r,
    }
}

/// How recording a push went.
#[derive(Debug)]
pub enum Recorded {
    Done,
    /// It refers to something that is not there.
    Missing(String),
    Failed,
}

pub enum RecordedView {
    Done,
    Missing(Seq<char>),
    Failed,
}

impl View for Recorded {
    type V = RecordedView;

    open spec fn view(&self) -> RecordedView {
        match *self {
            Recorded::Done => RecordedView::Done,
            Recorded::Missing(message) => RecordedView::Missing(message@),
            Recorded::Failed => RecordedView::Failed,
        }
    }
}

/// The reply to a push once it was tried.
pub open spec fn push_reply(name: Seq<char>, p: PushView, how: RecordedView) -> errors::ReplyView {
    match how {
        RecordedView::Done => created_reply(name, p),
        RecordedView::Missing(message) => unknown_content_reply(message),
        RecordedView::Failed => errors::internal_reply(),
    }
}

/// Answers a push once it was tried.
pub fn answer_push(name: &str, p: &Push, how: Recorded) -> (r: Reply)
    ensures
        r@ == push_reply(name@, p@, how@),
{
    match how {
        Recorded::Failed => internal(),
        Recorded::Missing(message) => oci_error(
            400,
            "MANIFEST_BLOB_UNKNOWN",
            message.as_str(),
        ),
        Recorded::Done => {
            let mut location = "/v2/".to_owned();
            location.append(name);
            location.append("/manifests/");
            location.append(p.digest.as_str());
            let r = Reply::new(201, Body::Empty).with("location", location.as_str()).with(
                "docker-content-digest",
                p.digest.as_str(),
            );
            match &p.subject {
                Some(s) => r.with("oci-subject", s.as_str()),
                None => r,
            }
        },
    }
}

/// What a push into a bucket does next.
#[derive(Debug)]
pub enum PushStep {
    /// Find out whether a blob of the manifest can be relied on.
    Check(usize),
    /// Change the index.
    Commit,
    /// Answer.
    Answer(Recorded),
}

pub enum PushStepView {
    Check(int),
    Commit,
    Answer(RecordedView),
}

impl View for PushStep {
    type V = PushStepView;

    open spec fn view(&self) -> PushStepView {
        match *self {
            PushStep::Check(i) => PushStepView::Check(i as int),
            PushStep::Commit => PushStepView::Commit,
            PushStep::Answer(how) => PushStepView::Answer(how@),
        }
    }
}

/// The step that follows once the first `i` blobs were found.
pub open spec fn next_check(p: PushView, i: int) -> PushStepView {
    if i < p.what.blobs.len() {
        PushStepView::Check(i)
    } else {
        PushStepView::Commit
    }
}

/// What follows the write of a manifest's bytes.
pub open spec fn stored(p: PushView, ok: bool) -> PushStepView {
    if ok {
        next_check(p, 0)
    } else {
        PushStepView::Answer(RecordedView::Failed)
    }
}

/// What follows once the bytes of a manifest were written under its key, or could not be.
pub fn after_store(p: &Push, ok: bool) -> (s: PushStep)
    ensures
        s@ == stored(p@, ok),
{
    if !ok {
        PushStep::Answer(Recorded::Failed)
    } else if p.blobs.len() > 0 {
        PushStep::Check(0)
    } else {
        PushStep::Commit
    }
}

/// What follows a look for blob `i`: one that cannot be relied on ends the push.
pub open spec fn checked(p: PushView, i: int, found: Option<bool>) -> PushStepView {
    match found {
        Some(true) => next_check(p, i + 1),
        Some(false) => PushStepView::Answer(RecordedView::Missing(missing_blob(p.what.blobs[i]))),
        None => PushStepView::Answer(RecordedView::Failed),
    }
}

/// What follows once it is known whether blob `i` can be relied on; `None` where that could
/// not be found out.
pub fn after_check(p: &Push, i: usize, found: Option<bool>) -> (s: PushStep)
    requires
        i < p@.what.blobs.len(),
    ensures
        s@ == checked(p@, i as int, found),
{
    match found {
        Some(true) => {
            let n = p.blobs.len();
            assert(i < n);
            if i < n - 1 {
                PushStep::Check(i + 1)
            } else {
                PushStep::Commit
            }
        },
        Some(false) => PushStep::Answer(
            Recorded::Missing(missing_blob_message(p.blobs[i].as_str())),
        ),
        None => PushStep::Answer(Recorded::Failed),
    }
}

/// Where a push into a bucket is after so many looks for blobs: `found` says how each look
/// turned out.
pub open spec fn push_at(p: PushView, ok: bool, found: Seq<Option<bool>>, n: nat) -> PushStepView
    decreases n,
{
    if n == 0 {
        stored(p, ok)
    } else {
        match push_at(p, ok, found, (n - 1) as nat) {
            PushStepView::Check(i) => checked(p, i, found[i]),
            last => last,
        }
    }
}

proof fn push_goes_on(p: PushView, ok: bool, found: Seq<Option<bool>>, n: nat)
    requires
        found.len() == p.what.blobs.len(),
    ensures
        match push_at(p, ok, found, n) {
            PushStepView::Check(i) => i == n && i < found.len() && ok && forall|k: int|
                0 <= k < n ==> #[trigger] found[k] == Some(true),
            PushStepView::Commit => ok && n >= found.len() && forall|k: int|
                0 <= k < found.len() ==> #[trigger] found[k] == Some(true),
            PushStepView::Answer(_) => !ok || exists|k: int|
                0 <= k < found.len() && #[trigger] found[k] != Some(true),
        },
    decreases n,
{
    if n > 0 {
        push_goes_on(p, ok, found, (n - 1) as nat);
        if let PushStepView::Check(i) = push_at(p, ok, found, (n - 1) as nat) {
            assert(found[i] == Some(true) || found[i] != Some(true));
        }
    }
}

/// A push into a bucket changes the index exactly when the bytes of the manifest were written
/// and every blob that it refers to can be relied on; it looks for each of them once.
pub proof fn an_index_is_changed_behind_every_blob(
    p: PushView,
    ok: bool,
    found: Seq<Option<bool>>,
)
    requires
        found.len() == p.what.blobs.len(),
    ensures
        push_at(p, ok, found, found.len()) == PushStepView::Commit <==> ok && forall|k: int|
            0 <= k < found.len() ==> #[trigger] found[k] == Some(true),
        !(push_at(p, ok, found, found.len()) is Check),
{
    push_goes_on(p, ok, found, found.len());
}

/// What an index records of a push.
pub open spec fn entry_of(p: PushView, now: i64) -> truth::ManifestEntryView {
    truth::ManifestEntryView {
        media_type: p.what.media_type,
        size: p.payload.len() as i64,
        subject: p.what.subject,
        artifact_type: p.what.artifact_type,
        annotations: p.what.annotations,
        created_at: now,
        blob_refs: p.what.blobs,
        manifest_refs: p.what.manifests,
    }
}

/// The change of the index that records a push.
pub fn commit(p: &Push, now: i64) -> (m: Mutation)
    ensures
        m@ == (truth::MutationView::Push {
            digest: p@.digest,
            entry: entry_of(p@, now),
            tag: p@.tag,
        }),
{
    Mutation::Push {
        digest: p.digest.clone(),
        entry: ManifestEntry {
            media_type: p.media_type.clone(),
            size: p.payload.len() as i64,
            subject: text::clone_opt(&p.subject),
            artifact_type: text::clone_opt(&p.artifact_type),
            annotations: text::clone_opt(&p.annotations),
            created_at: now,
            blob_refs: text::clone_list(&p.blobs),
            manifest_refs: text::clone_list(&p.manifests),
        },
        tag: text::clone_opt(&p.tag),
    }
}

/// The first of some digests that is not in `have`, or their number.
pub open spec fn first_absent(wanted: Seq<Seq<char>>, have: Set<Seq<char>>) -> int
    decreases wanted.len(),
{
    if wanted.len() == 0 || !have.contains(wanted[0]) {
        0
    } else {
        1 + first_absent(wanted.skip(1), have)
    }
}

fn find_absent(wanted: &Vec<String>, have: &Vec<String>) -> (i: usize)
    ensures
        i == first_absent(text::views(wanted@), text::views(have@).to_set()),
        i <= wanted@.len(),
{
    let set = text::set_of(have);
    let ghost all = text::views(wanted@);
    let mut i: usize = 0;
    proof {
        assert(all.skip(0) =~= all);
    }
    while i < wanted.len()
        invariant
            i <= wanted@.len(),
            all == text::views(wanted@),
            set@ == text::views(have@).to_set(),
            first_absent(all, set@) == i + first_absent(all.skip(i as int), set@),
        decreases wanted@.len() - i,
    {
        if !set.contains(wanted[i].as_str()) {
            return i;
        }
        proof {
            assert(all.skip(i as int).skip(1) =~= all.skip(i + 1));
        }
        i += 1;
    }
    i
}

/// What a push refers to and the local database does not have: a blob first, then a manifest.
pub open spec fn locally_missing(
    p: PushView,
    blobs: Set<Seq<char>>,
    manifests: Set<Seq<char>>,
) -> Option<Seq<char>> {
    let b = first_absent(p.what.blobs, blobs);
    let m = first_absent(p.what.manifests, manifests);
    if b < p.what.blobs.len() {
        Some(missing_blob(p.what.blobs[b]))
    } else if m < p.what.manifests.len() {
        Some(truth::missing_manifest(p.what.manifests[m]))
    } else {
        None
    }
}

/// Whether the local database has what a push refers to: `blobs` and `manifests` are those of
/// its references that were found.
pub fn find_missing(p: &Push, blobs: &Vec<String>, manifests: &Vec<String>) -> (r: Option<String>)
    ensures
        text::opt_view(r) == locally_missing(
            p@,
            text::views(blobs@).to_set(),
            text::views(manifests@).to_set(),
        ),
{
    let b = find_absent(&p.blobs, blobs);
    if b < p.blobs.len() {
        return Some(missing_blob_message(p.blobs[b].as_str()));
    }
    let m = find_absent(&p.manifests, manifests);
    if m < p.manifests.len() {
        let mut message = "manifest ".to_owned();
        message.append(p.manifests[m].as_str());
        message.append(" not found in repository");
        return Some(message);
    }
    None
}

/// The reference rows of a push once its manifest has a row.
pub fn push_refs(p: &Push, id: i64) -> (rows: Vec<RefRow>)
    ensures
        db::ref_views(rows@) == db::refs_of(id, p@.what.blobs, p@.what.manifests),
{
    ref_rows(id, &p.blobs, &p.manifests)
}

/// What recording a push changes in the local database.
#[derive(Debug)]
pub struct RowPlan {
    /// The manifest gets a row.
    pub insert: bool,
    /// The row that the manifest has counts as created now, so that a collection leaves it alone
    /// while the rest of the push is under way.
    pub touch: bool,
    /// The tag to point at it.
    pub tag: Option<String>,
}

/// Decides what recording a push changes: a manifest that is known keeps its row, which counts as
/// created now, and the tag moves in any case.
pub fn record(p: &Push, known: bool) -> (r: RowPlan)
    ensures
        r.insert == !known,
        r.touch == known,
        text::opt_view(r.tag) == p@.tag,
        forall|repo: RepoView|
            repo.manifests.contains_key(p@.digest) == known ==> #[trigger] repo.carried_out(
                p@,
                r.insert,
                text::opt_view(r.tag),
            ) == repo.pushed(p@),
{
    RowPlan { insert: !known, touch: known, tag: text::clone_opt(&p.tag) }
}

/// A manifest as it was recorded.
#[derive(Debug)]
pub struct Stored {
    pub payload: Vec<u8>,
    pub media_type: String,
    pub digest: String,
}

#[verifier::ext_equal]
pub struct StoredView {
    pub payload: Seq<u8>,
    pub media_type: Seq<char>,
    pub digest: Seq<char>,
}

impl View for Stored {
    type V = StoredView;

    open spec fn view(&self) -> StoredView {
        StoredView {
            payload: self.payload@,
            media_type: self.media_type@,
            digest: self.digest@,
        }
    }
}

/// The outcome of a query.
#[derive(Debug)]
pub enum Query<T> {
    Failed,
    Absent,
    Present(T),
}

/// Whether a reference is a digest rather than a tag.
pub fn by_digest(reference: &str) -> (r: bool)
    ensures
        r == (tag_of(reference@) is None),
{
    text::has_prefix(reference, "sha256:")
}

/// The reply that gives a manifest back.
pub open spec fn manifest_reply(s: StoredView, head: bool) -> errors::ReplyView {
    errors::plain(
        200,
        if head {
            errors::BodyView::Empty
        } else {
            errors::BodyView::Bytes(s.payload)
        },
    ).with("content-type"@, s.media_type).with(
        "content-length"@,
        number::decimal(s.payload.len()),
    ).with("docker-content-digest"@, s.digest)
}

/// Answers a request for a manifest; without its bytes where only headers are asked for.
pub fn get(found: Query<Stored>, head: bool) -> (r: Reply)
    ensures
        r@ == match found {
            Query::Failed => errors::internal_reply(),
            Query::Absent => errors::manifest_unknown_reply(),
            Query::Present(s) => manifest_reply(s@, head),
        },
{
    match found {
        Query::Failed => internal(),
        Query::Absent => manifest_unknown(),
        Query::Present(s) => {
            let Stored { payload, media_type, digest } = s;
            let len = decimal_of(payload.len() as u64);
            let body = if head {
                Body::Empty
            } else {
                Body::Bytes(payload)
            };
            Reply::new(200, body).with("content-type", media_type.as_str()).with(
                "content-length",
                len.as_str(),
            ).with("docker-content-digest", digest.as_str())
        },
    }
}

/// The change of the index that a delete asks for.
pub fn delete(reference: &str) -> (m: Mutation)
    ensures
        m@ == match tag_of(reference@) {
            None => truth::MutationView::DeleteManifest(reference@),
            Some(t) => truth::MutationView::DeleteTag(t),
        },
{
    if by_digest(reference) {
        Mutation::DeleteManifest(reference.to_owned())
    } else {
        Mutation::DeleteTag(reference.to_owned())
    }
}

/// Answers a delete: whether there was anything to delete, or `None` where it failed.
pub fn answer_delete(deleted: Option<bool>) -> (r: Reply)
    ensures
        r@ == match deleted {
            Some(true) => errors::plain(202, errors::BodyView::Empty),
            Some(false) => errors::manifest_unknown_reply(),
            None => errors::internal_reply(),
        },
{
    match deleted {
        Some(true) => Reply::new(202, Body::Empty),
        Some(false) => manifest_unknown(),
        None => internal(),
    }
}

/// A name comes after the last one of the page before.
pub open spec fn after_last(last: Option<Seq<char>>, t: Seq<char>) -> bool {
    last matches Some(l) ==> text::lex_lt(l, t)
}

/// How long a page may be; a negative limit means zero.
pub open spec fn page_limit(n: Option<i64>) -> Option<nat> {
    match n {
        Some(n) => Some(
            (if n < 0 {
                0
            } else {
                n as int
            }) as nat,
        ),
        None => None,
    }
}

/// `page` lists, in ascending order, the first of the names that come after `last`, as many as
/// the limit allows.
pub open spec fn is_page(
    page: Seq<Seq<char>>,
    names: Set<Seq<char>>,
    last: Option<Seq<char>>,
    n: Option<i64>,
) -> bool {
    &&& table::ascending(page)
    &&& forall|t: Seq<char>|
        #[trigger] page.contains(t) ==> names.contains(t) && after_last(last, t)
    &&& page_limit(n) matches Some(limit) ==> page.len() <= limit
    &&& forall|t: Seq<char>|
        #[trigger] names.contains(t) && after_last(last, t) && !page.contains(t) ==> page_limit(n)
            == Some(page.len()) && forall|i: int|
            0 <= i < page.len() ==> text::lex_lt(#[trigger] page[i], t)
}

/// The page of names after `last`.
pub fn page(names: &Vec<String>, last: Option<&str>, n: Option<i64>) -> (r: Vec<String>)
    ensures
        is_page(text::views(r@), text::views(names@).to_set(), text::opt_str(last), n),
{
    let all = sorted(names);
    let ghost va = text::views(all@);
    let ghost set = text::views(names@).to_set();
    let ghost from = text::opt_str(last);
    let mut r: Vec<String> = Vec::new();
    let mut i: usize = 0;
    while i < all.len()
        invariant
            i <= all@.len(),
            va == text::views(all@),
            from == text::opt_str(last),
            set == text::views(names@).to_set(),
            set == va.to_set(),
            table::ascending(va),
            table::ascending(text::views(r@)),
            forall|j: int|
                0 <= j < r@.len() ==> va.take(i as int).contains(#[trigger] text::views(r@)[j]),
            forall|t: Seq<char>|
                #[trigger] text::views(r@).contains(t) <==> va.take(i as int).contains(t)
                    && after_last(from, t),
            page_limit(n) matches Some(limit) ==> r@.len() <= limit,
        decreases all@.len() - i,
    {
        let full = match n {
            Some(limit) => limit <= 0 || r.len() as u64 >= limit as u64,
            None => false,
        };
        if full {
            proof {
                page_is_full(va, i as int, text::views(r@), set, from, n);
            }
            return r;
        }
        let ghost before = text::views(r@);
        let hit = match last {
            Some(l) => text::before(l, all[i].as_str()),
            None => true,
        };
        if hit {
            r.push(all[i].clone());
            proof {
                assert(text::views(r@) =~= before.push(va[i as int]));
            }
        }
        proof {
            table::picked_in_order(va, i as int, before);
            assert forall|t: Seq<char>| #[trigger] text::views(r@).contains(t) <==> va.take(
                i + 1,
            ).contains(t) && after_last(from, t) by {
                text::contains_push(va.take(i as int), va[i as int], t);
                text::contains_push(before, va[i as int], t);
                assert(va.take(i + 1) =~= va.take(i as int).push(va[i as int]));
            }
        }
        i += 1;
    }
    proof {
        assert(va.take(i as int) =~= va);
        assert forall|t: Seq<char>| set.contains(t) == va.contains(t) by {}
    }
    r
}

proof fn page_is_full(
    va: Seq<Seq<char>>,
    i: int,
    list: Seq<Seq<char>>,
    set: Set<Seq<char>>,
    from: Option<Seq<char>>,
    n: Option<i64>,
)
    requires
        table::ascending(va),
        set == va.to_set(),
        0 <= i < va.len(),
        table::ascending(list),
        page_limit(n) == Some(list.len()),
        forall|j: int| 0 <= j < list.len() ==> va.take(i).contains(#[trigger] list[j]),
        forall|t: Seq<char>|
            #[trigger] list.contains(t) <==> va.take(i).contains(t) && after_last(from, t),
    ensures
        is_page(list, set, from, n),
{
    assert forall|t: Seq<char>| #[trigger] list.contains(t) implies set.contains(t)
        && after_last(from, t) by {
        let j = va.take(i).index_of(t);
        assert(va[j] == t);
    }
    assert forall|t: Seq<char>|
        #[trigger] set.contains(t) && after_last(from, t) && !list.contains(t) implies page_limit(n)
        == Some(list.len()) && forall|k: int|
        0 <= k < list.len() ==> text::lex_lt(#[trigger] list[k], t) by {
        assert(va.contains(t));
        let j = va.index_of(t);
        if j < i {
            assert(va.take(i)[j] == t);
        }
        assert forall|k: int| 0 <= k < list.len() implies text::lex_lt(#[trigger] list[k], t) by {
            let x = va.take(i).index_of(list[k]);
            assert(va[x] == list[k]);
            assert(text::lex_lt(va[x], va[j]));
        }
    }
}

/// A page is full, so that another may follow it.
pub open spec fn is_full(page: Seq<Seq<char>>, n: Option<i64>) -> bool {
    n matches Some(n) && n > 0 && page.len() == n
}

/// The query that asks for the next page.
pub open spec fn next_query(last: Seq<char>, n: i64) -> Seq<char> {
    "last="@ + last + "&n="@ + number::signed(n as int)
}

/// Where the next page of a full page is found.
pub open spec fn next_link(name: Seq<char>, last: Seq<char>, n: i64) -> Seq<char> {
    "</v2/"@ + name + "/tags/list?"@ + next_query(last, n) + ">; rel=\"next\""@
}

/// The reply that lists a page of tags; a full page links to the next one.
pub open spec fn tags_reply(name: Seq<char>, page: Seq<Seq<char>>, n: Option<i64>) -> errors::ReplyView {
    let r = errors::plain(200, errors::BodyView::Tags(name, page)).with(
        "content-type"@,
        "application/json"@,
    );
    if is_full(page, n) {
        r.with("link"@, next_link(name, page.last(), n->0))
    } else {
        r
    }
}

/// The limit that a query asks for.
pub open spec fn asked_limit(query: Map<Seq<char>, Seq<char>>) -> Option<i64> {
    match oci::parameter(query, "n"@) {
        Some(v) => number::read_i64(v),
        None => None,
    }
}

/// Lists the tags of a repository, page by page: `names` are all its tags.
pub fn tags_list(name: &str, names: Query<Vec<String>>, query: &Table<String>) -> (r: Reply)
    ensures
        match names {
            Query::Failed => r@ == errors::internal_reply(),
            Query::Absent => r@ == errors::name_unknown_reply(),
            Query::Present(all) => exists|p: Seq<Seq<char>>|
                #![trigger tags_reply(name@, p, asked_limit(oci::texts(query@)))]
                is_page(
                    p,
                    text::views(all@).to_set(),
                    oci::parameter(oci::texts(query@), "last"@),
                    asked_limit(oci::texts(query@)),
                ) && r@ == tags_reply(name@, p, asked_limit(oci::texts(query@))),
        },
{
    let all = match names {
        Query::Failed => return internal(),
        Query::Absent => return name_unknown(),
        Query::Present(all) => all,
    };
    let n = match lookup(query, "n") {
        Some(v) => parse_i64(v),
        None => None,
    };
    let shown = page(&all, lookup(query, "last"), n);
    let ghost p = text::views(shown@);
    let full = match n {
        Some(limit) => limit > 0 && shown.len() as u64 == limit as u64,
        None => false,
    };
    let link = if full {
        let mut link = "</v2/".to_owned();
        link.append(name);
        link.append("/tags/list?");
        link.append("last=");
        link.append(shown[shown.len() - 1].as_str());
        link.append("&n=");
        link.append(signed_of(n.unwrap()).as_str());
        link.append(">; rel=\"next\"");
        proof {
            assert(link@ =~= next_link(name@, p.last(), n->0));
        }
        Some(link)
    } else {
        None
    };
    let r = Reply::new(200, Body::Tags(name.to_owned(), shown)).with(
        "content-type",
        "application/json",
    );
    let r = match link {
        Some(link) => r.with("link", link.as_str()),
        None => r,
    };
    proof {
        assert(r@ == tags_reply(name@, p, asked_limit(oci::texts(query@))));
    }
    r
}

/// Following the links visits every tag: a name that comes after `last` is on the page or
/// comes after the page's own last name, never both.
pub proof fn pages_cover_every_tag(
    page: Seq<Seq<char>>,
    names: Set<Seq<char>>,
    last: Option<Seq<char>>,
    n: Option<i64>,
    t: Seq<char>,
)
    requires
        is_page(page, names, last, n),
        page.len() > 0,
        names.contains(t),
        after_last(last, t),
    ensures
        page.contains(t) <==> !after_last(Some(page.last()), t),
{
    if page.contains(t) {
        let i = page.index_of(t);
        if i < page.len() - 1 {
            assert(text::lex_lt(page[i], page[page.len() - 1]));
            text::lex_asymmetric(page[i], page[page.len() - 1]);
        } else {
            text::lex_irreflexive(t);
        }
    } else {
        assert(text::lex_lt(page[page.len() - 1], t));
    }
}

/// A page is determined by the names, the name it starts after and its limit.
pub proof fn a_page_is_unique(
    a: Seq<Seq<char>>,
    b: Seq<Seq<char>>,
    names: Set<Seq<char>>,
    last: Option<Seq<char>>,
    n: Option<i64>,
)
    requires
        is_page(a, names, last, n),
        is_page(b, names, last, n),
    ensures
        a == b,
{
    table::ascending_distinct(a);
    table::ascending_distinct(b);
    if a.to_set() != b.to_set() {
        if forall|x: Seq<char>| a.contains(x) ==> b.contains(x) {
            assert(!(forall|x: Seq<char>| b.contains(x) ==> a.contains(x))) by {
                if forall|x: Seq<char>| b.contains(x) ==> a.contains(x) {
                    assert(a.to_set() =~= b.to_set());
                }
            }
            let y = choose|y: Seq<char>| b.contains(y) && !a.contains(y);
            assert(names.contains(y));
            one_page_holds_more(b, a, y);
        } else {
            let x = choose|x: Seq<char>| a.contains(x) && !b.contains(x);
            assert(names.contains(x));
            if forall|y: Seq<char>| b.contains(y) ==> a.contains(y) {
                one_page_holds_more(a, b, x);
            } else {
                let y = choose|y: Seq<char>| b.contains(y) && !a.contains(y);
                assert(names.contains(y));
                let i = a.index_of(x);
                let j = b.index_of(y);
                assert(text::lex_lt(a[i], y));
                assert(text::lex_lt(b[j], x));
                text::lex_asymmetric(x, y);
            }
        }
    }
    order::ascending_is_unique(a, b);
}

/// A list without repetition that holds all of another and one more is longer.
proof fn one_page_holds_more(a: Seq<Seq<char>>, b: Seq<Seq<char>>, x: Seq<char>)
    requires
        a.no_duplicates(),
        b.no_duplicates(),
        a.contains(x),
        !b.contains(x),
        forall|y: Seq<char>| b.contains(y) ==> a.contains(y),
    ensures
        a.len() > b.len(),
{
    a.unique_seq_to_set();
    b.unique_seq_to_set();
    assert(b.to_set().subset_of(a.to_set().remove(x))) by {
        assert forall|y: Seq<char>| b.to_set().contains(y) implies a.to_set().remove(x).contains(
            y,
        ) by {
            assert(b.contains(y));
        }
    }
    vstd::set_lib::lemma_len_subset(b.to_set(), a.to_set().remove(x));
}

/// A manifest that refers to another as its subject.
#[derive(Debug)]
pub struct ReferrerRow {
    pub digest: String,
    pub media_type: String,
    pub size: i64,
    pub artifact_type: Option<String>,
    pub annotations: Option<String>,
}

/// What a listing says of a referrer; annotations that are not JSON are left out.
pub open spec fn referrer_view(row: ReferrerRow, annotated: bool) -> errors::DescriptorView {
    errors::DescriptorView {
        media_type: row.media_type@,
        digest: row.digest@,
        size: row.size,
        artifact_type: text::opt_view(row.artifact_type),
        annotations: if annotated {
            text::opt_view(row.annotations)
        } else {
            None
        },
    }
}

/// Describes a referrer, with its annotations where they are JSON.
pub fn describe_referrer(row: &ReferrerRow, annotated: bool) -> (d: Descriptor)
    ensures
        d@ == referrer_view(*row, annotated),
{
    Descriptor {
        media_type: row.media_type.clone(),
        digest: row.digest.clone(),
        size: row.size,
        artifact_type: text::clone_opt(&row.artifact_type),
        annotations: if annotated {
            text::clone_opt(&row.annotations)
        } else {
            None
        },
    }
}

/// The annotations of a row are there and are JSON.
pub open spec fn well_annotated(row: ReferrerRow) -> bool {
    row.annotations matches Some(a) && json::parsed(vstd::utf8::encode_utf8(a@)) is Some
}

/// A row passes the filter on the artifact type, where there is one.
pub open spec fn passes(row: ReferrerRow, filter: Option<Seq<char>>) -> bool {
    filter is Some ==> text::opt_view(row.artifact_type) == filter
}

/// The descriptors of the rows that pass the filter, in order.
pub open spec fn referrer_list(rows: Seq<ReferrerRow>, filter: Option<Seq<char>>) -> Seq<
    errors::DescriptorView,
>
    decreases rows.len(),
{
    if rows.len() == 0 {
        Seq::empty()
    } else {
        let before = referrer_list(rows.drop_last(), filter);
        if passes(rows.last(), filter) {
            before.push(referrer_view(rows.last(), well_annotated(rows.last())))
        } else {
            before
        }
    }
}

/// The reply that lists referrers.
pub open spec fn referrers_reply(
    list: Seq<errors::DescriptorView>,
    filtered: bool,
) -> errors::ReplyView {
    let r = errors::plain(200, errors::BodyView::Index(list)).with("content-type"@, OCI_INDEX@);
    if filtered {
        r.with("oci-filters-applied"@, "artifactType"@)
    } else {
        r
    }
}

/// Lists what refers to a manifest as its subject: `rows` are those manifests, or `None` where
/// they could not be read.
pub fn referrers(rows: Option<Vec<ReferrerRow>>, query: &Table<String>) -> (r: Reply)
    ensures
        r@ == match rows {
            None => errors::internal_reply(),
            Some(rows) => referrers_reply(
                referrer_list(rows@, oci::parameter(oci::texts(query@), "artifactType"@)),
                oci::parameter(oci::texts(query@), "artifactType"@) is Some,
            ),
        },
{
    let rows = match rows {
        Some(rows) => rows,
        None => return internal(),
    };
    let filter = lookup(query, "artifactType");
    let ghost f = text::opt_str(filter);
    let mut list: Vec<Descriptor> = Vec::new();
    let mut i: usize = 0;
    proof {
        assert(list@.map_values(|d: Descriptor| d@) =~= Seq::empty());
    }
    while i < rows.len()
        invariant
            i <= rows@.len(),
            f == text::opt_str(filter),
            list@.map_values(|d: Descriptor| d@) == referrer_list(rows@.take(i as int), f),
        decreases rows@.len() - i,
    {
        let row = &rows[i];
        let ghost before = list@.map_values(|d: Descriptor| d@);
        proof {
            assert(rows@.take(i + 1).drop_last() =~= rows@.take(i as int));
            assert(rows@.take(i + 1).last() == *row);
        }
        let ok = match filter {
            None => true,
            Some(want) => match &row.artifact_type {
                Some(have) => text::same(have.as_str(), want),
                None => false,
            },
        };
        if ok {
            let annotated = match &row.annotations {
                Some(a) => json::is_json(a.as_str()),
                None => false,
            };
            let d = describe_referrer(row, annotated);
            list.push(d);
            proof {
                assert(list@.map_values(|d: Descriptor| d@) =~= before.push(d@));
            }
        }
        i += 1;
    }
    proof {
        assert(rows@.take(i as int) =~= rows@);
    }
    let r = Reply::new(200, Body::Index(list)).with("content-type", OCI_INDEX);
    if filter.is_some() {
        r.with("oci-filters-applied", "artifactType")
    } else {
        r
    }
}

/// What reads see of a repository: its manifests by digest, and the digests that its tags
/// point at.
#[verifier::ext_equal]
pub struct RepoView {
    pub manifests: Map<Seq<char>, StoredView>,
    pub tags: Map<Seq<char>, Seq<char>>,
}

impl RepoView {
    /// Every manifest is kept under the digest of its bytes, and every tag points at a manifest.
    pub open spec fn sound(self) -> bool {
        &&& forall|d: Seq<char>| #[trigger]
            self.manifests.contains_key(d) ==> self.manifests[d].digest == d
                && digest::content_digest(self.manifests[d].payload) == d
        &&& forall|t: Seq<char>| #[trigger]
            self.tags.contains_key(t) ==> self.manifests.contains_key(self.tags[t])
    }

    /// What a reference leads to.
    pub open spec fn read(self, reference: Seq<char>) -> Option<StoredView> {
        match tag_of(reference) {
            None => if self.manifests.contains_key(reference) {
                Some(self.manifests[reference])
            } else {
                None
            },
            Some(t) => if self.tags.contains_key(t) {
                Some(self.manifests[self.tags[t]])
            } else {
                None
            },
        }
    }

    /// What reads see once the rows of a push were written: that of its manifest where there is
    /// one to insert, and that of a tag where there is one.
    pub open spec fn carried_out(
        self,
        p: PushView,
        insert: bool,
        tag: Option<Seq<char>>,
    ) -> RepoView {
        RepoView {
            manifests: if insert {
                self.manifests.insert(
                    p.digest,
                    StoredView {
                        payload: p.payload,
                        media_type: p.what.media_type,
                        digest: p.digest,
                    },
                )
            } else {
                self.manifests
            },
            tags: match tag {
                Some(t) => self.tags.insert(t, p.digest),
                None => self.tags,
            },
        }
    }

    /// What reads see once the cache was brought in line with an index: the bytes that were
    /// cached or `fetched`, and everything else as the index records it.
    pub open spec fn synced(
        self,
        doc: truth::IndexView,
        fetched: Map<Seq<char>, Seq<u8>>,
    ) -> RepoView {
        let cached = self.manifests.dom();
        RepoView {
            manifests: Map::new(
                |d: Seq<char>| cache::present(doc, cached, fetched.dom(), d),
                |d: Seq<char>|
                    StoredView {
                        payload: if cached.contains(d) {
                            self.manifests[d].payload
                        } else {
                            fetched[d]
                        },
                        media_type: doc.manifests[d].media_type,
                        digest: d,
                    },
            ),
            tags: Map::new(
                |t: Seq<char>| cache::tags_present(doc, cached, fetched.dom()).contains(t),
                |t: Seq<char>| doc.tags[t].digest,
            ),
        }
    }

    /// The repository after a push that went into the local database: a manifest that is known
    /// stays as it is, and the tag moves.
    pub open spec fn pushed(self, p: PushView) -> RepoView {
        RepoView {
            manifests: if self.manifests.contains_key(p.digest) {
                self.manifests
            } else {
                self.manifests.insert(
                    p.digest,
                    StoredView {
                        payload: p.payload,
                        media_type: p.what.media_type,
                        digest: p.digest,
                    },
                )
            },
            tags: match p.tag {
                Some(t) => self.tags.insert(t, p.digest),
                None => self.tags,
            },
        }
    }
}

proof fn digests_are_no_tags(bytes: Seq<u8>)
    ensures
        tag_of(digest::content_digest(bytes)) is None,
{
    let d = digest::content_digest(bytes);
    assert(d.subrange(0, "sha256:"@.len() as int) =~= "sha256:"@);
}

/// Bringing the cache in line by a plan gives just these reads.
pub proof fn a_plan_gives_these_reads(
    repo: RepoView,
    plan: cache::SyncPlan,
    doc: truth::IndexView,
    rows: Seq<(i64, String)>,
    before: Map<Seq<char>, truth::ManifestEntryView>,
    fetched: Map<Seq<char>, Seq<u8>>,
)
    requires
        forall|i: int, j: int|
            0 <= i < j < rows.len() ==> (#[trigger] rows[i]).0 != (#[trigger] rows[j]).0,
        cache::row_digests(rows).to_set() == repo.manifests.dom(),
        cache::is_plan(plan, doc, rows, fetched.dom()),
    ensures
        ({
            let after = repo.synced(doc, fetched);
            let entries = cache::entries_after(plan, doc, rows, before);
            let tags = cache::tags_after(plan);
            &&& after.manifests.dom() == entries.dom()
            &&& forall|d: Seq<char>|
                #[trigger] entries.contains_key(d) ==> after.manifests[d].media_type
                    == entries[d].media_type
            &&& after.tags == tags.map_values(|e: truth::TagEntryView| e.digest)
        }),
{
    cache::a_plan_does_what_it_says(plan, doc, rows, before, fetched.dom());
    let after = repo.synced(doc, fetched);
    let entries = cache::entries_after(plan, doc, rows, before);
    assert(after.manifests.dom() =~= entries.dom());
    assert(after.tags =~= cache::tags_after(plan).map_values(|e: truth::TagEntryView| e.digest));
}

/// A manifest that was pushed into a bucket reads back once the cache was brought in line with
/// the index: by its digest and by its tag, with the media type that it was sent with, and with
/// bytes of exactly its digest, the ones that were sent where none were cached. What leads to
/// other manifests reads as before.
pub proof fn a_manifest_pushed_into_a_bucket_reads_back(
    repo: RepoView,
    p: PushView,
    doc: truth::IndexView,
    at: i64,
    fetched: Map<Seq<char>, Seq<u8>>,
    other: Seq<char>,
)
    requires
        repo.sound(),
        p.digest == digest::content_digest(p.payload),
        p.tag matches Some(t) ==> tag_of(t) == Some(t),
        truth::tags_resolve(doc),
        truth::changed(
            truth::MutationView::Push { digest: p.digest, entry: entry_of(p, at), tag: p.tag },
            doc,
            at,
        ) is Ok,
        forall|d: Seq<char>|
            (#[trigger] doc.manifests.contains_key(d) || d == p.digest)
                && !repo.manifests.contains_key(d) ==> fetched.contains_key(d)
                && digest::content_digest(fetched[d]) == d,
        fetched.contains_key(p.digest) ==> fetched[p.digest] == p.payload,
    ensures
        ({
            let index = truth::changed(
                truth::MutationView::Push {
                    digest: p.digest,
                    entry: entry_of(p, at),
                    tag: p.tag,
                },
                doc,
                at,
            )->Ok_0.0;
            let after = repo.synced(index, fetched);
            &&& after.sound()
            &&& after.read(p.digest) matches Some(s) && {
                &&& s.digest == p.digest
                &&& s.media_type == p.what.media_type
                &&& digest::content_digest(s.payload) == p.digest
                &&& !repo.manifests.contains_key(p.digest) ==> s.payload == p.payload
            }
            &&& p.tag matches Some(t) ==> after.read(t) == after.read(p.digest)
            &&& other != p.digest && Some(other) != p.tag && !(tag_of(other) matches Some(t)
                && doc.tags.contains_key(t) && doc.tags[t].digest == p.digest) ==> after.read(other)
                == repo.synced(doc, fetched).read(other)
        }),
{
    digests_are_no_tags(p.payload);
    let change = truth::MutationView::Push {
        digest: p.digest,
        entry: entry_of(p, at),
        tag: p.tag,
    };
    let index = truth::changed(change, doc, at)->Ok_0.0;
    truth::changes_keep_tags_resolved(change, doc, at);
    let after = repo.synced(index, fetched);
    assert forall|d: Seq<char>| #[trigger]
        index.manifests.contains_key(d) implies after.manifests.contains_key(d) by {
        assert(doc.manifests.contains_key(d) || d == p.digest);
    }
    assert forall|d: Seq<char>| #[trigger]
        after.manifests.contains_key(d) implies after.manifests[d].digest == d
        && digest::content_digest(after.manifests[d].payload) == d by {
        assert(doc.manifests.contains_key(d) || d == p.digest);
        if repo.manifests.contains_key(d) {
            assert(digest::content_digest(repo.manifests[d].payload) == d);
        }
    }
    assert forall|t: Seq<char>| #[trigger]
        after.tags.contains_key(t) implies after.manifests.contains_key(after.tags[t]) by {
        assert(index.tags.contains_key(t));
    }
    assert(index.manifests.contains_key(p.digest));
    if let Some(t) = p.tag {
        assert(index.tags.contains_key(t));
        assert(after.tags.contains_key(t));
    }
    let then = repo.synced(doc, fetched);
    if let Some(t) = tag_of(other) {
        if doc.tags.contains_key(t) {
            assert(doc.manifests.contains_key(doc.tags[t].digest));
        }
    }
}

/// A manifest that was pushed into the local database reads back, by its digest and by its tag:
/// the bytes have exactly the digest that was asked for, and where the manifest was new they are
/// the ones that were sent, with the media type they were sent with. Nothing else reads
/// differently.
pub proof fn a_pushed_manifest_reads_back(repo: RepoView, p: PushView, other: Seq<char>)
    requires
        repo.sound(),
        p.digest == digest::content_digest(p.payload),
        p.tag matches Some(t) ==> tag_of(t) == Some(t),
    ensures
        repo.pushed(p).sound(),
        repo.pushed(p).read(p.digest) matches Some(s) && {
            &&& s.digest == p.digest
            &&& digest::content_digest(s.payload) == p.digest
            &&& !repo.manifests.contains_key(p.digest) ==> s.payload == p.payload && s.media_type
                == p.what.media_type
        },
        p.tag matches Some(t) ==> repo.pushed(p).read(t) == repo.pushed(p).read(p.digest),
        other != p.digest && Some(other) != p.tag ==> repo.pushed(p).read(other) == repo.read(
            other,
        ),
{
    digests_are_no_tags(p.payload);
    let after = repo.pushed(p);
    assert forall|t: Seq<char>| #[trigger]
        after.tags.contains_key(t) implies after.manifests.contains_key(after.tags[t]) by {
        if Some(t) != p.tag {
            assert(repo.tags.contains_key(t));
        }
    }
    assert forall|d: Seq<char>| #[trigger]
        after.manifests.contains_key(d) implies after.manifests[d].digest == d
        && digest::content_digest(after.manifests[d].payload) == d by {
        if d != p.digest {
            assert(repo.manifests.contains_key(d));
        }
    }
    if other != p.digest && Some(other) != p.tag {
        if let Some(t) = tag_of(other) {
            if repo.tags.contains_key(t) {
                assert(repo.manifests.contains_key(repo.tags[t]));
            }
        }
    }
}

/// The reply to a read gives the recorded bytes back as they are, and names their digest, their
/// media type and their length.
pub proof fn replies_hold_what_was_recorded(s: StoredView, head: bool)
    ensures
        ({
            let r = manifest_reply(s, head);
            &&& r.status == 200
            &&& !head ==> r.body == errors::BodyView::Bytes(s.payload)
            &&& r.headers.contains(("docker-content-digest"@, s.digest))
            &&& r.headers.contains(("content-type"@, s.media_type))
            &&& r.headers.contains(("content-length"@, number::decimal(s.payload.len())))
        }),
{
    let r = manifest_reply(s, head);
    assert(r.headers[0] == ("content-type"@, s.media_type));
    assert(r.headers[1] == ("content-length"@, number::decimal(s.payload.len())));
    assert(r.headers[2] == ("docker-content-digest"@, s.digest));
}

proof fn one_pair(k: Seq<char>, v: Seq<char>)
    requires
        forall|i: int| 0 <= i < k.len() ==> k[i] != '=',
    ensures
        text::cut(k + "="@ + v, '=') == Some((k, v)),
{
    reveal_strlit("=");
    let s = k + "="@ + v;
    assert forall|j: int| 0 <= j < k.len() implies s[j] != '=' by {
        assert(s[j] == k[j]);
    }
    assert(s[k.len() as int] == '=');
    text::first_of_unique(s, '=', k.len() as int);
    assert(s.take(k.len() as int) =~= k);
    assert(s.skip(k.len() as int + 1) =~= v);
}

/// The link to the next page asks for it: its query reads back as the last name of the page and
/// the same limit.
pub proof fn links_lead_on(last: Seq<char>, n: i64)
    requires
        oci::is_tag(last),
    ensures
        oci::parameter(oci::query_of(Some(next_query(last, n))), "last"@) == Some(last),
        asked_limit(oci::query_of(Some(next_query(last, n)))) == Some(n),
{
    reveal_strlit("last=");
    reveal_strlit("&n=");
    reveal_strlit("last");
    reveal_strlit("n");
    reveal_strlit("=");
    let digits = number::signed(n as int);
    let q = "last="@ + last + "&n="@ + digits;
    let a = "last"@ + "="@ + last;
    let b = "n"@ + "="@ + digits;
    number::signed_chars(n as int);
    number::signed_reads_back(n as int);
    assert(q =~= a + seq!['&'] + b);
    assert forall|j: int| 0 <= j < a.len() implies q[j] != '&' by {
        if j >= 5 {
            assert(q[j] == last[j - 5]);
            assert(oci::letter_or_digit(last[j - 5]) || last[j - 5] == '.' || last[j - 5] == '_'
                || last[j - 5] == '-');
        }
    }
    assert(q[a.len() as int] == '&');
    text::first_of_unique(q, '&', a.len() as int);
    assert(q.take(a.len() as int) =~= a);
    assert(q.skip(a.len() as int + 1) =~= b);
    assert forall|j: int| 0 <= j < b.len() implies b[j] != '&' by {
        if j >= 2 {
            assert(b[j] == digits[j - 2]);
        }
    }
    text::first_of_unique(b, '&', b.len() as int);
    assert(text::pieces(b, '&') == seq![b]);
    assert(text::pieces(q, '&') =~= seq![a, b]);
    one_pair("last"@, last);
    one_pair("n"@, digits);
    let pairs = seq![a, b];
    assert(pairs.drop_last() =~= seq![a]);
    assert(seq![a].drop_last() =~= Seq::<Seq<char>>::empty());
    assert(oci::parameters(seq![a].drop_last()) =~= Map::empty());
    assert(oci::parameters(seq![a]) =~= Map::<Seq<char>, Seq<char>>::empty().insert("last"@, last));
    assert("last"@.len() != "n"@.len());
    assert(oci::parameters(pairs) =~= Map::<Seq<char>, Seq<char>>::empty().insert("last"@, last).insert(
        "n"@,
        digits,
    ));
}

/// `pages` are what a client sees who starts with `query` and follows the links: each page is the
/// answer to its query, and each but the last links to the next.
pub open spec fn follows(
    pages: Seq<Seq<Seq<char>>>,
    names: Set<Seq<char>>,
    query: Map<Seq<char>, Seq<char>>,
) -> bool
    decreases pages.len(),
{
    let n = asked_limit(query);
    &&& pages.len() > 0
    &&& is_page(pages.first(), names, oci::parameter(query, "last"@), n)
    &&& pages.len() > 1 ==> is_full(pages.first(), n) && follows(
        pages.drop_first(),
        names,
        oci::query_of(Some(next_query(pages.first().last(), n->0))),
    )
}

proof fn pages_so_far(
    pages: Seq<Seq<Seq<char>>>,
    names: Set<Seq<char>>,
    query: Map<Seq<char>, Seq<char>>,
)
    requires
        follows(pages, names, query),
        forall|t: Seq<char>| #[trigger] names.contains(t) ==> oci::is_tag(t),
        asked_limit(query) matches Some(n) ==> n > 0,
    ensures
        table::ascending(pages.flatten()),
        forall|t: Seq<char>|
            #[trigger] pages.flatten().contains(t) ==> names.contains(t) && after_last(
                oci::parameter(query, "last"@),
                t,
            ),
        !is_full(pages.last(), asked_limit(query)) ==> forall|t: Seq<char>|
            #[trigger] names.contains(t) && after_last(oci::parameter(query, "last"@), t)
                ==> pages.flatten().contains(t),
        asked_limit(query) matches Some(n) ==> pages.flatten().len() >= (pages.len() - 1) * n,
        asked_limit(query) is None ==> pages.len() == 1,
    decreases pages.len(),
{
    let n = asked_limit(query);
    let from = oci::parameter(query, "last"@);
    let page = pages.first();
    let rest = pages.drop_first();
    let all = pages.flatten();
    assert(all == page + rest.flatten());
    if pages.len() == 1 {
        assert(rest.flatten() =~= Seq::empty());
        assert(all =~= page);
        assert(pages.last() == page);
        if !is_full(page, n) {
            assert forall|t: Seq<char>| #[trigger] names.contains(t) && after_last(
                from,
                t,
            ) implies all.contains(t) by {
                if !page.contains(t) {
                    assert(page_limit(n) == Some(page.len()));
                }
            }
        }
    } else {
        let limit = n->0;
        let last = page.last();
        let next = oci::query_of(Some(next_query(last, limit)));
        let more = rest.flatten();
        assert(page.contains(last));
        assert(names.contains(last));
        links_lead_on(last, limit);
        pages_so_far(rest, names, next);
        assert(rest.last() == pages.last());
        assert forall|a: int, b: int| 0 <= a < b < all.len() implies text::lex_lt(
            #[trigger] all[a],
            #[trigger] all[b],
        ) by {
            if b < page.len() {
                assert(all[a] == page[a] && all[b] == page[b]);
            } else {
                let y = more[b - page.len()];
                assert(more.contains(y));
                assert(after_last(Some(last), y));
                if a >= page.len() {
                    assert(all[a] == more[a - page.len()]);
                } else if a < page.len() - 1 {
                    assert(text::lex_lt(page[a], page[page.len() - 1]));
                    text::lex_transitive(page[a], last, y);
                }
            }
        }
        assert forall|t: Seq<char>| #[trigger] all.contains(t) implies names.contains(t)
            && after_last(from, t) by {
            let i = all.index_of(t);
            if i < page.len() {
                assert(page[i] == t);
                assert(page.contains(t));
            } else {
                assert(more[i - page.len()] == t);
                assert(more.contains(t));
                if let Some(f) = from {
                    assert(after_last(from, last));
                    text::lex_transitive(f, last, t);
                }
            }
        }
        if !is_full(pages.last(), n) {
            assert forall|t: Seq<char>| #[trigger] names.contains(t) && after_last(
                from,
                t,
            ) implies all.contains(t) by {
                pages_cover_every_tag(page, names, from, n, t);
                if page.contains(t) {
                    assert(all[page.index_of(t)] == t);
                } else {
                    assert(more.contains(t));
                    assert(all[page.len() + more.index_of(t)] == t);
                }
            }
        }
        assert((pages.len() - 1) * limit == (rest.len() - 1) * limit + limit) by (nonlinear_arith)
            requires
                rest.len() == pages.len() - 1,
        ;
    }
}

/// Following the links lists every tag, each once and in order: the pages that a client sees who
/// starts without a last name, one after the other, are in ascending order, and once a page
/// links to no other they hold exactly the tags of the repository. There are only so many
/// pages, and only one where no limit is asked for.
pub proof fn following_the_links_lists_every_tag(
    pages: Seq<Seq<Seq<char>>>,
    names: Set<Seq<char>>,
    query: Map<Seq<char>, Seq<char>>,
)
    requires
        follows(pages, names, query),
        oci::parameter(query, "last"@) is None,
        asked_limit(query) matches Some(n) ==> n > 0,
        names.finite(),
        forall|t: Seq<char>| #[trigger] names.contains(t) ==> oci::is_tag(t),
    ensures
        table::ascending(pages.flatten()),
        !is_full(pages.last(), asked_limit(query)) ==> pages.flatten().to_set() == names
            && pages.flatten().len() == names.len(),
        asked_limit(query) matches Some(n) ==> (pages.len() - 1) * n <= names.len(),
        asked_limit(query) is None ==> pages.len() == 1,
{
    let all = pages.flatten();
    pages_so_far(pages, names, query);
    table::ascending_distinct(all);
    all.unique_seq_to_set();
    assert(all.to_set().subset_of(names)) by {
        assert forall|t: Seq<char>| all.to_set().contains(t) implies names.contains(t) by {
            assert(all.contains(t));
        }
    }
    vstd::set_lib::lemma_len_subset(all.to_set(), names);
    if !is_full(pages.last(), asked_limit(query)) {
        assert forall|t: Seq<char>| names.contains(t) implies all.to_set().contains(t) by {
            assert(after_last(oci::parameter(query, "last"@), t));
            assert(all.contains(t));
        }
        assert(all.to_set() =~= names);
    }
}

proof fn present_before_absent(wanted: Seq<Seq<char>>, have: Set<Seq<char>>)
    ensures
        0 <= first_absent(wanted, have) <= wanted.len(),
        first_absent(wanted, have) < wanted.len() ==> !have.contains(
            wanted[first_absent(wanted, have)],
        ),
        forall|i: int|
            0 <= i < first_absent(wanted, have) ==> have.contains(#[trigger] wanted[i]),
    decreases wanted.len(),
{
    if wanted.len() > 0 && have.contains(wanted[0]) {
        let rest = wanted.skip(1);
        present_before_absent(rest, have);
        assert forall|i: int| 0 <= i < first_absent(wanted, have) implies have.contains(
            #[trigger] wanted[i],
        ) by {
            if i > 0 {
                assert(rest[i - 1] == wanted[i]);
            }
        }
    }
}

/// A manifest may only refer to content that the registry already has: a push is recorded
/// locally exactly when everything it refers to was found.
pub proof fn references_must_exist(
    p: PushView,
    blobs: Set<Seq<char>>,
    manifests: Set<Seq<char>>,
)
    ensures
        locally_missing(p, blobs, manifests) is None <==> (forall|i: int|
            0 <= i < p.what.blobs.len() ==> blobs.contains(#[trigger] p.what.blobs[i])) && (forall|
            i: int,
        |
            0 <= i < p.what.manifests.len() ==> manifests.contains(#[trigger] p.what.manifests[i])),
{
    present_before_absent(p.what.blobs, blobs);
    present_before_absent(p.what.manifests, manifests);
}

// What a push and a listing say, item by item.

proof fn digests_of_items(items: Seq<json::JsonView>)
    ensures
        digests(items) is Some <==> forall|i: int|
            0 <= i < items.len() ==> (json::text_at(#[trigger] items[i], "digest"@) matches Some(d)
                && digest::is_digest(d)),
        digests(items) matches Some(l) ==> l.len() == items.len() && forall|i: int|
            0 <= i < items.len() ==> json::text_at(#[trigger] items[i], "digest"@) == Some(l[i]),
    decreases items.len(),
{
    if items.len() > 0 {
        let rest = items.drop_last();
        digests_of_items(rest);
        assert(forall|i: int| 0 <= i < rest.len() ==> rest[i] == #[trigger] items[i]);
        assert(items[items.len() - 1] == items.last());
        if digests(rest) is Some {
            assert(forall|i: int|
                0 <= i < rest.len() ==> (json::text_at(#[trigger] items[i], "digest"@) matches Some(
                    d,
                ) && digest::is_digest(d)));
        } else {
            let i = choose|i: int|
                0 <= i < rest.len() && !(json::text_at(#[trigger] rest[i], "digest"@) matches Some(
                    d,
                ) && digest::is_digest(d));
            assert(items[i] == rest[i]);
        }
    }
}

/// A manifest is taken exactly where each item of its `manifests` and of its `layers` has a valid
/// digest and its configuration has none that is invalid. What is refused is refused with status
/// 400; an invalid digest of the configuration is named as such, anything else is an invalid
/// manifest.
pub proof fn manifests_are_taken_item_by_item(v: json::JsonView)
    ensures
        content_refusal(v) is None <==> {
            &&& json::list_at(v, "manifests"@) matches Some(items) ==> forall|i: int|
                0 <= i < items.len() ==> (json::text_at(#[trigger] items[i], "digest"@) matches Some(
                    d,
                ) && digest::is_digest(d))
            &&& json::text_within(v, "config"@, "digest"@) matches Some(d) ==> digest::is_digest(d)
            &&& json::list_at(v, "layers"@) matches Some(items) ==> forall|i: int|
                0 <= i < items.len() ==> (json::text_at(#[trigger] items[i], "digest"@) matches Some(
                    d,
                ) && digest::is_digest(d))
        },
        content_refusal(v) matches Some(r) ==> {
            &&& r.status == 400
            &&& r.headers == seq![("content-type"@, "application/json"@)]
            &&& r.body matches errors::BodyView::Error(code, message) && (code
                == "MANIFEST_INVALID"@ || code == "DIGEST_INVALID"@ && (json::text_within(
                v,
                "config"@,
                "digest"@,
            ) matches Some(d) && !digest::is_digest(d)))
        },
{
    if let Some(items) = json::list_at(v, "manifests"@) {
        digests_of_items(items);
    }
    if let Some(items) = json::list_at(v, "layers"@) {
        digests_of_items(items);
    }
    if let Some(r) = content_refusal(v) {
        assert(r.headers =~= seq![("content-type"@, "application/json"@)]);
    }
}

/// What is recorded of a manifest that is taken, with a subject or without one: its blobs are the
/// digests of all its layers and of its configuration, and nothing else; its manifests are the
/// digests of all its index entries, and nothing else; none occurs twice.
pub proof fn every_reference_is_recorded(
    d: DescriptionView,
    header: Option<Seq<char>>,
    v: json::JsonView,
)
    requires
        content_refusal(v) is None,
        describes(d, header, v),
    ensures
        json::list_at(v, "layers"@) matches Some(items) ==> forall|i: int|
            0 <= i < items.len() ==> (json::text_at(#[trigger] items[i], "digest"@) matches Some(x)
                && d.blobs.contains(x)),
        json::text_within(v, "config"@, "digest"@) matches Some(x) ==> d.blobs.contains(x),
        forall|x: Seq<char>| #[trigger]
            d.blobs.contains(x) ==> json::text_within(v, "config"@, "digest"@) == Some(x) || (
            json::list_at(v, "layers"@) matches Some(items) && exists|i: int|
                0 <= i < items.len() && json::text_at(#[trigger] items[i], "digest"@) == Some(x)),
        json::list_at(v, "manifests"@) matches Some(items) ==> forall|i: int|
            0 <= i < items.len() ==> (json::text_at(#[trigger] items[i], "digest"@) matches Some(x)
                && d.manifests.contains(x)),
        forall|x: Seq<char>| #[trigger]
            d.manifests.contains(x) ==> (json::list_at(v, "manifests"@) matches Some(items)
                && exists|i: int|
                0 <= i < items.len() && json::text_at(#[trigger] items[i], "digest"@) == Some(x)),
        d.blobs.no_duplicates(),
        d.manifests.no_duplicates(),
{
    table::ascending_distinct(d.blobs);
    table::ascending_distinct(d.manifests);
    let config = match json::text_within(v, "config"@, "digest"@) {
        Some(x) => seq![x],
        None => Seq::empty(),
    };
    let layers = listed_digests(v, "layers"@)->0;
    assert(blobs_of(v) == config + layers);
    assert forall|x: Seq<char>| #[trigger] d.blobs.contains(x) <==> config.contains(x)
        || layers.contains(x) by {
        assert(d.blobs.contains(x) <==> d.blobs.to_set().contains(x));
        assert((config + layers).to_set().contains(x) <==> (config + layers).contains(x));
        if config.contains(x) {
            assert((config + layers)[config.index_of(x)] == x);
        }
        if layers.contains(x) {
            assert((config + layers)[config.len() + layers.index_of(x)] == x);
        }
        if (config + layers).contains(x) {
            let i = (config + layers).index_of(x);
            if i < config.len() {
                assert(config[i] == x);
            } else {
                assert(layers[i - config.len()] == x);
            }
        }
    }
    let entries = listed_digests(v, "manifests"@)->0;
    assert forall|x: Seq<char>| #[trigger] d.manifests.contains(x) <==> entries.contains(x) by {
        assert(d.manifests.contains(x) <==> d.manifests.to_set().contains(x));
        assert(entries.to_set().contains(x) <==> entries.contains(x));
    }
    if let Some(x) = json::text_within(v, "config"@, "digest"@) {
        assert(config[0] == x);
    }
    if let Some(items) = json::list_at(v, "layers"@) {
        digests_of_items(items);
        assert forall|i: int| 0 <= i < items.len() implies (json::text_at(
            #[trigger] items[i],
            "digest"@,
        ) matches Some(x) && d.blobs.contains(x)) by {
            assert(layers[i] == layers[i]);
            assert(layers.contains(layers[i]));
        }
        assert forall|x: Seq<char>| layers.contains(x) implies exists|i: int|
            0 <= i < items.len() && json::text_at(#[trigger] items[i], "digest"@) == Some(x) by {
            let i = layers.index_of(x);
            assert(json::text_at(items[i], "digest"@) == Some(layers[i]));
        }
    }
    if let Some(items) = json::list_at(v, "manifests"@) {
        digests_of_items(items);
        assert forall|i: int| 0 <= i < items.len() implies (json::text_at(
            #[trigger] items[i],
            "digest"@,
        ) matches Some(x) && d.manifests.contains(x)) by {
            assert(entries.contains(entries[i]));
        }
        assert forall|x: Seq<char>| entries.contains(x) implies exists|i: int|
            0 <= i < items.len() && json::text_at(#[trigger] items[i], "digest"@) == Some(x) by {
            let i = entries.index_of(x);
            assert(json::text_at(items[i], "digest"@) == Some(entries[i]));
        }
    }
}

/// What else is recorded of a manifest: the digest of its subject, where that is a valid one; its
/// own artifact type, or the media type of its configuration where it has none; its annotations
/// as JSON text.
pub proof fn a_manifest_is_recorded_as_it_says(
    d: DescriptionView,
    header: Option<Seq<char>>,
    v: json::JsonView,
    s: Seq<char>,
)
    requires
        describes(d, header, v),
    ensures
        d.subject == Some(s) <==> json::text_within(v, "subject"@, "digest"@) == Some(s)
            && digest::is_digest(s),
        json::text_at(v, "artifactType"@) == Some(s) ==> d.artifact_type == Some(s),
        json::text_at(v, "artifactType"@) is None ==> d.artifact_type == json::text_within(
            v,
            "config"@,
            "mediaType"@,
        ),
        json::member(v, "annotations"@) is None <==> d.annotations is None,
        json::member(v, "annotations"@) matches Some(a) ==> d.annotations == Some(
            json::rendered(a),
        ),
{
}

/// The media type of a manifest is the one that the request declares, without the parameters that
/// follow a semicolon. A request that declares none, or only that it sends bytes, leaves it to
/// the manifest, and without a word of the manifest it is an image manifest.
pub proof fn the_declared_media_type_counts(
    d: DescriptionView,
    v: json::JsonView,
    t: Seq<char>,
    rest: Seq<char>,
    said: Seq<char>,
)
    requires
        t.len() > 0,
        !t.contains(';'),
        !text::is_space(t[0]),
        !text::is_space(t.last()),
    ensures
        t != "application/octet-stream"@ ==> {
            &&& describes(d, Some(t), v) ==> d.media_type == t
            &&& describes(d, Some(t + seq![';'] + rest), v) ==> d.media_type == t
        },
        describes(d, None, v) || describes(d, Some("application/octet-stream"@), v) || describes(
            d,
            Some(Seq::empty()),
            v,
        ) ==> {
            &&& json::text_at(v, "mediaType"@) == Some(said) ==> d.media_type == said
            &&& json::text_at(v, "mediaType"@) is None ==> d.media_type
                == "application/vnd.oci.image.manifest.v1+json"@
        },
{
    if t != "application/octet-stream"@ {
        declared_types_count(t, rest);
    }
    bytes_declare_nothing();
}

proof fn plain_words_stand_trimmed(t: Seq<char>)
    requires
        t.len() > 0 ==> !text::is_space(t[0]) && !text::is_space(t.last()),
    ensures
        text::trimmed(t) == t,
{
    text::trimming_takes_the_space_around(t);
}

proof fn parameters_follow_the_type(t: Seq<char>, rest: Seq<char>)
    requires
        !t.contains(';'),
    ensures
        text::pieces(t, ';')[0] == t,
        text::pieces(t + seq![';'] + rest, ';')[0] == t,
{
    text::pieces_stand_between_separators(t, rest, ';');
    assert((seq![t] + text::pieces(rest, ';'))[0] == t);
}

proof fn declared_types_count(t: Seq<char>, rest: Seq<char>)
    requires
        t.len() > 0,
        !t.contains(';'),
        !text::is_space(t[0]),
        !text::is_space(t.last()),
        t != "application/octet-stream"@,
    ensures
        declared_type(Some(t)) == Some(t),
        declared_type(Some(t + seq![';'] + rest)) == Some(t),
{
    plain_words_stand_trimmed(t);
    parameters_follow_the_type(t, rest);
}

proof fn octet_stream_is_one_word()
    ensures
        "application/octet-stream"@.len() > 0,
        !"application/octet-stream"@.contains(';'),
        "application/octet-stream"@[0] == 'a',
        "application/octet-stream"@.last() == 'm',
{
    reveal_strlit("application/octet-stream");
    let o = "application/octet-stream"@;
    assert(o.len() == 24);
    assert(forall|i: int| 0 <= i < 24 ==> o[i] != ';');
}

proof fn plain_words_are_declared_as_they_are(t: Seq<char>)
    requires
        !t.contains(';'),
        t.len() > 0 ==> !text::is_space(t[0]) && !text::is_space(t.last()),
    ensures
        declared_type(Some(t)) == if t.len() == 0 || t == "application/octet-stream"@ {
            None
        } else {
            Some(t)
        },
{
    plain_words_stand_trimmed(t);
    parameters_follow_the_type(t, t);
}

proof fn bytes_declare_nothing()
    ensures
        declared_type(Some("application/octet-stream"@)) is None,
        declared_type(Some(Seq::empty())) is None,
{
    octet_stream_is_one_word();
    text::plain_white_space('a');
    text::plain_white_space('m');
    plain_words_are_declared_as_they_are("application/octet-stream"@);
    plain_words_are_declared_as_they_are(Seq::empty());
}

/// A push is taken exactly where its body could be read and is no longer than 4 MiB, its
/// reference is the digest of just these bytes or a tag, and the body is JSON whose content is
/// taken. Any other push is refused with status 400, and a digest that is not that of the bytes
/// as `DIGEST_INVALID`.
pub proof fn pushes_are_taken(reference: Seq<char>, bytes: Seq<u8>)
    ensures
        push_refusal(reference, Some(bytes)) is None <==> {
            &&& bytes.len() <= 4 * 1024 * 1024
            &&& if "sha256:"@.is_prefix_of(reference) {
                reference == "sha256:"@ + digest::hex_text(digest::sha256(bytes))
            } else {
                oci::is_tag(reference)
            }
            &&& json::parsed(bytes) matches Some(v) && content_refusal(v) is None
        },
        push_refusal(reference, None) matches Some(r) && r.status == 400,
        push_refusal(reference, Some(bytes)) matches Some(r) ==> r.status == 400 && r.body is Error,
        bytes.len() <= 4 * 1024 * 1024 && "sha256:"@.is_prefix_of(reference) && reference
            != "sha256:"@ + digest::hex_text(digest::sha256(bytes)) ==> (push_refusal(
            reference,
            Some(bytes),
        ) matches Some(r) && (r.body matches errors::BodyView::Error(code, message) && code
            == "DIGEST_INVALID"@)),
{
}

/// A reference that begins with `sha256:` is a digest; any other is the tag of that name.
pub proof fn references_are_digests_or_tags(reference: Seq<char>, rest: Seq<char>)
    ensures
        tag_of("sha256:"@ + rest) is None,
        !"sha256:"@.is_prefix_of(reference) ==> tag_of(reference) == Some(reference),
{
    assert(("sha256:"@ + rest).subrange(0, "sha256:"@.len() as int) =~= "sha256:"@);
}

/// The reply to a push: once it is recorded, 201 with the place and the digest of the manifest,
/// and with its subject exactly where it has one; 400 with the message where something that it
/// refers to is missing; 500 where recording failed.
pub proof fn pushes_are_answered(name: Seq<char>, p: PushView, message: Seq<char>, s: Seq<char>)
    ensures
        ({
            let r = push_reply(name, p, RecordedView::Done);
            &&& r.status == 201
            &&& r.body == errors::BodyView::Empty
            &&& r.headers.contains(("location"@, "/v2/"@ + name + "/manifests/"@ + p.digest))
            &&& r.headers.contains(("docker-content-digest"@, p.digest))
            &&& p.what.subject == Some(s) ==> r.headers.contains(("oci-subject"@, s))
            &&& r.headers.len() == if p.what.subject is Some {
                3int
            } else {
                2
            }
        }),
        push_reply(name, p, RecordedView::Missing(message)).status == 400,
        push_reply(name, p, RecordedView::Missing(message)).body == errors::BodyView::Error(
            "MANIFEST_BLOB_UNKNOWN"@,
            message,
        ),
        push_reply(name, p, RecordedView::Failed).status == 500,
{
    let r = push_reply(name, p, RecordedView::Done);
    assert(r.headers[0] == ("location"@, "/v2/"@ + name + "/manifests/"@ + p.digest));
    assert(r.headers[1] == ("docker-content-digest"@, p.digest));
    if let Some(s) = p.what.subject {
        assert(r.headers[2] == ("oci-subject"@, s));
    }
}

/// A push into a bucket asks for each blob of the manifest in turn, and at the first that is
/// missing it ends with a message that names that blob.
pub proof fn a_missing_blob_is_named(p: PushView, i: int)
    requires
        0 <= i < p.what.blobs.len(),
    ensures
        stored(p, true) == PushStepView::Check(0),
        stored(p, false) == PushStepView::Answer(RecordedView::Failed),
        i + 1 < p.what.blobs.len() ==> checked(p, i, Some(true)) == PushStepView::Check(i + 1),
        i + 1 == p.what.blobs.len() ==> checked(p, i, Some(true)) == PushStepView::Commit,
        checked(p, i, Some(false)) == PushStepView::Answer(
            RecordedView::Missing("blob "@ + p.what.blobs[i] + " not found"@),
        ),
        checked(p, i, None) == PushStepView::Answer(RecordedView::Failed),
{
}

/// The message about something missing names a reference of the push that was not found: the
/// first blob, or where all blobs were found the first manifest.
pub proof fn what_is_missing_is_named(
    p: PushView,
    blobs: Set<Seq<char>>,
    manifests: Set<Seq<char>>,
    message: Seq<char>,
)
    requires
        locally_missing(p, blobs, manifests) == Some(message),
    ensures
        (exists|i: int|
            0 <= i < p.what.blobs.len() && !blobs.contains(#[trigger] p.what.blobs[i]) && message
                == "blob "@ + p.what.blobs[i] + " not found"@) || (exists|i: int|
            0 <= i < p.what.manifests.len() && !manifests.contains(#[trigger] p.what.manifests[i])
                && message == "manifest "@ + p.what.manifests[i] + " not found in repository"@ && (
            forall|k: int|
                0 <= k < p.what.blobs.len() ==> blobs.contains(#[trigger] p.what.blobs[k]))),
{
    present_before_absent(p.what.blobs, blobs);
    present_before_absent(p.what.manifests, manifests);
    let b = first_absent(p.what.blobs, blobs);
    let m = first_absent(p.what.manifests, manifests);
    if b < p.what.blobs.len() {
        assert(!blobs.contains(p.what.blobs[b]));
    } else {
        assert(!manifests.contains(p.what.manifests[m]));
    }
}

/// An index records a push with all that it says: the length of its bytes, its references and
/// the time.
pub proof fn an_entry_holds_the_push(p: PushView, now: i64)
    requires
        p.payload.len() <= 4 * 1024 * 1024,
    ensures
        entry_of(p, now).size == p.payload.len(),
        entry_of(p, now).media_type == p.what.media_type,
        entry_of(p, now).subject == p.what.subject,
        entry_of(p, now).artifact_type == p.what.artifact_type,
        entry_of(p, now).annotations == p.what.annotations,
        entry_of(p, now).created_at == now,
        entry_of(p, now).blob_refs == p.what.blobs,
        entry_of(p, now).manifest_refs == p.what.manifests,
{
}

/// A request for the headers of a manifest gets those of a request for its bytes, and no bytes.
pub proof fn heads_have_the_same_headers(s: StoredView)
    ensures
        manifest_reply(s, true).status == manifest_reply(s, false).status,
        manifest_reply(s, true).headers == manifest_reply(s, false).headers,
        manifest_reply(s, true).body == errors::BodyView::Empty,
        manifest_reply(s, false).headers.len() == 3,
{
}

/// What a page holds: in ascending order the first of the names that come after `last`, as many
/// as the limit allows, and all of them where there is no limit.
pub proof fn a_page_holds_the_first_names(
    page: Seq<Seq<char>>,
    names: Set<Seq<char>>,
    last: Option<Seq<char>>,
    n: Option<i64>,
)
    requires
        is_page(page, names, last, n),
    ensures
        forall|i: int, j: int|
            0 <= i < j < page.len() ==> text::lex_lt(#[trigger] page[i], #[trigger] page[j]),
        forall|i: int|
            0 <= i < page.len() ==> names.contains(#[trigger] page[i]) && (last matches Some(l)
                ==> text::lex_lt(l, page[i])),
        n matches Some(limit) ==> page.len() <= if limit < 0 {
            0int
        } else {
            limit as int
        },
        forall|t: Seq<char>|
            #[trigger] names.contains(t) && (last matches Some(l) ==> text::lex_lt(l, t))
                && !page.contains(t) ==> {
                &&& n matches Some(limit) && page.len() == if limit < 0 {
                    0int
                } else {
                    limit as int
                }
                &&& forall|i: int| 0 <= i < page.len() ==> text::lex_lt(#[trigger] page[i], t)
            },
{
    assert forall|i: int| 0 <= i < page.len() implies names.contains(#[trigger] page[i]) && (
    last matches Some(l) ==> text::lex_lt(l, page[i])) by {
        assert(page.contains(page[i]));
    }
    assert(table::ascending(page));
}

/// The reply that lists tags names the repository and the page; it links on exactly where a
/// positive limit was asked for and the page has just that many names, with the last name of the
/// page and the limit in the link.
pub proof fn a_full_page_links_on(name: Seq<char>, page: Seq<Seq<char>>, n: Option<i64>)
    ensures
        tags_reply(name, page, n).status == 200,
        tags_reply(name, page, n).body == errors::BodyView::Tags(name, page),
        tags_reply(name, page, n).headers.contains(("content-type"@, "application/json"@)),
        (tags_reply(name, page, n).headers.len() == 2) <==> (n matches Some(limit) && limit > 0
            && page.len() == limit),
        tags_reply(name, page, n).headers.len() <= 2,
        n matches Some(limit) && limit > 0 && page.len() == limit ==> tags_reply(
            name,
            page,
            n,
        ).headers.contains(
            (
                "link"@,
                "</v2/"@ + name + "/tags/list?"@ + ("last="@ + page.last() + "&n="@
                    + number::signed(n->0 as int)) + ">; rel=\"next\""@,
            ),
        ),
{
    let r = tags_reply(name, page, n);
    assert(r.headers[0] == ("content-type"@, "application/json"@));
    if n matches Some(limit) && limit > 0 && page.len() == limit {
        assert(r.headers[1] == r.headers.last());
    }
}

proof fn listings_add_up(a: Seq<ReferrerRow>, b: Seq<ReferrerRow>, filter: Option<Seq<char>>)
    ensures
        referrer_list(a + b, filter) == referrer_list(a, filter) + referrer_list(b, filter),
    decreases b.len(),
{
    if b.len() == 0 {
        assert(a + b =~= a);
        assert(referrer_list(a, filter) + referrer_list(b, filter) =~= referrer_list(a, filter));
    } else {
        assert((a + b).drop_last() =~= a + b.drop_last());
        listings_add_up(a, b.drop_last(), filter);
        let x = referrer_list(a, filter);
        let y = referrer_list(b.drop_last(), filter);
        let d = referrer_view(b.last(), well_annotated(b.last()));
        assert(x + y.push(d) =~= (x + y).push(d));
    }
}

/// A descriptor in a listing of referrers is that of a row: it has the digest, the media type,
/// the size and the artifact type that the row records, and the row's annotations where those are
/// JSON. Under a filter the row, and so the descriptor, has the artifact type that was asked for.
pub proof fn descriptors_say_what_was_recorded(
    rows: Seq<ReferrerRow>,
    filter: Option<Seq<char>>,
    k: int,
)
    requires
        0 <= k < referrer_list(rows, filter).len(),
    ensures
        exists|i: int|
            0 <= i < rows.len() && (#[trigger] rows[i]).digest@ == referrer_list(rows, filter)[k].digest
                && rows[i].media_type@ == referrer_list(rows, filter)[k].media_type && rows[i].size
                == referrer_list(rows, filter)[k].size && text::opt_view(rows[i].artifact_type)
                == referrer_list(rows, filter)[k].artifact_type && (referrer_list(
                rows,
                filter,
            )[k].annotations == if rows[i].annotations matches Some(a) && json::parsed(
                vstd::utf8::encode_utf8(a@),
            ) is Some {
                text::opt_view(rows[i].annotations)
            } else {
                None
            }) && (filter matches Some(t) ==> rows[i].artifact_type matches Some(own) && own@ == t),
        filter matches Some(t) ==> referrer_list(rows, filter)[k].artifact_type == Some(t),
    decreases rows.len(),
{
    let rest = rows.drop_last();
    let before = referrer_list(rest, filter);
    if k < before.len() {
        descriptors_say_what_was_recorded(rest, filter, k);
        let i = choose|i: int|
            0 <= i < rest.len() && (#[trigger] rest[i]).digest@ == before[k].digest
                && rest[i].media_type@ == before[k].media_type && rest[i].size == before[k].size
                && text::opt_view(rest[i].artifact_type) == before[k].artifact_type && (
            before[k].annotations == if rest[i].annotations matches Some(a) && json::parsed(
                vstd::utf8::encode_utf8(a@),
            ) is Some {
                text::opt_view(rest[i].annotations)
            } else {
                None
            }) && (filter matches Some(t) ==> rest[i].artifact_type matches Some(own) && own@ == t);
        assert(rows[i] == rest[i]);
        assert(referrer_list(rows, filter)[k] == before[k]);
    } else {
        let i = rows.len() - 1;
        assert(rows[i] == rows.last());
        assert(passes(rows.last(), filter));
    }
}

/// A listing of referrers leaves out no row but those that have another artifact type than was
/// asked for, or none where one was, and keeps the order of the rows. What it lists of a row is
/// what the row records, its artifact type among it.
pub proof fn listings_leave_nothing_out(
    a: Seq<ReferrerRow>,
    row: ReferrerRow,
    b: Seq<ReferrerRow>,
    filter: Option<Seq<char>>,
)
    ensures
        filter is None || (row.artifact_type matches Some(own) && filter == Some(own@)) ==> ({
            let list = referrer_list(a + seq![row] + b, filter);
            let k = referrer_list(a, filter).len() as int;
            &&& list.len() == k + 1 + referrer_list(b, filter).len()
            &&& list.take(k) == referrer_list(a, filter)
            &&& list.skip(k + 1) == referrer_list(b, filter)
            &&& list[k].digest == row.digest@
            &&& list[k].media_type == row.media_type@
            &&& list[k].size == row.size
            &&& (row.artifact_type matches Some(own) ==> list[k].artifact_type == Some(own@))
            &&& (row.artifact_type is None ==> list[k].artifact_type is None)
            &&& list[k].annotations == if row.annotations matches Some(x) && json::parsed(
                vstd::utf8::encode_utf8(x@),
            ) is Some {
                text::opt_view(row.annotations)
            } else {
                None
            }
        }),
        filter is Some && !(row.artifact_type matches Some(own) && filter == Some(own@))
            ==> referrer_list(a + seq![row] + b, filter) == referrer_list(a + b, filter),
        referrer_list(Seq::empty(), filter).len() == 0,
{
    listings_add_up(a, seq![row], filter);
    listings_add_up(a + seq![row], b, filter);
    listings_add_up(a, b, filter);
    assert(seq![row].drop_last() =~= Seq::<ReferrerRow>::empty());
    reveal_with_fuel(referrer_list, 2);
    let x = referrer_list(a, filter);
    let y = referrer_list(seq![row], filter);
    let z = referrer_list(b, filter);
    let list = x + y + z;
    if passes(row, filter) {
        assert(y.len() == 1);
        assert(list.take(x.len() as int) =~= x);
        assert(list.skip(x.len() as int + 1) =~= z);
        assert(list[x.len() as int] == y[0]);
    } else {
        assert(x + y =~= x);
    }
}

/// The reply to a request for referrers is an image index of the list; where a filter was asked
/// for it says that it was applied, and only there.
pub proof fn referrers_come_as_an_index(list: Seq<errors::DescriptorView>, filtered: bool)
    ensures
        referrers_reply(list, filtered).status == 200,
        referrers_reply(list, filtered).body == errors::BodyView::Index(list),
        referrers_reply(list, filtered).headers.contains(
            ("content-type"@, "application/vnd.oci.image.index.v1+json"@),
        ),
        filtered <==> referrers_reply(list, filtered).headers.contains(
            ("oci-filters-applied"@, "artifactType"@),
        ),
{
    let r = referrers_reply(list, filtered);
    reveal_strlit("content-type");
    reveal_strlit("oci-filters-applied");
    assert("content-type"@.len() != "oci-filters-applied"@.len());
    assert(r.headers[0] == ("content-type"@, "application/vnd.oci.image.index.v1+json"@));
    if filtered {
        assert(r.headers[1] == ("oci-filters-applied"@, "artifactType"@));
    }
}

/// Which refusal comes for which fault, in this order: an index entry without a valid digest, an
/// invalid digest of the configuration, a layer without a valid digest.
pub proof fn refusals_name_the_fault(v: json::JsonView, items: Seq<json::JsonView>, i: int)
    requires
        0 <= i < items.len(),
        !(json::text_at(items[i], "digest"@) matches Some(d) && digest::is_digest(d)),
    ensures
        json::list_at(v, "manifests"@) == Some(items) ==> (content_refusal(v) matches Some(r)
            && r.body == errors::BodyView::Error(
            "MANIFEST_INVALID"@,
            "index entry missing valid digest"@,
        )),
        json::list_at(v, "manifests"@) is None && (json::text_within(
            v,
            "config"@,
            "digest"@,
        ) matches Some(d) && !digest::is_digest(d)) ==> (content_refusal(v) matches Some(r)
            && r.body == errors::BodyView::Error("DIGEST_INVALID"@, "config digest invalid"@)),
        json::list_at(v, "manifests"@) is None && json::text_within(
            v,
            "config"@,
            "digest"@,
        ) is None && json::list_at(v, "layers"@) == Some(items) ==> (content_refusal(
            v,
        ) matches Some(r) && r.body == errors::BodyView::Error(
            "MANIFEST_INVALID"@,
            "layer missing valid digest"@,
        )),
{
    digests_of_items(items);
}

/// Which refusal of a push comes for which fault.
pub proof fn pushes_are_refused_for_a_reason(reference: Seq<char>, bytes: Seq<u8>)
    ensures
        push_refusal(reference, None) matches Some(r) && r.body == errors::BodyView::Error(
            "MANIFEST_INVALID"@,
            "manifest too large or unreadable"@,
        ),
        bytes.len() > 4 * 1024 * 1024 ==> push_refusal(reference, Some(bytes)) == push_refusal(
            reference,
            None,
        ),
        bytes.len() <= 4 * 1024 * 1024 && !"sha256:"@.is_prefix_of(reference) && !oci::is_tag(
            reference,
        ) ==> (push_refusal(reference, Some(bytes)) matches Some(r) && r.body
            == errors::BodyView::Error("MANIFEST_INVALID"@, "invalid tag"@)),
        bytes.len() <= 4 * 1024 * 1024 && !"sha256:"@.is_prefix_of(reference) && oci::is_tag(
            reference,
        ) && json::parsed(bytes) is None ==> (push_refusal(reference, Some(bytes)) matches Some(r)
            && r.body == errors::BodyView::Error(
            "MANIFEST_INVALID"@,
            "manifest is not valid JSON"@,
        )),
        bytes.len() <= 4 * 1024 * 1024 && !"sha256:"@.is_prefix_of(reference) && oci::is_tag(
            reference,
        ) ==> (json::parsed(bytes) matches Some(v) ==> push_refusal(reference, Some(bytes))
            == content_refusal(v)),
{
}

/// White space around a declared media type does not count.
pub proof fn space_around_a_media_type_is_nothing(
    d: DescriptionView,
    v: json::JsonView,
    a: Seq<char>,
    t: Seq<char>,
    b: Seq<char>,
    rest: Seq<char>,
)
    requires
        t.len() > 0,
        !t.contains(';'),
        !text::is_space(t[0]),
        !text::is_space(t.last()),
        t != "application/octet-stream"@,
        forall|i: int| 0 <= i < a.len() ==> text::is_space(#[trigger] a[i]),
        forall|i: int| 0 <= i < b.len() ==> text::is_space(#[trigger] b[i]),
        describes(d, Some(a + t + b), v) || describes(d, Some(a + t + b + seq![';'] + rest), v),
    ensures
        d.media_type == t,
{
    let h = a + t + b;
    assert(!h.contains(';')) by {
        assert forall|i: int| 0 <= i < h.len() implies h[i] != ';' by {
            if i < a.len() {
                assert(text::is_space(a[i]));
            } else if i < a.len() + t.len() {
                assert(t.contains(t[i - a.len()]));
            } else {
                assert(text::is_space(b[i - a.len() - t.len()]));
            }
        }
    }
    text::space_around_comes_off(a, t, b);
    parameters_follow_the_type(h, rest);
}

/// The limit of a listing is the number under `n`; where that is none, or not there, there is no
/// limit.
pub proof fn the_limit_is_asked_for(query: Map<Seq<char>, Seq<char>>, n: i64)
    ensures
        asked_limit(query) == Some(n) <==> query.contains_key("n"@) && number::read_int(
            query["n"@],
        ) == Some(n as int),
        !query.contains_key("n"@) ==> asked_limit(query) is None,
        query.contains_key("n"@) && number::read_int(query["n"@]) is None ==> asked_limit(
            query,
        ) is None,
{
}

/// A repository gives back under a reference what it keeps there: under a digest that manifest,
/// and under a tag the manifest that the tag points at.
pub proof fn references_lead_to_manifests(repo: RepoView, reference: Seq<char>)
    ensures
        "sha256:"@.is_prefix_of(reference) ==> {
            &&& repo.manifests.contains_key(reference) ==> repo.read(reference) == Some(
                repo.manifests[reference],
            )
            &&& !repo.manifests.contains_key(reference) ==> repo.read(reference) is None
        },
        !"sha256:"@.is_prefix_of(reference) ==> {
            &&& repo.tags.contains_key(reference) ==> repo.read(reference) == Some(
                repo.manifests[repo.tags[reference]],
            )
            &&& !repo.tags.contains_key(reference) ==> repo.read(reference) is None
        },
{
}

/// A push into the local database keeps the bytes and the media type of a manifest under its
/// digest, leaves one that is there already as it is, and moves the tag.
pub proof fn a_push_keeps_the_bytes(repo: RepoView, p: PushView)
    ensures
        repo.pushed(p).manifests.contains_key(p.digest),
        !repo.manifests.contains_key(p.digest) ==> {
            &&& repo.pushed(p).manifests[p.digest].payload == p.payload
            &&& repo.pushed(p).manifests[p.digest].media_type == p.what.media_type
            &&& repo.pushed(p).manifests[p.digest].digest == p.digest
        },
        repo.manifests.contains_key(p.digest) ==> repo.pushed(p).manifests == repo.manifests,
        p.tag matches Some(t) ==> repo.pushed(p).tags == repo.tags.insert(t, p.digest),
        p.tag is None ==> repo.pushed(p).tags == repo.tags,
{
}

} // verus!
