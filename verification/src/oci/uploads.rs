//! Uploads: sessions, appended chunks, and the step from a staged file to a blob.

use crate::digest;
use crate::ident;
use crate::ident::new_uuid;
use crate::number;
use crate::number::{parse_i64, signed_of};
use crate::oci;
use crate::oci::errors;
use crate::oci::errors::{digest_invalid, internal, oci_error, upload_unknown, Body, Reply};
use crate::oci::manifests::Query;
use crate::oci::{lookup, valid_digest, valid_name};
use crate::table::Table;
use crate::text;
use crate::truth;
use crate::truth::blob_key;
use vstd::prelude::*;
use vstd::string::*;

verus! {

/// The bytes that a session has: from zero up to the last one received.
pub open spec fn received_range(received: int) -> Seq<char> {
    "0-"@ + number::signed(
        if received > 0 {
            received - 1
        } else {
            0
        },
    )
}

fn range_text(received: i64) -> (s: String)
    ensures
        s@ == received_range(received as int),
{
    let mut s = "0-".to_owned();
    s.append(
        signed_of(
            if received > 0 {
                received - 1
            } else {
                0
            },
        ).as_str(),
    );
    s
}

/// The reply about a session that goes on.
pub open spec fn session_reply(status: u16, name: Seq<char>, uuid: Seq<char>, received: int) -> errors::ReplyView {
    errors::plain(status, errors::BodyView::Empty).with(
        "location"@,
        "/v2/"@ + name + "/blobs/uploads/"@ + uuid,
    ).with("range"@, received_range(received)).with("docker-upload-uuid"@, uuid)
}

fn about_session(status: u16, name: &str, uuid: &str, received: i64) -> (r: Reply)
    ensures
        r@ == session_reply(status, name@, uuid@, received as int),
{
    let mut location = "/v2/".to_owned();
    location.append(name);
    location.append("/blobs/uploads/");
    location.append(uuid);
    Reply::new(status, Body::Empty).with("location", location.as_str()).with(
        "range",
        range_text(received).as_str(),
    ).with("docker-upload-uuid", uuid)
}

/// The reply to a chunk that was taken.
pub fn accepted(name: &str, uuid: &str, received: i64) -> (r: Reply)
    ensures
        r@ == session_reply(202, name@, uuid@, received as int),
{
    about_session(202, name, uuid, received)
}

/// The reply about a blob that is now there.
pub open spec fn blob_created_reply(name: Seq<char>, digest: Seq<char>) -> errors::ReplyView {
    errors::plain(201, errors::BodyView::Empty).with(
        "location"@,
        "/v2/"@ + name + "/blobs/"@ + digest,
    ).with("docker-content-digest"@, digest)
}

fn blob_created(name: &str, digest: &str) -> (r: Reply)
    ensures
        r@ == blob_created_reply(name@, digest@),
{
    let mut location = "/v2/".to_owned();
    location.append(name);
    location.append("/blobs/");
    location.append(digest);
    Reply::new(201, Body::Empty).with("location", location.as_str()).with(
        "docker-content-digest",
        digest,
    )
}

/// What the start of an upload does next.
#[derive(Debug)]
pub enum StartStep {
    /// Find out whether the blob to mount can be relied on.
    CheckMount(String),
    /// Open a session of that name: a row and an empty staging file.
    Open(String),
    /// Append the body to the staging file, then finish the upload under that digest.
    Append(String),
    /// Answer.
    Answer(Reply),
}

/// The blob that a request asks to mount; a malformed digest counts for nothing.
pub open spec fn mount_of(query: Map<Seq<char>, Seq<char>>) -> Option<Seq<char>> {
    match oci::parameter(query, "mount"@) {
        Some(d) => if digest::is_digest(d) {
            Some(d)
        } else {
            None
        },
        None => None,
    }
}

/// Starts an upload. Blobs are shared by all repositories, so a blob that is there already can
/// be mounted whatever repository it came from.
pub fn start(query: &Table<String>) -> (s: StartStep)
    ensures
        match mount_of(oci::texts(query@)) {
            Some(d) => s matches StartStep::CheckMount(m) && m@ == d,
            None => s matches StartStep::Open(u) && ident::is_uuid(u@),
        },
{
    if let Some(d) = lookup(query, "mount") {
        if valid_digest(d) {
            return StartStep::CheckMount(d.to_owned());
        }
    }
    StartStep::Open(new_uuid())
}

/// What follows once it is known whether the blob to mount can be relied on; `None` where that
/// could not be found out.
pub fn after_mount(name: &str, digest: &str, found: Option<bool>) -> (s: StartStep)
    ensures
        match found {
            Some(true) => s matches StartStep::Answer(r) && r@ == blob_created_reply(
                name@,
                digest@,
            ),
            Some(false) => s matches StartStep::Open(u) && ident::is_uuid(u@),
            None => s matches StartStep::Answer(r) && r@ == errors::internal_reply(),
        },
{
    match found {
        Some(true) => StartStep::Answer(blob_created(name, digest)),
        Some(false) => StartStep::Open(new_uuid()),
        None => StartStep::Answer(internal()),
    }
}

/// What follows once a session was opened, or could not be: an upload in one request goes on
/// with its body.
pub fn after_open(name: &str, uuid: &str, query: &Table<String>, ok: bool) -> (s: StartStep)
    ensures
        if !ok {
            s matches StartStep::Answer(r) && r@ == errors::internal_reply()
        } else {
            match oci::parameter(oci::texts(query@), "digest"@) {
                Some(d) => s matches StartStep::Append(x) && x@ == d,
                None => s matches StartStep::Answer(r) && r@ == session_reply(
                    202,
                    name@,
                    uuid@,
                    0,
                ),
            }
        },
{
    if !ok {
        return StartStep::Answer(internal());
    }
    match lookup(query, "digest") {
        Some(d) => StartStep::Append(d.to_owned()),
        None => StartStep::Answer(accepted(name, uuid, 0)),
    }
}

/// The position at which a `content-range` header starts.
pub open spec fn range_start(header: Seq<char>) -> Option<i64> {
    number::read_i64(text::pieces(header, '-')[0])
}

/// The reply to a chunk that does not continue where the session is.
pub open spec fn out_of_order_reply(received: int) -> errors::ReplyView {
    errors::error_reply(
        416,
        "BLOB_UPLOAD_INVALID"@,
        "content range does not match upload state"@,
    ).with("range"@, received_range(received))
}

/// A chunk is appended, given how much the session has received; or the request is answered.
#[derive(Debug)]
pub enum Chunk {
    Append(i64),
    Answer(Reply),
}

/// Decides about a chunk. A chunk that declares its range has to continue exactly where the
/// session is.
pub fn patch(session: Query<i64>, content_range: Option<&str>) -> (c: Chunk)
    ensures
        match session {
            Query::Failed => c matches Chunk::Answer(r) && r@ == errors::internal_reply(),
            Query::Absent => c matches Chunk::Answer(r) && r@ == errors::upload_unknown_reply(),
            Query::Present(n) => if content_range matches Some(h) && range_start(h@) != Some(n) {
                c matches Chunk::Answer(r) && r@ == out_of_order_reply(n as int)
            } else {
                c == Chunk::Append(n)
            },
        },
{
    let received = match session {
        Query::Failed => return Chunk::Answer(internal()),
        Query::Absent => return Chunk::Answer(upload_unknown()),
        Query::Present(n) => n,
    };
    if let Some(h) = content_range {
        let parts = text::split(h, '-');
        proof {
            assert(text::views(parts@)[0] == parts@[0]@);
        }
        let at = parse_i64(parts[0].as_str());
        let fits = match at {
            Some(n) => n == received,
            None => false,
        };
        if !fits {
            return Chunk::Answer(
                oci_error(
                    416,
                    "BLOB_UPLOAD_INVALID",
                    "content range does not match upload state",
                ).with("range", range_text(received).as_str()),
            );
        }
    }
    Chunk::Append(received)
}

/// How much a session has received once so many bytes were appended.
pub fn advance(received: i64, added: u64) -> (total: i64)
    requires
        received + added <= i64::MAX,
    ensures
        total == received + added,
{
    (received as i128 + added as i128) as i64
}

/// Answers a chunk once it was tried: how much the session has now, or `None` where the chunk
/// could not be taken.
pub fn after_patch(name: &str, uuid: &str, total: Option<i64>) -> (r: Reply)
    ensures
        r@ == match total {
            Some(n) => session_reply(202, name@, uuid@, n as int),
            None => errors::internal_reply(),
        },
{
    match total {
        Some(n) => accepted(name, uuid, n),
        None => internal(),
    }
}

/// The last chunk is appended, and the upload finished under that digest; or the request is
/// answered.
#[derive(Debug)]
pub enum Last {
    Append(String),
    Answer(Reply),
}

/// The digest under which an upload is to be finished.
pub fn asked_digest(query: &Table<String>) -> (r: Result<String, Reply>)
    ensures
        match (r, oci::parameter(oci::texts(query@), "digest"@)) {
            (Ok(d), Some(x)) => d@ == x,
            (Err(reply), None) => reply@ == errors::digest_invalid_reply(
                "digest query parameter required"@,
            ),
            _ => false,
        },
{
    match lookup(query, "digest") {
        Some(d) => Ok(d.to_owned()),
        None => Err(digest_invalid("digest query parameter required")),
    }
}

/// Decides about the request that finishes an upload, by its digest and its session.
pub fn put(digest: String, session: Query<i64>) -> (l: Last)
    ensures
        match session {
            Query::Failed => l matches Last::Answer(r) && r@ == errors::internal_reply(),
            Query::Absent => l matches Last::Answer(r) && r@ == errors::upload_unknown_reply(),
            Query::Present(_) => l == Last::Append(digest),
        },
{
    match session {
        Query::Failed => Last::Answer(internal()),
        Query::Absent => Last::Answer(upload_unknown()),
        Query::Present(_) => Last::Append(digest),
    }
}

/// Says how far a session is.
pub fn status(name: &str, uuid: &str, session: Query<i64>) -> (r: Reply)
    ensures
        r@ == match session {
            Query::Failed => errors::internal_reply(),
            Query::Absent => errors::upload_unknown_reply(),
            Query::Present(n) => session_reply(204, name@, uuid@, n as int),
        },
{
    match session {
        Query::Failed => internal(),
        Query::Absent => upload_unknown(),
        Query::Present(n) => about_session(204, name, uuid, n),
    }
}

/// The reply to a session that was cancelled, whether or not there was one.
pub fn cancel() -> (r: Reply)
    ensures
        r@ == errors::plain(204, errors::BodyView::Empty),
{
    Reply::new(204, Body::Empty)
}

/// What the end of an upload does next.
#[derive(Debug)]
pub enum FinalStep {
    /// Hash the staging file.
    Hash,
    /// Move the staging file to where the blob belongs.
    Commit,
    /// Copy the blob to the bucket under this key.
    Upload(String),
    /// Clear the digest in the ledger of pending deletions, waiting while it is claimed.
    Clear,
    /// Record the blob and drop the session.
    Record,
    /// Delete the blob again, then answer.
    Undo(Reply),
    /// Drop the session and its staging file, then answer.
    Abort(Reply),
    /// Answer.
    Answer(Reply),
}

pub enum FinalView {
    Hash,
    Commit,
    Upload(Seq<char>),
    Clear,
    Record,
    Undo(errors::ReplyView),
    Abort(errors::ReplyView),
    Answer(errors::ReplyView),
}

impl View for FinalStep {
    type V = FinalView;

    open spec fn view(&self) -> FinalView {
        match *self {
            FinalStep::Hash => FinalView::Hash,
            FinalStep::Commit => FinalView::Commit,
            FinalStep::Upload(key) => FinalView::Upload(key@),
            FinalStep::Clear => FinalView::Clear,
            FinalStep::Record => FinalView::Record,
            FinalStep::Undo(r) => FinalView::Undo(r@),
            FinalStep::Abort(r) => FinalView::Abort(r@),
            FinalStep::Answer(r) => FinalView::Answer(r@),
        }
    }
}

/// The first step of the end of an upload: a malformed digest or name ends it at once.
pub open spec fn finalized(name: Seq<char>, digest: Seq<char>) -> FinalView {
    if digest::is_digest(digest) && oci::is_name(name) {
        FinalView::Hash
    } else {
        FinalView::Abort(errors::digest_invalid_reply("invalid digest format"@))
    }
}

/// Finishes an upload.
pub fn finalize(name: &str, digest: &str) -> (s: FinalStep)
    ensures
        s@ == finalized(name@, digest@),
{
    if !valid_digest(digest) || !valid_name(name) {
        FinalStep::Abort(digest_invalid("invalid digest format"))
    } else {
        FinalStep::Hash
    }
}

/// What follows a hash: the content has to be what the digest says.
pub open spec fn hashed(digest: Seq<char>, actual: Option<Seq<char>>) -> FinalView {
    match actual {
        None => FinalView::Abort(errors::internal_reply()),
        Some(a) => if a == digest {
            FinalView::Commit
        } else {
            FinalView::Abort(
                errors::digest_invalid_reply("digest does not match uploaded content"@),
            )
        },
    }
}

/// What follows once the staging file was hashed; `None` where it could not be.
pub fn after_hash(digest: &str, actual: Option<&str>) -> (s: FinalStep)
    ensures
        s@ == hashed(digest@, text::opt_str(actual)),
{
    match actual {
        None => FinalStep::Abort(internal()),
        Some(a) => {
            if text::same(a, digest) {
                FinalStep::Commit
            } else {
                FinalStep::Abort(digest_invalid("digest does not match uploaded content"))
            }
        },
    }
}

/// What follows a move: with a bucket, the copy there comes before anything else.
pub open spec fn committed(digest: Seq<char>, ok: bool, object_mode: bool) -> FinalView {
    if !ok {
        FinalView::Abort(errors::internal_reply())
    } else if object_mode {
        FinalView::Upload(truth::blob_key_of(digest))
    } else {
        FinalView::Record
    }
}

/// What follows once the file was moved, or could not be.
pub fn after_commit(digest: &str, ok: bool, object_mode: bool) -> (s: FinalStep)
    ensures
        s@ == committed(digest@, ok, object_mode),
{
    if !ok {
        FinalStep::Abort(internal())
    } else if object_mode {
        FinalStep::Upload(blob_key(digest))
    } else {
        FinalStep::Record
    }
}

/// What follows a copy to the bucket.
pub open spec fn uploaded(ok: bool, cleared: bool) -> FinalView {
    if !ok {
        FinalView::Undo(errors::internal_reply())
    } else if cleared {
        FinalView::Record
    } else {
        FinalView::Clear
    }
}

/// What follows once the blob was copied to the bucket, or could not be; `cleared` says whether
/// the digest was cleared already.
pub fn after_upload(ok: bool, cleared: bool) -> (s: FinalStep)
    ensures
        s@ == uploaded(ok, cleared),
{
    if !ok {
        FinalStep::Undo(internal())
    } else if cleared {
        FinalStep::Record
    } else {
        FinalStep::Clear
    }
}

/// What follows once the digest is clear: where there was something to clear, a sweep may have
/// deleted the copy, so it is made again.
pub open spec fn cleared(digest: Seq<char>, found: Option<bool>) -> FinalView {
    match found {
        Some(true) => FinalView::Upload(truth::blob_key_of(digest)),
        Some(false) => FinalView::Record,
        None => FinalView::Undo(errors::internal_reply()),
    }
}

/// What follows once the digest is clear; `None` where the ledger could not be changed.
pub fn after_clear(digest: &str, found: Option<bool>) -> (s: FinalStep)
    ensures
        s@ == cleared(digest@, found),
{
    match found {
        Some(true) => FinalStep::Upload(blob_key(digest)),
        Some(false) => FinalStep::Record,
        None => FinalStep::Undo(internal()),
    }
}

/// The reply once the blob was recorded, or could not be.
pub open spec fn recorded_reply(name: Seq<char>, digest: Seq<char>, ok: bool) -> errors::ReplyView {
    if ok {
        blob_created_reply(name, digest)
    } else {
        errors::internal_reply()
    }
}

/// Answers once the blob was recorded, or could not be.
pub fn after_record(name: &str, digest: &str, ok: bool) -> (r: Reply)
    ensures
        r@ == recorded_reply(name@, digest@, ok),
{
    if ok {
        blob_created(name, digest)
    } else {
        internal()
    }
}

/// What the end of an upload finds out, step by step.
pub struct FinalFindings {
    pub hash: Option<Seq<char>>,
    pub moved: bool,
    pub copied: bool,
    pub found: Option<bool>,
    pub copied_again: bool,
    pub recorded: bool,
}

/// The end of an upload after so many steps, and whether the digest was cleared by then.
pub open spec fn final_at(
    name: Seq<char>,
    digest: Seq<char>,
    object_mode: bool,
    f: FinalFindings,
    n: nat,
) -> (FinalView, bool)
    decreases n,
{
    if n == 0 {
        (finalized(name, digest), false)
    } else {
        let (step, clear) = final_at(name, digest, object_mode, f, (n - 1) as nat);
        match step {
            FinalView::Hash => (hashed(digest, f.hash), clear),
            FinalView::Commit => (committed(digest, f.moved, object_mode), clear),
            FinalView::Upload(_) => (
                uploaded(
                    if clear {
                        f.copied_again
                    } else {
                        f.copied
                    },
                    clear,
                ),
                clear,
            ),
            FinalView::Clear => (cleared(digest, f.found), true),
            FinalView::Record => (
                FinalView::Answer(recorded_reply(name, digest, f.recorded)),
                clear,
            ),
            last => (last, clear),
        }
    }
}

/// The end of an upload takes six steps at most, and the blob is acknowledged exactly when it
/// is there: its content is what the digest says, it is in its place, it is recorded, and with
/// a bucket its copy was made after the last time that anything stood against it in the ledger.
pub proof fn an_acknowledged_blob_is_there(
    name: Seq<char>,
    digest: Seq<char>,
    object_mode: bool,
    f: FinalFindings,
)
    ensures
        match final_at(name, digest, object_mode, f, 6).0 {
            FinalView::Undo(r) => r.status != 201,
            FinalView::Abort(r) => r.status != 201,
            FinalView::Answer(r) => r.status == 201 ==> r == blob_created_reply(name, digest),
            _ => false,
        },
        final_at(name, digest, object_mode, f, 6).0 == FinalView::Answer(
            blob_created_reply(name, digest),
        ) <==> {
            &&& digest::is_digest(digest)
            &&& oci::is_name(name)
            &&& f.hash == Some(digest)
            &&& f.moved
            &&& object_mode ==> f.copied && f.found is Some && (f.found == Some(true)
                ==> f.copied_again)
            &&& f.recorded
        },
{
    reveal_with_fuel(final_at, 7);
    assert(blob_created_reply(name, digest).status == 201);
    assert(errors::internal_reply().status == 500);
}

/// A session is abandoned once it is older than a day.
pub open spec fn abandoned(created_at: i64, now: i64) -> bool {
    created_at < now - 86_400
}

/// Whether a session is abandoned.
pub fn is_abandoned(created_at: i64, now: i64) -> (r: bool)
    ensures
        r == abandoned(created_at, now),
{
    (created_at as i128) < (now as i128) - 86_400
}

/// What a client learns of its session: where it goes on, under which name, and how far it is,
/// as the range from the first byte to the last one received.
pub proof fn sessions_say_how_far_they_are(
    status: u16,
    name: Seq<char>,
    uuid: Seq<char>,
    received: int,
)
    requires
        received >= 0,
    ensures
        ({
            let r = session_reply(status, name, uuid, received);
            &&& r.status == status
            &&& r.body == errors::BodyView::Empty
            &&& r.headers == seq![
                ("location"@, "/v2/"@ + name + "/blobs/uploads/"@ + uuid),
                (
                    "range"@,
                    if received == 0 {
                        "0-0"@
                    } else {
                        "0-"@ + number::signed(received - 1)
                    },
                ),
                ("docker-upload-uuid"@, uuid),
            ]
        }),
{
    reveal_strlit("0-");
    reveal_strlit("0-0");
    assert(number::signed(0) =~= seq!['0']) by {
        reveal_with_fuel(number::decimal, 2);
    }
    assert("0-"@ + number::signed(0) =~= "0-0"@);
    let r = session_reply(status, name, uuid, received);
    assert(r.headers =~= seq![
        ("location"@, "/v2/"@ + name + "/blobs/uploads/"@ + uuid),
        (
            "range"@,
            if received == 0 {
                "0-0"@
            } else {
                "0-"@ + number::signed(received - 1)
            },
        ),
        ("docker-upload-uuid"@, uuid),
    ]);
}

/// A blob that is there is acknowledged with status 201, its place and its digest.
pub proof fn blobs_are_acknowledged(name: Seq<char>, digest: Seq<char>)
    ensures
        blob_created_reply(name, digest).status == 201,
        blob_created_reply(name, digest).body == errors::BodyView::Empty,
        blob_created_reply(name, digest).headers == seq![
            ("location"@, "/v2/"@ + name + "/blobs/"@ + digest),
            ("docker-content-digest"@, digest),
        ],
{
    assert(blob_created_reply(name, digest).headers =~= seq![
        ("location"@, "/v2/"@ + name + "/blobs/"@ + digest),
        ("docker-content-digest"@, digest),
    ]);
}

/// A blob is to be mounted exactly where the parameter `mount` is a digest, whatever else the
/// query holds.
pub proof fn mounts_are_asked_for(query: Map<Seq<char>, Seq<char>>, d: Seq<char>)
    ensures
        mount_of(query) == Some(d) <==> query.contains_key("mount"@) && query["mount"@] == d
            && digest::is_digest(d),
{
}

/// A chunk says where it starts in front of the first hyphen, and one that starts elsewhere than
/// where the session is gets status 416 with the range that the session has.
pub proof fn chunks_say_where_they_start(start: i64, rest: Seq<char>, received: int)
    requires
        start >= 0,
        received > 0,
    ensures
        range_start(number::signed(start as int) + seq!['-'] + rest) == Some(start),
        out_of_order_reply(received).status == 416,
        out_of_order_reply(received).headers.contains(
            ("range"@, "0-"@ + number::signed(received - 1)),
        ),
        out_of_order_reply(received).body == errors::BodyView::Error(
            "BLOB_UPLOAD_INVALID"@,
            "content range does not match upload state"@,
        ),
{
    let x = number::signed(start as int);
    number::signed_reads_back(start as int);
    number::decimals_denote_their_number(start as nat);
    assert(!x.contains('-')) by {
        assert forall|i: int| 0 <= i < x.len() implies x[i] != '-' by {
            assert('0' <= number::decimal(start as nat)[i] <= '9');
        }
    }
    text::pieces_stand_between_separators(x, rest, '-');
    assert((seq![x] + text::pieces(rest, '-'))[0] == x);
    let r = out_of_order_reply(received);
    assert(r.headers[1] == ("range"@, "0-"@ + number::signed(received - 1)));
}

/// How the end of an upload goes from step to step. Content that is not what the digest says is
/// refused and its session dropped. With a bucket the blob is copied there under `blobs/` and its
/// digest, then the digest is cleared, and where there was something to clear it is copied once
/// more. Where a copy or the ledger fails, the blob is taken back.
pub proof fn the_end_of_an_upload(name: Seq<char>, digest: Seq<char>, actual: Seq<char>)
    ensures
        digest::is_digest(digest) && oci::is_name(name) ==> finalized(name, digest)
            == FinalView::Hash,
        !digest::is_digest(digest) || !oci::is_name(name) ==> (finalized(
            name,
            digest,
        ) matches FinalView::Abort(r) && r.status == 400 && r.body == errors::BodyView::Error(
            "DIGEST_INVALID"@,
            "invalid digest format"@,
        )),
        hashed(digest, Some(digest)) == FinalView::Commit,
        actual != digest ==> (hashed(digest, Some(actual)) matches FinalView::Abort(r) && r.status
            == 400 && r.body == errors::BodyView::Error(
            "DIGEST_INVALID"@,
            "digest does not match uploaded content"@,
        )),
        hashed(digest, None) matches FinalView::Abort(r) && r.status == 500,
        committed(digest, true, false) == FinalView::Record,
        committed(digest, true, true) == FinalView::Upload("blobs/"@ + digest),
        committed(digest, false, true) matches FinalView::Abort(r) && r.status == 500,
        committed(digest, false, false) matches FinalView::Abort(r) && r.status == 500,
        uploaded(true, false) == FinalView::Clear,
        uploaded(true, true) == FinalView::Record,
        uploaded(false, false) matches FinalView::Undo(r) && r.status == 500,
        uploaded(false, true) matches FinalView::Undo(r) && r.status == 500,
        cleared(digest, Some(true)) == FinalView::Upload("blobs/"@ + digest),
        cleared(digest, Some(false)) == FinalView::Record,
        cleared(digest, None) matches FinalView::Undo(r) && r.status == 500,
        recorded_reply(name, digest, true).status == 201,
        recorded_reply(name, digest, false).status == 500,
{
}

/// A session is abandoned exactly where it was opened more than a day ago.
pub proof fn sessions_last_a_day(created_at: i64, now: i64)
    ensures
        abandoned(created_at, now) <==> now - created_at > 24 * 60 * 60,
{
}

/// Where a chunk starts is what stands before the first hyphen, or the whole header where there is
/// none, read as a number; a header that begins with no number fits no session.
pub proof fn what_stands_before_the_hyphen_counts(x: Seq<char>, rest: Seq<char>)
    requires
        !x.contains('-'),
    ensures
        range_start(x + seq!['-'] + rest) == number::read_i64(x),
        range_start(x) == number::read_i64(x),
        out_of_order_reply(0).headers.contains(("range"@, "0-0"@)),
{
    text::pieces_stand_between_separators(x, rest, '-');
    assert((seq![x] + text::pieces(rest, '-'))[0] == x);
    assert(seq![x][0] == x);
    sessions_say_how_far_they_are(202, x, x, 0);
    let s = session_reply(202, x, x, 0).headers;
    assert(s[1] == ("range"@, "0-0"@));
    let r = out_of_order_reply(0);
    assert(r.headers[1] == ("range"@, "0-0"@));
}

} // verus!
