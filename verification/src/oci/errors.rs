//! Replies to a client, and the errors among them.

use crate::text;
use vstd::prelude::*;
use vstd::string::*;

verus! {

/// One entry of an image index: a manifest and what is known of it.
#[derive(Debug)]
pub struct Descriptor {
    pub media_type: String,
    pub digest: String,
    pub size: i64,
    pub artifact_type: Option<String>,
    /// JSON text.
    pub annotations: Option<String>,
}

#[verifier::ext_equal]
pub struct DescriptorView {
    pub media_type: Seq<char>,
    pub digest: Seq<char>,
    pub size: i64,
    pub artifact_type: Option<Seq<char>>,
    pub annotations: Option<Seq<char>>,
}

impl View for Descriptor {
    type V = DescriptorView;

    open spec fn view(&self) -> DescriptorView {
        DescriptorView {
            media_type: self.media_type@,
            digest: self.digest@,
            size: self.size,
            artifact_type: text::opt_view(self.artifact_type),
            annotations: text::opt_view(self.annotations),
        }
    }
}

/// What a reply carries.
#[derive(Debug)]
pub enum Body {
    Empty,
    /// The empty JSON object.
    EmptyObject,
    /// An error: its code and its message.
    Error(String, String),
    /// Raw bytes.
    Bytes(Vec<u8>),
    /// The tags of a repository: its name and the names of the tags.
    Tags(String, Vec<String>),
    /// An image index.
    Index(Vec<Descriptor>),
    /// The stored blob of that digest.
    Blob(String),
    /// A part of the stored blob of that digest: its first byte and its length.
    Part(String, u64, u64),
}

#[verifier::ext_equal]
pub enum BodyView {
    Empty,
    EmptyObject,
    Error(Seq<char>, Seq<char>),
    Bytes(Seq<u8>),
    Tags(Seq<char>, Seq<Seq<char>>),
    Index(Seq<DescriptorView>),
    Blob(Seq<char>),
    Part(Seq<char>, u64, u64),
}

impl View for Body {
    type V = BodyView;

    open spec fn view(&self) -> BodyView {
        match *self {
            Body::Empty => BodyView::Empty,
            Body::EmptyObject => BodyView::EmptyObject,
            Body::Error(code, message) => BodyView::Error(code@, message@),
            Body::Bytes(b) => BodyView::Bytes(b@),
            Body::Tags(name, tags) => BodyView::Tags(name@, text::views(tags@)),
            Body::Index(list) => BodyView::Index(list@.map_values(|d: Descriptor| d@)),
            Body::Blob(digest) => BodyView::Blob(digest@),
            Body::Part(digest, start, len) => BodyView::Part(digest@, start, len),
        }
    }
}

/// A reply: a status, headers in the order in which they were given, and a body.
#[derive(Debug)]
pub struct Reply {
    pub status: u16,
    pub headers: Vec<(String, String)>,
    pub body: Body,
}

#[verifier::ext_equal]
pub struct ReplyView {
    pub status: u16,
    pub headers: Seq<(Seq<char>, Seq<char>)>,
    pub body: BodyView,
}

impl View for Reply {
    type V = ReplyView;

    open spec fn view(&self) -> ReplyView {
        ReplyView { status: self.status, headers: self.headers.deep_view(), body: self.body@ }
    }
}

/// A reply without headers.
pub open spec fn plain(status: u16, body: BodyView) -> ReplyView {
    ReplyView { status, headers: Seq::empty(), body }
}

impl ReplyView {
    /// The reply with one more header.
    pub open spec fn with(self, name: Seq<char>, value: Seq<char>) -> ReplyView {
        ReplyView { headers: self.headers.push((name, value)), ..self }
    }
}

impl Reply {
    /// A reply without headers.
    pub fn new(status: u16, body: Body) -> (r: Reply)
        ensures
            r@ == plain(status, body@),
    {
        let r = Reply { status, headers: Vec::new(), body };
        assert(r.headers.deep_view() =~= Seq::empty());
        r
    }

    /// The reply with one more header.
    pub fn with(self, name: &str, value: &str) -> (r: Reply)
        ensures
            r@ == self@.with(name@, value@),
    {
        let ghost before = self.headers.deep_view();
        let Reply { status, mut headers, body } = self;
        headers.push((name.to_owned(), value.to_owned()));
        assert(headers.deep_view() =~= before.push((name@, value@)));
        Reply { status, headers, body }
    }
}

/// An error: a JSON body with a code and a message.
pub open spec fn error_reply(status: u16, code: Seq<char>, message: Seq<char>) -> ReplyView {
    plain(status, BodyView::Error(code, message)).with("content-type"@, "application/json"@)
}

/// An error reply.
pub fn oci_error(status: u16, code: &str, message: &str) -> (r: Reply)
    ensures
        r@ == error_reply(status, code@, message@),
{
    Reply::new(status, Body::Error(code.to_owned(), message.to_owned())).with(
        "content-type",
        "application/json",
    )
}

/// What a client learns of a failure on the server's side.
pub open spec fn internal_reply() -> ReplyView {
    error_reply(500, "UNKNOWN"@, "internal error"@)
}

/// The reply to a request that failed on the server's side.
pub fn internal() -> (r: Reply)
    ensures
        r@ == internal_reply(),
{
    oci_error(500, "UNKNOWN", "internal error")
}

/// No such repository.
pub open spec fn name_unknown_reply() -> ReplyView {
    error_reply(404, "NAME_UNKNOWN"@, "repository name not known to registry"@)
}

/// No such repository.
pub fn name_unknown() -> (r: Reply)
    ensures
        r@ == name_unknown_reply(),
{
    oci_error(404, "NAME_UNKNOWN", "repository name not known to registry")
}

/// No such blob.
pub open spec fn blob_unknown_reply() -> ReplyView {
    error_reply(404, "BLOB_UNKNOWN"@, "blob unknown to registry"@)
}

/// No such blob.
pub fn blob_unknown() -> (r: Reply)
    ensures
        r@ == blob_unknown_reply(),
{
    oci_error(404, "BLOB_UNKNOWN", "blob unknown to registry")
}

/// No such manifest.
pub open spec fn manifest_unknown_reply() -> ReplyView {
    error_reply(404, "MANIFEST_UNKNOWN"@, "manifest unknown to registry"@)
}

/// No such manifest.
pub fn manifest_unknown() -> (r: Reply)
    ensures
        r@ == manifest_unknown_reply(),
{
    oci_error(404, "MANIFEST_UNKNOWN", "manifest unknown to registry")
}

/// A digest that is malformed or does not fit the content.
pub open spec fn digest_invalid_reply(msg: Seq<char>) -> ReplyView {
    error_reply(400, "DIGEST_INVALID"@, msg)
}

/// A digest that is malformed or does not fit the content.
pub fn digest_invalid(msg: &str) -> (r: Reply)
    ensures
        r@ == digest_invalid_reply(msg@),
{
    oci_error(400, "DIGEST_INVALID", msg)
}

/// No such upload session.
pub open spec fn upload_unknown_reply() -> ReplyView {
    error_reply(404, "BLOB_UPLOAD_UNKNOWN"@, "blob upload unknown to registry"@)
}

/// No such upload session.
pub fn upload_unknown() -> (r: Reply)
    ensures
        r@ == upload_unknown_reply(),
{
    oci_error(404, "BLOB_UPLOAD_UNKNOWN", "blob upload unknown to registry")
}

/// What a client learns from an error: its status, and as JSON its code and its message.
pub proof fn errors_have_their_status(
    status: u16,
    code: Seq<char>,
    message: Seq<char>,
    name: Seq<char>,
    value: Seq<char>,
)
    ensures
        error_reply(status, code, message) == (ReplyView {
            status,
            headers: seq![("content-type"@, "application/json"@)],
            body: BodyView::Error(code, message),
        }),
        error_reply(status, code, message).with(name, value) == (ReplyView {
            status,
            headers: seq![("content-type"@, "application/json"@), (name, value)],
            body: BodyView::Error(code, message),
        }),
        internal_reply() == error_reply(500, "UNKNOWN"@, "internal error"@),
        name_unknown_reply() == error_reply(
            404,
            "NAME_UNKNOWN"@,
            "repository name not known to registry"@,
        ),
        blob_unknown_reply() == error_reply(404, "BLOB_UNKNOWN"@, "blob unknown to registry"@),
        manifest_unknown_reply() == error_reply(
            404,
            "MANIFEST_UNKNOWN"@,
            "manifest unknown to registry"@,
        ),
        upload_unknown_reply() == error_reply(
            404,
            "BLOB_UPLOAD_UNKNOWN"@,
            "blob upload unknown to registry"@,
        ),
        digest_invalid_reply(message) == error_reply(400, "DIGEST_INVALID"@, message),
{
    let r = error_reply(status, code, message);
    assert(r.headers =~= seq![("content-type"@, "application/json"@)]);
    assert(r.with(name, value).headers =~= seq![
        ("content-type"@, "application/json"@),
        (name, value),
    ]);
}

} // verus!
