//! The files of the dashboard.

use crate::oci::errors;
use crate::oci::errors::{Body, Reply};
use crate::text;
use vstd::prelude::*;
use vstd::string::*;
use vstd::utf8::*;

verus! {

/// The media type that the extension of a path stands for.
pub uninterp spec fn guessed_type(path: Seq<char>) -> Seq<char>;

/// `mime_guess::from_path` and `first_or_octet_stream`: the first media type known for the
/// extension of a path, or that of raw bytes.
#[verifier::external_body]
fn guess_type(path: &str) -> (s: String)
    ensures
        s@ == guessed_type(path@),
{
    mime_guess::from_path(path).first_or_octet_stream().as_ref().to_string()
}

/// The file that a request path names; the root names the start page.
pub open spec fn asset_of(path: Seq<char>) -> Seq<char> {
    let name = text::without_leading(path, '/');
    if name.len() == 0 {
        "index.html"@
    } else {
        name
    }
}

/// The file that a request path names.
pub fn asset_name(path: &str) -> (s: String)
    ensures
        s@ == asset_of(path@),
{
    let name = text::trim_start(path, '/');
    proof {
        reveal_strlit("");
        assert(name@.len() == 0 <==> name@ =~= ""@);
    }
    if text::same(name.as_str(), "") {
        "index.html".to_owned()
    } else {
        name
    }
}

/// How long a file may be kept: those under `assets/` never change.
pub open spec fn cache_rule(name: Seq<char>) -> Seq<char> {
    if "assets/"@.is_prefix_of(name) {
        "public, max-age=31536000, immutable"@
    } else {
        "no-cache"@
    }
}

/// The reply with a file of that media type.
pub open spec fn asset_reply(name: Seq<char>, media_type: Seq<char>, content: Option<Seq<u8>>) -> errors::ReplyView {
    match content {
        Some(bytes) => errors::plain(200, errors::BodyView::Bytes(bytes)).with(
            "content-type"@,
            media_type,
        ).with("cache-control"@, cache_rule(name)),
        None => errors::plain(404, errors::BodyView::Bytes(encode_utf8("not found"@))),
    }
}

/// Answers with a file of that media type: `content` is what the name or else the start page
/// holds.
pub fn answer_asset(name: &str, media_type: &str, content: Option<Vec<u8>>) -> (r: Reply)
    ensures
        r@ == asset_reply(
            name@,
            media_type@,
            match content {
                Some(b) => Some(b@),
                None => None,
            },
        ),
{
    match content {
        Some(bytes) => {
            let cache = if text::has_prefix(name, "assets/") {
                "public, max-age=31536000, immutable"
            } else {
                "no-cache"
            };
            Reply::new(200, Body::Bytes(bytes)).with("content-type", media_type).with(
                "cache-control",
                cache,
            )
        },
        None => Reply::new(404, Body::Bytes("not found".as_bytes_vec())),
    }
}

/// Answers a request for a file of the dashboard.
pub fn ui_assets(name: &str, content: Option<Vec<u8>>) -> (r: Reply)
    ensures
        r@ == asset_reply(
            name@,
            guessed_type(name@),
            match content {
                Some(b) => Some(b@),
                None => None,
            },
        ),
{
    let media_type = guess_type(name);
    answer_asset(name, media_type.as_str(), content)
}

/// A file of the dashboard comes with its bytes and its media type. Browsers may keep what lies
/// under `assets/` for a year and have to ask again for anything else. What is not there gets
/// status 404.
pub proof fn files_come_with_their_lifetime(
    name: Seq<char>,
    media_type: Seq<char>,
    bytes: Seq<u8>,
)
    ensures
        asset_reply(name, media_type, Some(bytes)).status == 200,
        asset_reply(name, media_type, Some(bytes)).body == errors::BodyView::Bytes(bytes),
        asset_reply(name, media_type, Some(bytes)).headers == seq![
            ("content-type"@, media_type),
            (
                "cache-control"@,
                if "assets/"@.is_prefix_of(name) {
                    "public, max-age=31536000, immutable"@
                } else {
                    "no-cache"@
                },
            ),
        ],
        asset_reply(name, media_type, None).status == 404,
{
    assert(asset_reply(name, media_type, Some(bytes)).headers =~= seq![
        ("content-type"@, media_type),
        (
            "cache-control"@,
            if "assets/"@.is_prefix_of(name) {
                "public, max-age=31536000, immutable"@
            } else {
                "no-cache"@
            },
        ),
    ]);
}

/// A path names the file behind its slashes, and the root names the start page.
pub proof fn paths_name_files(name: Seq<char>)
    requires
        name.len() > 0,
        name[0] != '/',
    ensures
        asset_of(name) == name,
        asset_of(seq!['/'] + name) == name,
        asset_of(seq!['/']) == "index.html"@,
        asset_of(Seq::empty()) == "index.html"@,
{
    let e = Seq::<char>::empty();
    text::repeated_characters_come_off(name, '/');
    text::repeated_characters_come_off(e, '/');
    assert(seq!['/'] + e =~= seq!['/']);
}

} // verus!
