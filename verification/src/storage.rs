//! Where blobs and staged uploads lie on the local disk.

use crate::digest;
use crate::text;
use vstd::prelude::*;
use vstd::string::*;
use vstd::utf8::*;

verus! {

/// A path below another; an absolute path stands for itself.
pub open spec fn joined(a: Seq<char>, b: Seq<char>) -> Seq<char> {
    if b.len() > 0 && b[0] == '/' {
        b
    } else if a.len() == 0 || a.last() == '/' {
        a + b
    } else {
        a + "/"@ + b
    }
}

/// Joins two paths.
pub fn join(a: &str, b: &str) -> (p: String)
    ensures
        p@ == joined(a@, b@),
{
    if text::has_prefix(b, "/") {
        proof {
            reveal_strlit("/");
            assert(b@.subrange(0, 1)[0] == '/');
        }
        return b.to_owned();
    }
    proof {
        reveal_strlit("/");
        assert(b@.len() > 0 && b@[0] == '/' ==> b@.subrange(0, 1) =~= "/"@);
    }
    let mut p = a.to_owned();
    let last = text::chars_of(a);
    if last.len() > 0 && last[last.len() - 1] != '/' {
        p.append("/");
    }
    p.append(b);
    p
}

/// The algorithm and the value of a digest; without an algorithm it is `sha256`.
pub open spec fn parts_of(digest: Seq<char>) -> (Seq<char>, Seq<char>) {
    match text::cut(digest, ':') {
        Some((algo, hex)) => (algo, hex),
        None => ("sha256"@, digest),
    }
}

/// The first two bytes of a digest's value, as text.
pub open spec fn fan_out(hex: Seq<char>) -> Seq<char> {
    decode_utf8(encode_utf8(hex).subrange(0, 2))
}

/// Where a blob lies: `blobs/<algorithm>/<first two>/<value>` below the root.
pub open spec fn blob_path_of(root: Seq<char>, digest: Seq<char>) -> Seq<char> {
    let (algo, hex) = parts_of(digest);
    joined(joined(joined(joined(root, "blobs"@), algo), fan_out(hex)), hex)
}

/// Where an upload is staged: `staging/<session>` below the root.
pub open spec fn staging_path_of(root: Seq<char>, uuid: Seq<char>) -> Seq<char> {
    joined(joined(root, "staging"@), uuid)
}

/// Content-addressed files below a root directory.
#[derive(Debug)]
pub struct Store {
    root: String,
}

impl View for Store {
    type V = Seq<char>;

    closed spec fn view(&self) -> Seq<char> {
        self.root@
    }
}

impl Store {
    /// A store below `data_dir`.
    pub fn new(data_dir: &str) -> (s: Store)
        ensures
            s@ == data_dir@,
    {
        Store { root: data_dir.to_owned() }
    }

    /// The directories that a store needs.
    pub fn directories(&self) -> (d: (String, String))
        ensures
            d.0@ == joined(self@, "staging"@),
            d.1@ == joined(self@, "blobs"@),
    {
        (join(self.root.as_str(), "staging"), join(self.root.as_str(), "blobs"))
    }

    /// Where a blob lies.
    pub fn blob_path(&self, digest: &str) -> (p: String)
        requires
            is_char_boundary(encode_utf8(parts_of(digest@).1), 2),
        ensures
            p@ == blob_path_of(self@, digest@),
    {
        let (algo, hex) = match text::split_once(digest, ':') {
            Some((algo, hex)) => (algo, hex),
            None => ("sha256".to_owned(), digest.to_owned()),
        };
        let (head, _) = hex.as_str().split_at(2);
        proof {
            encode_utf8_decode_utf8(head@);
        }
        let mut p = join(self.root.as_str(), "blobs");
        p = join(p.as_str(), algo.as_str());
        p = join(p.as_str(), head);
        join(p.as_str(), hex.as_str())
    }

    /// Where an upload is staged.
    pub fn staging_path(&self, uuid: &str) -> (p: String)
        ensures
            p@ == staging_path_of(self@, uuid@),
    {
        let dir = join(self.root.as_str(), "staging");
        join(dir.as_str(), uuid)
    }
}

/// What becomes of a staged file that is to be a blob.
#[derive(Debug, Clone, Copy, PartialEq, Eq)]
pub enum Placement {
    /// The blob is there already: drop the file.
    Drop,
    /// Move the file to where the blob belongs.
    Move,
}

/// Decides what becomes of a staged file; blobs are kept once, however often they are sent.
pub fn placement(there_already: bool) -> (p: Placement)
    ensures
        p == if there_already {
            Placement::Drop
        } else {
            Placement::Move
        },
{
    if there_already {
        Placement::Drop
    } else {
        Placement::Move
    }
}

proof fn hex_of_digest(d: Seq<char>)
    requires
        digest::is_digest(d),
    ensures
        parts_of(d) == ("sha256"@, d.skip(7)),
        d.skip(7).len() == 64,
        is_ascii_chars(d.skip(7)),
        forall|i: int| 0 <= i < 64 ==> digest::is_hex_char(#[trigger] d.skip(7)[i]),
        is_char_boundary(encode_utf8(d.skip(7)), 2),
        fan_out(d.skip(7)) == d.skip(7).take(2),
{
    reveal_strlit("sha256:");
    reveal_strlit("sha256");
    let hex = d.skip(7);
    assert forall|j: int| 0 <= j < 6 implies d[j] != ':' by {
        assert(d.take(7)[j] == d[j]);
    }
    assert(d[6] == ':') by {
        assert(d.take(7)[6] == d[6]);
    }
    text::first_of_unique(d, ':', 6);
    assert(d.take(6) =~= "sha256"@) by {
        assert forall|j: int| 0 <= j < 6 implies d.take(6)[j] == "sha256"@[j] by {
            assert(d.take(7)[j] == d[j]);
        }
    }
    assert forall|i: int| 0 <= i < 64 implies digest::is_hex_char(#[trigger] hex[i]) by {
        assert(hex[i] == d[i + 7]);
    }
    assert(is_ascii_chars(hex));
    is_ascii_chars_encode_utf8(hex);
    let bytes = encode_utf8(hex);
    assert(bytes.len() == 64);
    encode_utf8_valid_utf8(hex);
    assert(digest::is_hex_char(hex[2]));
    assert(bytes[2] == hex[2] as u8);
    is_char_boundary_iff_not_is_continuation_byte(bytes, 2);
    let two = hex.take(2);
    assert(is_ascii_chars(two)) by {
        assert forall|i: int| 0 <= i < two.len() implies 0 <= #[trigger] two[i] as int && (two[i]
            as int) < 128 by {
            assert(digest::is_hex_char(hex[i]));
        }
    }
    is_ascii_chars_encode_utf8(two);
    assert(encode_utf8(two) =~= bytes.subrange(0, 2));
    encode_utf8_decode_utf8(two);
}

/// A well-formed digest has a place on disk, under `sha256` and its first two digits.
pub proof fn digests_have_a_place(root: Seq<char>, d: Seq<char>)
    requires
        digest::is_digest(d),
    ensures
        is_char_boundary(encode_utf8(parts_of(d).1), 2),
        blob_path_of(root, d) == joined(joined(root, "blobs"@), "sha256"@) + "/"@ + d.skip(7).take(
            2,
        ) + "/"@ + d.skip(7),
{
    hex_of_digest(d);
    reveal_strlit("/");
    reveal_strlit("sha256");
    reveal_strlit("blobs");
    let hex = d.skip(7);
    assert(digest::is_hex_char(hex[0]));
    assert(digest::is_hex_char(hex[1]));
    let base = joined(joined(root, "blobs"@), "sha256"@);
    assert(base.last() == '6');
    let two = hex.take(2);
    assert(two[0] == hex[0] && two.last() == hex[1]);
    assert((base + "/"@ + two).last() == hex[1]);
}

/// Different blobs lie in different places.
pub proof fn blobs_do_not_share_a_place(root: Seq<char>, a: Seq<char>, b: Seq<char>)
    requires
        digest::is_digest(a),
        digest::is_digest(b),
        blob_path_of(root, a) == blob_path_of(root, b),
    ensures
        a == b,
{
    digests_have_a_place(root, a);
    digests_have_a_place(root, b);
    hex_of_digest(a);
    hex_of_digest(b);
    let p = blob_path_of(root, a);
    assert(p.skip(p.len() - 64) =~= a.skip(7));
    assert(p.skip(p.len() - 64) =~= b.skip(7)) by {
        assert(p == blob_path_of(root, b));
    }
    assert(a =~= a.take(7) + a.skip(7));
    assert(b =~= b.take(7) + b.skip(7));
}

/// A path that does not begin with a slash stays below what it is joined to.
pub proof fn joined_paths_stay_below(root: Seq<char>, key: Seq<char>)
    requires
        key.len() > 0,
        key[0] != '/',
    ensures
        root.is_prefix_of(joined(root, key)),
        key.is_suffix_of(joined(root, key)),
{
    reveal_strlit("/");
    let p = joined(root, key);
    assert(p.subrange(0, root.len() as int) =~= root);
    assert(p.subrange(p.len() - key.len(), p.len() as int) =~= key);
}

/// How paths are joined: with one slash between them, unless the first is empty or ends with one;
/// an absolute path stands for itself.
pub proof fn paths_are_joined_by_a_slash(a: Seq<char>, b: Seq<char>)
    ensures
        b.len() > 0 && b[0] == '/' ==> joined(a, b) == b,
        !(b.len() > 0 && b[0] == '/') ==> {
            &&& a.len() == 0 ==> joined(a, b) == b
            &&& a.len() > 0 && a.last() == '/' ==> joined(a, b) == a + b
            &&& a.len() > 0 && a.last() != '/' ==> joined(a, b) == a + seq!['/'] + b
        },
{
    reveal_strlit("/");
    assert("/"@ =~= seq!['/']);
    assert(Seq::<char>::empty() + b =~= b);
    if a.len() == 0 {
        assert(a + b =~= b);
    }
}

/// Where blobs and uploads lie below a root that does not end with a slash: a blob in a directory
/// for its algorithm and one for its first two digits, an upload among the staged ones.
pub proof fn where_blobs_and_uploads_lie(root: Seq<char>, d: Seq<char>, uuid: Seq<char>)
    requires
        root.len() > 0,
        root.last() != '/',
        digest::is_digest(d),
        uuid.len() > 0,
        uuid[0] != '/',
    ensures
        blob_path_of(root, d) == root + "/blobs/sha256/"@ + d.subrange(7, 9) + "/"@ + d.skip(7),
        staging_path_of(root, uuid) == root + "/staging/"@ + uuid,
{
    digests_have_a_place(root, d);
    reveal_strlit("/");
    reveal_strlit("sha256");
    reveal_strlit("blobs");
    reveal_strlit("staging");
    reveal_strlit("/blobs/sha256/");
    reveal_strlit("/staging/");
    let base = joined(joined(root, "blobs"@), "sha256"@);
    assert((root + "/"@ + "blobs"@).last() == 's');
    assert((root + "/"@ + "staging"@).last() == 'g');
    assert(d.skip(7).take(2) =~= d.subrange(7, 9));
    assert(base + "/"@ =~= root + "/blobs/sha256/"@);
    assert(base + "/"@ + d.subrange(7, 9) + "/"@ + d.skip(7) =~= root + "/blobs/sha256/"@
        + d.subrange(7, 9) + "/"@ + d.skip(7));
    assert(staging_path_of(root, uuid) =~= root + "/staging/"@ + uuid);
}

/// The algorithm of a digest stands before its first colon, and its value behind it; without a
/// colon the algorithm is `sha256`.
pub proof fn the_algorithm_stands_before_the_colon(algo: Seq<char>, value: Seq<char>)
    requires
        !algo.contains(':'),
    ensures
        parts_of(algo + seq![':'] + value) == (algo, value),
        parts_of(algo) == ("sha256"@, algo),
{
    text::a_cut_takes_out_the_first(algo, value, ':');
}

} // verus!
