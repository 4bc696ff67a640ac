//! Content digests: SHA-256 in lowercase hexadecimal.

use sha2::Digest;
use vstd::prelude::*;
use vstd::string::*;

verus! {

/// The running state of a SHA-256 computation.
#[verifier::external_type_specification]
#[verifier::external_body]
pub struct ExSha256(sha2::Sha256);

/// The bytes that a SHA-256 state has taken in.
pub uninterp spec fn taken(state: sha2::Sha256) -> Seq<u8>;

/// The SHA-256 hash of a message.
pub uninterp spec fn sha256(message: Seq<u8>) -> Seq<u8>;

/// `sha2::Sha256::new`: a state that has taken in nothing.
#[verifier::external_body]
fn sha256_new() -> (state: sha2::Sha256)
    ensures
        taken(state) == Seq::<u8>::empty(),
{
    sha2::Sha256::new()
}

/// `Digest::update`: takes `bytes` in after what was taken in before.
#[verifier::external_body]
fn sha256_update(state: &mut sha2::Sha256, bytes: &[u8])
    ensures
        taken(*final(state)) == taken(*old(state)) + bytes@,
{
    state.update(bytes)
}

/// `Digest::finalize`: the 32 bytes of the hash of what was taken in.
#[verifier::external_body]
fn sha256_finalize(state: sha2::Sha256) -> (hash: Vec<u8>)
    ensures
        hash@ == sha256(taken(state)),
        hash@.len() == 32,
{
    state.finalize().to_vec()
}

/// The lowercase hexadecimal digit of a number below sixteen.
pub open spec fn hex_digit(n: int) -> char {
    if n < 10 {
        (48 + n) as char
    } else {
        (87 + n) as char
    }
}

/// Two hexadecimal digits for each byte, the high one first.
pub open spec fn hex_text(bytes: Seq<u8>) -> Seq<char> {
    Seq::new(
        2 * bytes.len(),
        |i: int|
            hex_digit(
                if i % 2 == 0 {
                    bytes[i / 2] as int / 16
                } else {
                    bytes[i / 2] as int % 16
                },
            ),
    )
}

/// `hex::encode`: each byte as two lowercase hexadecimal digits.
#[verifier::external_body]
fn hex_encode(bytes: &[u8]) -> (s: String)
    ensures
        s@ == hex_text(bytes@),
{
    hex::encode(bytes)
}

/// The digest of some content: `sha256:` and the hash in hexadecimal.
pub open spec fn content_digest(bytes: Seq<u8>) -> Seq<char> {
    "sha256:"@ + hex_text(sha256(bytes))
}

/// `d` is `sha256:` followed by 64 hexadecimal digits.
pub open spec fn is_digest(d: Seq<char>) -> bool {
    &&& d.len() == 71
    &&& d.take(7) == "sha256:"@
    &&& forall|i: int| 7 <= i < 71 ==> is_hex_char(#[trigger] d[i])
}

/// A hexadecimal digit of either case.
pub open spec fn is_hex_char(c: char) -> bool {
    ('0' <= c <= '9') || ('a' <= c <= 'f') || ('A' <= c <= 'F')
}

/// A content hash that is fed piece by piece.
pub struct Hasher {
    state: sha2::Sha256,
}

impl View for Hasher {
    type V = Seq<u8>;

    closed spec fn view(&self) -> Seq<u8> {
        taken(self.state)
    }
}

impl Hasher {
    /// A hasher that has taken in nothing.
    pub fn new() -> (h: Hasher)
        ensures
            h@ == Seq::<u8>::empty(),
    {
        Hasher { state: sha256_new() }
    }

    /// Takes in more bytes.
    pub fn update(&mut self, bytes: &[u8])
        ensures
            final(self)@ == old(self)@ + bytes@,
    {
        sha256_update(&mut self.state, bytes);
    }

    /// The hash of everything taken in.
    pub fn finish(self) -> (hash: Vec<u8>)
        ensures
            hash@ == sha256(self@),
            hash@.len() == 32,
    {
        sha256_finalize(self.state)
    }

    /// The digest of everything taken in.
    pub fn digest(self) -> (d: String)
        ensures
            d@ == content_digest(self@),
            is_digest(d@),
    {
        let hash = self.finish();
        let mut d = "sha256:".to_owned();
        let h = hex_encode(hash.as_slice());
        d.append(h.as_str());
        proof {
            reveal_strlit("sha256:");
            assert(d@.take(7) =~= "sha256:"@);
            assert forall|i: int| 7 <= i < 71 implies is_hex_char(#[trigger] d@[i]) by {
                assert(d@[i] == h@[i - 7]);
            }
        }
        d
    }
}

/// The digest of `bytes`.
pub fn digest_of(bytes: &[u8]) -> (d: String)
    ensures
        d@ == content_digest(bytes@),
        is_digest(d@),
{
    let mut h = Hasher::new();
    h.update(bytes);
    assert(h@ =~= bytes@);
    h.digest()
}

/// The first sixteen bytes of the hash, in hexadecimal.
pub open spec fn etag_of(bytes: Seq<u8>) -> Seq<char> {
    hex_text(sha256(bytes).take(16))
}

/// The entity tag of some content.
pub fn content_etag(bytes: &[u8]) -> (e: String)
    ensures
        e@ == etag_of(bytes@),
        e@.len() == 32,
{
    let mut h = Hasher::new();
    h.update(bytes);
    assert(h@ =~= bytes@);
    let mut hash = h.finish();
    hash.truncate(16);
    assert(hash@ =~= sha256(bytes@).take(16));
    hex_encode(hash.as_slice())
}

/// What a digest is: 71 characters, `sha256:` and behind it hexadecimal digits of either case.
pub proof fn what_a_digest_is(d: Seq<char>)
    ensures
        is_digest(d) <==> {
            &&& d.len() == 71
            &&& "sha256:"@.is_prefix_of(d)
            &&& forall|i: int|
                7 <= i < 71 ==> ('0' <= (#[trigger] d[i]) <= '9') || ('a' <= d[i] <= 'f') || ('A'
                    <= d[i] <= 'F')
        },
{
    reveal_strlit("sha256:");
    if d.len() == 71 {
        assert(d.take(7) =~= d.subrange(0, 7));
        assert forall|i: int| 7 <= i < 71 implies is_hex_char(#[trigger] d[i]) == (('0' <= d[i]
            <= '9') || ('a' <= d[i] <= 'f') || ('A' <= d[i] <= 'F')) by {}
    }
}

/// Each byte has two lowercase hexadecimal digits, the one that counts for sixteen first.
pub proof fn bytes_have_two_digits_each(a: Seq<u8>, b: Seq<u8>, i: int)
    ensures
        hex_text(a).len() == 2 * a.len(),
        hex_text(a + b) == hex_text(a) + hex_text(b),
        0 <= i < a.len() ==> {
            let high = hex_text(a)[2 * i] as int;
            let low = hex_text(a)[2 * i + 1] as int;
            let h = if high < 'a' as int {
                high - '0' as int
            } else {
                high - 'a' as int + 10
            };
            let l = if low < 'a' as int {
                low - '0' as int
            } else {
                low - 'a' as int + 10
            };
            &&& 0 <= h < 16
            &&& 0 <= l < 16
            &&& a[i] == 16 * h + l
        },
{
    assert(hex_text(a + b) =~= hex_text(a) + hex_text(b));
    if 0 <= i < a.len() {
        assert((2 * i) / 2 == i && (2 * i) % 2 == 0);
        assert((2 * i + 1) / 2 == i && (2 * i + 1) % 2 == 1);
    }
}

/// A content digest is `sha256:` and the hash in hexadecimal, and the entity tag of the same
/// content is the first half of that hash.
pub proof fn digests_and_entity_tags_agree(bytes: Seq<u8>)
    requires
        sha256(bytes).len() == 32,
    ensures
        is_digest(content_digest(bytes)),
        content_digest(bytes).take(7) == "sha256:"@,
        content_digest(bytes).skip(7) == hex_text(sha256(bytes)),
        etag_of(bytes).len() == 32,
        content_digest(bytes).subrange(7, 39) == etag_of(bytes),
{
    reveal_strlit("sha256:");
    let d = content_digest(bytes);
    let h = hex_text(sha256(bytes));
    assert(d.take(7) =~= "sha256:"@);
    assert(d.skip(7) =~= h);
    assert forall|i: int| 7 <= i < 71 implies is_hex_char(#[trigger] d[i]) by {
        assert(d[i] == h[i - 7]);
    }
    assert(d.subrange(7, 39) =~= etag_of(bytes));
}

} // verus!
