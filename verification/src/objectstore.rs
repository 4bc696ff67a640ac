//! Objects under keys: conditional reads and compare-and-swap writes.
//!
//! A directory can stand in for a bucket. Beside each object lies a file with its entity tag,
//! and a lock file serializes the writers of a key.

use crate::digest;
use crate::digest::content_etag;
use crate::ident;
use crate::ident::new_uuid;
use crate::storage;
use crate::storage::join;
use crate::text;
use vstd::prelude::*;
use vstd::string::*;

verus! {

/// The outcome of a conditional read.
#[derive(Debug)]
pub enum Fetch {
    NotModified,
    New(Vec<u8>, String),
    Missing,
}

/// The outcome of a compare-and-swap.
#[derive(Debug)]
pub enum Cas {
    /// The new content is in place, under this entity tag.
    Swapped(String),
    Conflict,
}

/// A directory that stands in for a bucket.
#[derive(Debug)]
pub struct FsObjectStore {
    root: String,
}

impl View for FsObjectStore {
    type V = Seq<char>;

    closed spec fn view(&self) -> Seq<char> {
        self.root@
    }
}

/// The file of an object's entity tag.
pub open spec fn etag_path_of(root: Seq<char>, key: Seq<char>) -> Seq<char> {
    storage::joined(root, key + ".__etag"@)
}

/// The file that serializes the writers of a key.
pub open spec fn lock_path_of(root: Seq<char>, key: Seq<char>) -> Seq<char> {
    storage::joined(root, key + ".__lock"@)
}

/// A temporary file below the root.
pub open spec fn is_temp_path(root: Seq<char>, p: Seq<char>) -> bool {
    exists|u: Seq<char>|
        #[trigger] ident::is_uuid(u) && p == storage::joined(root, ".tmp-"@ + u)
}

/// The files that a write produces: each is written to a temporary file first and then moved
/// into place.
#[derive(Debug)]
pub struct WritePlan {
    pub etag: String,
    pub content_temp: String,
    pub content: String,
    pub etag_temp: String,
    pub etag_file: String,
}

impl FsObjectStore {
    /// A bucket in `root`.
    pub fn new(root: &str) -> (s: FsObjectStore)
        ensures
            s@ == root@,
    {
        FsObjectStore { root: root.to_owned() }
    }

    /// The root directory.
    pub fn root(&self) -> (r: &str)
        ensures
            r@ == self@,
    {
        self.root.as_str()
    }

    /// The file of an object.
    pub fn path_of(&self, key: &str) -> (p: String)
        ensures
            p@ == storage::joined(self@, key@),
    {
        join(self.root.as_str(), key)
    }

    /// The file of an object's entity tag.
    pub fn etag_path(&self, key: &str) -> (p: String)
        ensures
            p@ == etag_path_of(self@, key@),
    {
        let mut name = key.to_owned();
        name.append(".__etag");
        join(self.root.as_str(), name.as_str())
    }

    /// The file that serializes the writers of a key.
    pub fn lock_path(&self, key: &str) -> (p: String)
        ensures
            p@ == lock_path_of(self@, key@),
    {
        let mut name = key.to_owned();
        name.append(".__lock");
        join(self.root.as_str(), name.as_str())
    }

    /// A new temporary file. No two writers share one.
    pub fn temp_path(&self) -> (p: String)
        ensures
            is_temp_path(self@, p@),
    {
        let uuid = new_uuid();
        let mut name = ".tmp-".to_owned();
        name.append(uuid.as_str());
        proof {
            assert(ident::is_uuid(uuid@));
        }
        join(self.root.as_str(), name.as_str())
    }

    /// The files that a write of `bytes` under `key` produces.
    pub fn write_atomic(&self, key: &str, bytes: &[u8]) -> (w: WritePlan)
        ensures
            w.etag@ == digest::etag_of(bytes@),
            w.content@ == storage::joined(self@, key@),
            w.etag_file@ == etag_path_of(self@, key@),
            is_temp_path(self@, w.content_temp@),
            is_temp_path(self@, w.etag_temp@),
    {
        WritePlan {
            etag: content_etag(bytes),
            content_temp: self.temp_path(),
            content: self.path_of(key),
            etag_temp: self.temp_path(),
            etag_file: self.etag_path(key),
        }
    }

    /// The files that go with an object: its content, its entity tag and its lock.
    pub fn delete(&self, key: &str) -> (files: Vec<String>)
        ensures
            text::views(files@) == seq![
                storage::joined(self@, key@),
                etag_path_of(self@, key@),
                lock_path_of(self@, key@),
            ],
    {
        let mut files: Vec<String> = Vec::new();
        files.push(self.path_of(key));
        files.push(self.etag_path(key));
        files.push(self.lock_path(key));
        proof {
            assert(text::views(files@) =~= seq![
                storage::joined(self@, key@),
                etag_path_of(self@, key@),
                lock_path_of(self@, key@),
            ]);
        }
        files
    }
}

/// The entity tag of an object: as recorded beside it, else that of its content.
pub open spec fn etag_in_force(recorded: Option<Seq<char>>, bytes: Seq<u8>) -> Seq<char> {
    match recorded {
        Some(e) => e,
        None => digest::etag_of(bytes),
    }
}

/// What a read gives back of an object.
pub fn get(bytes: Vec<u8>, recorded: Option<String>) -> (r: (Vec<u8>, String))
    ensures
        r.0@ == bytes@,
        r.1@ == etag_in_force(text::opt_view(recorded), bytes@),
{
    match recorded {
        Some(e) => (bytes, e),
        None => {
            let e = content_etag(bytes.as_slice());
            (bytes, e)
        },
    }
}

/// Whether the recorded entity tag alone shows that an object has not changed.
pub fn unchanged(recorded: Option<&str>, etag: &str) -> (r: bool)
    ensures
        r == (text::opt_str(recorded) == Some(etag@)),
{
    match recorded {
        Some(e) => text::same(e, etag),
        None => false,
    }
}

/// The outcome of a conditional read: `found` is the content, where there is any, and
/// `recorded` the entity tag beside it.
pub fn get_if_none_match(found: Option<Vec<u8>>, recorded: Option<String>, etag: &str) -> (r: Fetch)
    ensures
        match found {
            None => r is Missing,
            Some(bytes) => {
                let current = etag_in_force(text::opt_view(recorded), bytes@);
                if current == etag@ {
                    r is NotModified
                } else {
                    r matches Fetch::New(b, e) && b@ == bytes@ && e@ == current
                }
            },
        },
{
    match found {
        None => Fetch::Missing,
        Some(bytes) => {
            let (bytes, current) = get(bytes, recorded);
            if text::same(current.as_str(), etag) {
                Fetch::NotModified
            } else {
                Fetch::New(bytes, current)
            }
        },
    }
}

/// A write takes place exactly when the object is as the writer expects it: with that entity
/// tag, or not there at all.
pub open spec fn swap_allowed(expected: Option<Seq<char>>, current: Option<Seq<char>>) -> bool {
    expected == current
}

/// The entity tag that a compare-and-swap is held against: that of the object, where there is
/// one. An object that came without a recorded entity tag has that of its content, and an
/// entity tag without an object stands for nothing.
pub open spec fn current_etag(found: Option<Seq<u8>>, recorded: Option<Seq<char>>) -> Option<
    Seq<char>,
> {
    match found {
        Some(bytes) => Some(etag_in_force(recorded, bytes)),
        None => None,
    }
}

/// The entity tag that a compare-and-swap is held against: `found` is the content of the object,
/// where there is one, and `recorded` the entity tag beside it.
pub fn current(found: Option<&[u8]>, recorded: Option<&str>) -> (r: Option<String>)
    ensures
        r is Some <==> found is Some,
        text::opt_view(r) == current_etag(
            match found {
                Some(bytes) => Some(bytes@),
                None => None,
            },
            text::opt_str(recorded),
        ),
{
    match (found, recorded) {
        (Some(_), Some(e)) => Some(e.to_owned()),
        (Some(bytes), None) => Some(content_etag(bytes)),
        (None, _) => None,
    }
}

/// Whether a compare-and-swap takes place, given the entity tag that is current.
pub fn put_if_match(expected: Option<&str>, current: Option<&str>) -> (r: bool)
    ensures
        r == swap_allowed(text::opt_str(expected), text::opt_str(current)),
{
    match (expected, current) {
        (None, None) => true,
        (Some(a), Some(b)) => text::same(a, b),
        _ => false,
    }
}

/// A file is an object: no temporary file, no entity tag, no lock.
pub open spec fn is_object_file(name: Seq<char>) -> bool {
    &&& !".tmp-"@.is_prefix_of(name)
    &&& !".__etag"@.is_suffix_of(name)
    &&& !".__lock"@.is_suffix_of(name)
}

/// Whether a file belongs into a listing.
pub fn is_listed(name: &str) -> (r: bool)
    ensures
        r == is_object_file(name@),
{
    !text::has_prefix(name, ".tmp-") && !text::has_suffix(name, ".__etag") && !text::has_suffix(
        name,
        ".__lock",
    )
}

/// How a conditional write to S3-compatible storage ended.
#[derive(Debug)]
pub enum Put {
    Stored(String),
    /// The condition did not hold.
    Refused,
    /// The storage knows no such object.
    NotFound,
    Failed,
}

/// What follows a conditional write.
#[derive(Debug)]
pub enum AfterPut {
    Done(Cas),
    /// Look whether the object is there, and write it without a condition if it is not: some
    /// storage refuses to create objects under a condition.
    LookAndPut,
    Fail,
}

/// Decides what follows a conditional write; `create` says that no object was expected.
pub fn after_put(outcome: Put, create: bool) -> (r: AfterPut)
    ensures
        match outcome {
            Put::Stored(etag) => r == AfterPut::Done(Cas::Swapped(etag)),
            Put::Refused => r == AfterPut::Done(Cas::Conflict),
            Put::NotFound => if create {
                r is LookAndPut
            } else {
                r is Fail
            },
            Put::Failed => r is Fail,
        },
{
    match outcome {
        Put::Stored(etag) => AfterPut::Done(Cas::Swapped(etag)),
        Put::Refused => AfterPut::Done(Cas::Conflict),
        Put::NotFound => {
            if create {
                AfterPut::LookAndPut
            } else {
                AfterPut::Fail
            }
        },
        Put::Failed => AfterPut::Fail,
    }
}

/// The longest file that is uploaded in one piece.
pub const SINGLE_PUT_LIMIT: u64 = 16_777_216;

/// The length of the pieces of longer files.
pub const PART_LENGTH: usize = 8_388_608;

/// Creating an object succeeds exactly where there is none: an object that is there conflicts,
/// with an entity tag recorded beside it or without.
pub proof fn creation_succeeds_once(
    found: Option<Seq<u8>>,
    recorded: Option<Seq<char>>,
)
    ensures
        swap_allowed(None, current_etag(found, recorded)) <==> found is None,
{
}

/// An update with the current entity tag succeeds and one with any other conflicts, so of two
/// writers who read the same state only the first to write succeeds, unless it wrote content
/// with the same entity tag.
pub proof fn stale_writers_conflict(read: Seq<char>, written: Seq<u8>)
    ensures
        swap_allowed(Some(read), Some(read)),
        digest::etag_of(written) != read ==> !swap_allowed(
            Some(read),
            Some(digest::etag_of(written)),
        ),
        !swap_allowed(Some(read), None),
{
}

/// What a write puts in place is read back under the entity tag that the write reported, also
/// where the file beside it is missing; a conditional read with that tag brings nothing new, and
/// a writer who read it may replace it as long as it is as it was read.
pub proof fn a_write_reads_back(bytes: Seq<u8>)
    ensures
        etag_in_force(Some(digest::etag_of(bytes)), bytes) == digest::etag_of(bytes),
        etag_in_force(None, bytes) == digest::etag_of(bytes),
        forall|recorded: Option<Seq<char>>|
            swap_allowed(
                Some(etag_in_force(recorded, bytes)),
                #[trigger] current_etag(Some(bytes), recorded),
            ),
{
}

/// When a compare-and-swap takes place: where the writer expects no object and there is none, and
/// where it expects the very entity tag that the object has. That is the one recorded beside the
/// object, or that of its content where none is recorded.
pub proof fn when_a_swap_takes_place(
    expected: Option<Seq<char>>,
    found: Option<Seq<u8>>,
    recorded: Option<Seq<char>>,
)
    ensures
        swap_allowed(expected, current_etag(found, recorded)) <==> match (expected, found) {
            (None, None) => true,
            (Some(e), Some(bytes)) => if recorded is Some {
                recorded == Some(e)
            } else {
                e == digest::hex_text(digest::sha256(bytes).take(16))
            },
            _ => false,
        },
        found matches Some(bytes) ==> current_etag(found, recorded) == Some(
            etag_in_force(recorded, bytes),
        ),
{
}

/// What a listing leaves out: temporary files, entity tags and locks, and nothing else.
pub proof fn what_a_listing_leaves_out(name: Seq<char>)
    ensures
        !is_object_file(".tmp-"@ + name),
        !is_object_file(name + ".__etag"@),
        !is_object_file(name + ".__lock"@),
        !is_object_file(name) <==> {
            ||| exists|x: Seq<char>| name == #[trigger] (".tmp-"@ + x)
            ||| exists|x: Seq<char>| name == #[trigger] (x + ".__etag"@)
            ||| exists|x: Seq<char>| name == #[trigger] (x + ".__lock"@)
        },
{
    text::what_is_stripped_comes_off(".tmp-"@ + name, ".tmp-"@, name);
    text::what_is_stripped_comes_off(name + ".__etag"@, ".__etag"@, name);
    text::what_is_stripped_comes_off(name + ".__lock"@, ".__lock"@, name);
    text::what_is_stripped_comes_off(name, ".tmp-"@, name);
    text::what_is_stripped_comes_off(name, ".__etag"@, name);
    text::what_is_stripped_comes_off(name, ".__lock"@, name);
}

/// The entity tag and the lock of an object lie beside it, under names of their own.
pub proof fn tags_and_locks_lie_beside_the_object(root: Seq<char>, key: Seq<char>)
    requires
        key.len() > 0,
    ensures
        etag_path_of(root, key) == storage::joined(root, key) + ".__etag"@,
        lock_path_of(root, key) == storage::joined(root, key) + ".__lock"@,
{
    let p = storage::joined(root, key);
    assert((key + ".__etag"@)[0] == key[0]);
    assert((key + ".__lock"@)[0] == key[0]);
    assert(etag_path_of(root, key) =~= p + ".__etag"@);
    assert(lock_path_of(root, key) =~= p + ".__lock"@);
}

/// A temporary file lies right below the root, under a name of its own that no listing shows.
pub proof fn temporary_files_are_never_listed(root: Seq<char>, p: Seq<char>)
    requires
        is_temp_path(root, p),
    ensures
        exists|name: Seq<char>|
            p == #[trigger] storage::joined(root, name) && name.len() == 41 && !is_object_file(name),
{
    let u = choose|u: Seq<char>|
        #[trigger] ident::is_uuid(u) && p == storage::joined(root, ".tmp-"@ + u);
    let name = ".tmp-"@ + u;
    reveal_strlit(".tmp-");
    what_a_listing_leaves_out(u);
    assert(p == storage::joined(root, name));
}

} // verus!
