//! Blobs: reading them, whole or in part, and deleting them.

use crate::number;
use crate::number::{parse_i64, signed_of};
use crate::oci::errors;
use crate::oci::errors::{blob_unknown, internal, oci_error, Body, Reply};
use crate::oci::manifests::Query;
use crate::text;
use vstd::prelude::*;
use vstd::string::*;

verus! {

/// The bytes that a `range` header asks for, where it names one range that lies within the
/// blob; any other header counts for nothing.
pub open spec fn range_of(header: Option<Seq<char>>, size: i64) -> Option<(i64, i64)> {
    match header {
        None => None,
        Some(h) => match text::after_prefix(h, "bytes="@) {
            None => None,
            Some(spec) => match text::cut(spec, '-') {
                None => None,
                Some((a, b)) => {
                    let end = if b.len() == 0 {
                        Some((size - 1) as i64)
                    } else {
                        number::read_i64(b)
                    };
                    match (number::read_i64(a), end) {
                        (Some(start), Some(end)) => if 0 <= start <= end && end < size {
                            Some((start, end))
                        } else {
                            None
                        },
                        _ => None,
                    }
                },
            },
        },
    }
}

/// Reads a `range` header.
pub fn parse_range(header: Option<&str>, size: i64) -> (r: Option<(i64, i64)>)
    ensures
        r == range_of(text::opt_str(header), size),
        r matches Some((start, end)) ==> 0 <= start <= end < size,
{
    if size <= 0 {
        return None;
    }
    let h = match header {
        Some(h) => h,
        None => return None,
    };
    let wanted = match text::strip_prefix(h, "bytes=") {
        Some(s) => s,
        None => return None,
    };
    let (a, b) = match text::split_once(wanted.as_str(), '-') {
        Some(parts) => parts,
        None => return None,
    };
    proof {
        reveal_strlit("");
        assert(b@.len() == 0 <==> b@ =~= ""@);
    }
    let start = match parse_i64(a.as_str()) {
        Some(n) => n,
        None => return None,
    };
    let end = if text::same(b.as_str(), "") {
        size - 1
    } else {
        match parse_i64(b.as_str()) {
            Some(n) => n,
            None => return None,
        }
    };
    if start < 0 || start > end || end >= size {
        None
    } else {
        Some((start, end))
    }
}

/// The reply with a whole blob, or with its headers alone.
pub open spec fn whole_reply(digest: Seq<char>, size: i64, head: bool) -> errors::ReplyView {
    errors::plain(
        200,
        if head {
            errors::BodyView::Empty
        } else {
            errors::BodyView::Blob(digest)
        },
    ).with("content-length"@, number::signed(size as int)).with(
        "content-type"@,
        "application/octet-stream"@,
    ).with("docker-content-digest"@, digest).with("accept-ranges"@, "bytes"@)
}

/// The reply with a part of a blob.
pub open spec fn part_reply(digest: Seq<char>, size: i64, start: i64, end: i64) -> errors::ReplyView {
    errors::plain(
        206,
        errors::BodyView::Part(digest, start as u64, (end - start + 1) as u64),
    ).with("content-length"@, number::signed(end - start + 1)).with(
        "content-range"@,
        "bytes "@ + number::signed(start as int) + "-"@ + number::signed(end as int) + "/"@
            + number::signed(size as int),
    ).with("content-type"@, "application/octet-stream"@).with("docker-content-digest"@, digest)
}

/// Answers a request for a blob: `size` is its length, where it is there.
pub fn get(size: Query<i64>, digest: &str, head: bool, range: Option<&str>) -> (r: Reply)
    ensures
        r@ == match size {
            Query::Failed => errors::internal_reply(),
            Query::Absent => errors::blob_unknown_reply(),
            Query::Present(n) => if head {
                whole_reply(digest@, n, true)
            } else {
                match range_of(text::opt_str(range), n) {
                    Some((start, end)) => part_reply(digest@, n, start, end),
                    None => whole_reply(digest@, n, false),
                }
            },
        },
{
    let n = match size {
        Query::Failed => return internal(),
        Query::Absent => return blob_unknown(),
        Query::Present(n) => n,
    };
    if !head {
        if let Some((start, end)) = parse_range(range, n) {
            let len: i64 = end - start + 1;
            let mut span = "bytes ".to_owned();
            span.append(signed_of(start).as_str());
            span.append("-");
            span.append(signed_of(end).as_str());
            span.append("/");
            span.append(signed_of(n).as_str());
            return Reply::new(206, Body::Part(digest.to_owned(), start as u64, len as u64)).with(
                "content-length",
                signed_of(len).as_str(),
            ).with("content-range", span.as_str()).with(
                "content-type",
                "application/octet-stream",
            ).with("docker-content-digest", digest);
        }
    }
    let body = if head {
        Body::Empty
    } else {
        Body::Blob(digest.to_owned())
    };
    Reply::new(200, body).with("content-length", signed_of(n).as_str()).with(
        "content-type",
        "application/octet-stream",
    ).with("docker-content-digest", digest).with("accept-ranges", "bytes")
}

/// What the row of a blob came to.
#[derive(Debug, Clone, Copy, PartialEq, Eq)]
pub enum Removal {
    /// Manifests refer to it: it stays.
    Referenced,
    /// There was none.
    Unknown,
    /// It is gone, and the blob itself is to be removed.
    Removed,
}

/// Decides about the row of a blob: `references` counts the manifests that refer to it, and
/// `rows` the rows that were deleted where none does.
pub fn removal(references: i64, rows: usize) -> (r: Removal)
    ensures
        r == if references > 0 {
            Removal::Referenced
        } else if rows > 0 {
            Removal::Removed
        } else {
            Removal::Unknown
        },
{
    if references > 0 {
        Removal::Referenced
    } else if rows > 0 {
        Removal::Removed
    } else {
        Removal::Unknown
    }
}

/// Answers a delete: `None` where the rows, the file or the object could not be dealt with.
pub fn delete(outcome: Option<Removal>) -> (r: Reply)
    ensures
        r@ == match outcome {
            None => errors::internal_reply(),
            Some(Removal::Referenced) => errors::error_reply(
                409,
                "DENIED"@,
                "blob is referenced by one or more manifests"@,
            ),
            Some(Removal::Unknown) => errors::blob_unknown_reply(),
            Some(Removal::Removed) => errors::plain(202, errors::BodyView::Empty),
        },
{
    match outcome {
        None => internal(),
        Some(Removal::Referenced) => oci_error(
            409,
            "DENIED",
            "blob is referenced by one or more manifests",
        ),
        Some(Removal::Unknown) => blob_unknown(),
        Some(Removal::Removed) => Reply::new(202, Body::Empty),
    }
}

/// A part of a blob lies within the blob, and its headers say how long it is.
pub proof fn parts_lie_within(header: Option<Seq<char>>, size: i64)
    ensures
        range_of(header, size) matches Some((start, end)) ==> {
            &&& 0 <= start <= end < size
            &&& 0 < end - start + 1 <= size
        },
{
}

/// What a `range` header asks for: `bytes=a-b` the bytes from `a` to `b`, and `bytes=a-` those
/// from `a` to the end, where they lie within the blob; else nothing. Without a header, or with
/// one of another form, nothing is asked for.
pub proof fn ranges_are_taken_at_their_word(a: i64, b: i64, size: i64, other: Seq<char>)
    requires
        a >= 0,
        b >= 0,
    ensures
        range_of(
            Some("bytes="@ + number::signed(a as int) + "-"@ + number::signed(b as int)),
            size,
        ) == if a <= b && b < size {
            Some((a, b))
        } else {
            None
        },
        range_of(Some("bytes="@ + number::signed(a as int) + "-"@), size) == if a < size {
            Some((a, (size - 1) as i64))
        } else {
            None
        },
        range_of(None, size) is None,
        !"bytes="@.is_prefix_of(other) ==> range_of(Some(other), size) is None,
{
    let x = number::signed(a as int);
    let y = number::signed(b as int);
    reveal_strlit("-");
    assert("-"@ =~= seq!['-']);
    number::signed_reads_back(a as int);
    number::signed_reads_back(b as int);
    number::decimals_denote_their_number(a as nat);
    number::decimals_denote_their_number(b as nat);
    assert(!x.contains('-')) by {
        assert forall|i: int| 0 <= i < x.len() implies x[i] != '-' by {
            assert('0' <= number::decimal(a as nat)[i] <= '9');
        }
    }
    let e = Seq::<char>::empty();
    text::a_cut_takes_out_the_first(x, y, '-');
    text::a_cut_takes_out_the_first(x, e, '-');
    assert("bytes="@ + x + "-"@ + y =~= "bytes="@ + (x + seq!['-'] + y));
    assert("bytes="@ + x + "-"@ =~= "bytes="@ + (x + seq!['-'] + e));
    text::what_is_stripped_comes_off(
        "bytes="@ + (x + seq!['-'] + y),
        "bytes="@,
        x + seq!['-'] + y,
    );
    text::what_is_stripped_comes_off(
        "bytes="@ + (x + seq!['-'] + e),
        "bytes="@,
        x + seq!['-'] + e,
    );
}

/// A blob comes whole with status 200, its size and its digest, and in part with status 206: the
/// bytes from `start` to `end`, with both and the size of the blob in the headers. A request for
/// the headers gets no bytes.
pub proof fn blobs_come_whole_or_in_part(digest: Seq<char>, size: i64, start: i64, end: i64)
    requires
        0 <= start <= end < size,
    ensures
        ({
            let r = whole_reply(digest, size, false);
            &&& r.status == 200
            &&& r.body == errors::BodyView::Blob(digest)
            &&& r.headers.contains(("content-length"@, number::signed(size as int)))
            &&& r.headers.contains(("content-type"@, "application/octet-stream"@))
            &&& r.headers.contains(("docker-content-digest"@, digest))
            &&& r.headers.contains(("accept-ranges"@, "bytes"@))
        }),
        whole_reply(digest, size, true).status == 200,
        whole_reply(digest, size, true).headers == whole_reply(digest, size, false).headers,
        whole_reply(digest, size, true).body == errors::BodyView::Empty,
        ({
            let r = part_reply(digest, size, start, end);
            &&& r.status == 206
            &&& r.body matches errors::BodyView::Part(d, first, n) && d == digest && first == start
                && n == end - start + 1
            &&& r.headers.contains(("content-length"@, number::signed(end - start + 1)))
            &&& r.headers.contains(
                (
                    "content-range"@,
                    "bytes "@ + number::signed(start as int) + "-"@ + number::signed(end as int)
                        + "/"@ + number::signed(size as int),
                ),
            )
            &&& r.headers.contains(("docker-content-digest"@, digest))
            &&& r.headers.contains(("content-type"@, "application/octet-stream"@))
        }),
{
    let w = whole_reply(digest, size, false).headers;
    assert(w[0] == ("content-length"@, number::signed(size as int)));
    assert(w[1] == ("content-type"@, "application/octet-stream"@));
    assert(w[2] == ("docker-content-digest"@, digest));
    assert(w[3] == ("accept-ranges"@, "bytes"@));
    let p = part_reply(digest, size, start, end).headers;
    assert(p[0] == ("content-length"@, number::signed(end - start + 1)));
    assert(p[1].0 == "content-range"@);
    assert(p.contains(p[1]));
    assert(p[2] == ("content-type"@, "application/octet-stream"@));
    assert(p[3] == ("docker-content-digest"@, digest));
}

/// A range is taken exactly where both of its ends are numbers and it lies within the blob, and an
/// open one where its start is a number within the blob; a header without a hyphen names none.
pub proof fn which_ranges_are_taken(
    x: Seq<char>,
    y: Seq<char>,
    size: i64,
    start: i64,
    end: i64,
)
    requires
        !x.contains('-'),
    ensures
        y.len() > 0 ==> (range_of(Some("bytes="@ + (x + seq!['-'] + y)), size) == Some((start, end))
            <==> number::read_i64(x) == Some(start) && number::read_i64(y) == Some(end) && 0 <= start
            <= end < size),
        size > 0 ==> (range_of(Some("bytes="@ + (x + seq!['-'])), size) == Some((start, end))
            <==> number::read_i64(x) == Some(start) && 0 <= start < size && end == size - 1),
        range_of(Some("bytes="@ + x), size) is None,
{
    let e = Seq::<char>::empty();
    text::a_cut_takes_out_the_first(x, y, '-');
    text::a_cut_takes_out_the_first(x, e, '-');
    assert(x + seq!['-'] + e =~= x + seq!['-']);
    text::what_is_stripped_comes_off(
        "bytes="@ + (x + seq!['-'] + y),
        "bytes="@,
        x + seq!['-'] + y,
    );
    text::what_is_stripped_comes_off("bytes="@ + (x + seq!['-']), "bytes="@, x + seq!['-']);
    text::what_is_stripped_comes_off("bytes="@ + x, "bytes="@, x);
}

} // verus!
