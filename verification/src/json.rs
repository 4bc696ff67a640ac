//! JSON values as `serde_json` holds them.

use crate::text;
use vstd::prelude::*;
use vstd::string::*;

verus! {

/// A JSON value.
#[verifier::external_type_specification]
#[verifier::external_body]
pub struct ExValue(serde_json::Value);

/// What a JSON value is made of. The members of an object stand in the order in which the
/// value holds them.
pub enum JsonView {
    Null,
    Bool(bool),
    Number(Seq<char>),
    Text(Seq<char>),
    List(Seq<JsonView>),
    Object(Seq<(Seq<char>, JsonView)>),
}

/// What `v` holds.
pub uninterp spec fn contents(v: serde_json::Value) -> JsonView;

/// What a text in JSON denotes, if it is JSON.
pub uninterp spec fn parsed(bytes: Seq<u8>) -> Option<JsonView>;

/// The compact JSON text of a value.
pub uninterp spec fn rendered(v: JsonView) -> Seq<char>;

/// The first member of that name.
pub open spec fn find(members: Seq<(Seq<char>, JsonView)>, k: Seq<char>) -> Option<JsonView>
    decreases members.len(),
{
    if members.len() == 0 {
        None
    } else if members[0].0 == k {
        Some(members[0].1)
    } else {
        find(members.skip(1), k)
    }
}

/// The member of that name, where the value is an object that has it.
pub open spec fn member(v: JsonView, k: Seq<char>) -> Option<JsonView> {
    match v {
        JsonView::Object(members) => find(members, k),
        _ => None,
    }
}

/// The text that a value is.
pub open spec fn as_text(v: Option<JsonView>) -> Option<Seq<char>> {
    match v {
        Some(JsonView::Text(s)) => Some(s),
        _ => None,
    }
}

/// The text under a name.
pub open spec fn text_at(v: JsonView, k: Seq<char>) -> Option<Seq<char>> {
    as_text(member(v, k))
}

/// The text under a name within what stands under another.
pub open spec fn text_within(v: JsonView, outer: Seq<char>, inner: Seq<char>) -> Option<Seq<char>> {
    match member(v, outer) {
        Some(o) => text_at(o, inner),
        None => None,
    }
}

/// The list under a name.
pub open spec fn list_at(v: JsonView, k: Seq<char>) -> Option<Seq<JsonView>> {
    match member(v, k) {
        Some(JsonView::List(items)) => Some(items),
        _ => None,
    }
}

/// What a list of values holds.
pub open spec fn all_contents(list: Seq<serde_json::Value>) -> Seq<JsonView> {
    list.map_values(|v: serde_json::Value| contents(v))
}

/// `serde_json::from_slice`: the value that `bytes` denote, or nothing where they are not JSON.
#[verifier::external_body]
pub(crate) fn parse(bytes: &[u8]) -> (r: Option<serde_json::Value>)
    ensures
        match r {
            Some(v) => parsed(bytes@) == Some(contents(v)),
            None => parsed(bytes@) is None,
        },
{
    serde_json::from_slice(bytes).ok()
}

/// `Value::get` with a name: the member of an object, and nothing of any other value.
#[verifier::external_body]
fn get<'a>(v: &'a serde_json::Value, k: &str) -> (r: Option<&'a serde_json::Value>)
    ensures
        match r {
            Some(m) => member(contents(*v), k@) == Some(contents(*m)),
            None => member(contents(*v), k@) is None,
        },
{
    v.get(k)
}

/// `Value::as_str`: the text of a value that is a text.
#[verifier::external_body]
fn as_str(v: &serde_json::Value) -> (r: Option<&str>)
    ensures
        match r {
            Some(s) => contents(*v) == JsonView::Text(s@),
            None => !(contents(*v) is Text),
        },
{
    v.as_str()
}

/// `Value::as_array`: the items of a value that is a list.
#[verifier::external_body]
fn as_array(v: &serde_json::Value) -> (r: Option<&Vec<serde_json::Value>>)
    ensures
        match r {
            Some(list) => contents(*v) == JsonView::List(all_contents(list@)),
            None => !(contents(*v) is List),
        },
{
    v.as_array()
}

/// `Value::to_string`: the compact JSON text of a value.
#[verifier::external_body]
fn render(v: &serde_json::Value) -> (s: String)
    ensures
        s@ == rendered(contents(*v)),
{
    v.to_string()
}

/// The text under a name.
pub fn get_text(v: &serde_json::Value, k: &str) -> (r: Option<String>)
    ensures
        text::opt_view(r) == text_at(contents(*v), k@),
{
    match get(v, k) {
        Some(m) => match as_str(m) {
            Some(s) => Some(s.to_owned()),
            None => None,
        },
        None => None,
    }
}

/// The text under a name within what stands under another.
pub fn get_text_within(v: &serde_json::Value, outer: &str, inner: &str) -> (r: Option<String>)
    ensures
        text::opt_view(r) == text_within(contents(*v), outer@, inner@),
{
    match get(v, outer) {
        Some(o) => get_text(o, inner),
        None => None,
    }
}

/// The items of the list under a name.
pub fn get_list<'a>(v: &'a serde_json::Value, k: &str) -> (r: Option<&'a Vec<serde_json::Value>>)
    ensures
        match r {
            Some(list) => list_at(contents(*v), k@) == Some(all_contents(list@)),
            None => list_at(contents(*v), k@) is None,
        },
{
    match get(v, k) {
        Some(m) => as_array(m),
        None => None,
    }
}

/// The compact JSON text of what stands under a name.
pub fn get_rendered(v: &serde_json::Value, k: &str) -> (r: Option<String>)
    ensures
        text::opt_view(r) == match member(contents(*v), k@) {
            Some(m) => Some(rendered(m)),
            None => None,
        },
{
    match get(v, k) {
        Some(m) => Some(render(m)),
        None => None,
    }
}

/// Whether a text is JSON.
pub fn is_json(s: &str) -> (r: bool)
    ensures
        r == parsed(vstd::utf8::encode_utf8(s@)) is Some,
{
    parse(s.as_bytes()).is_some()
}

/// What stands under a name in an object is its first member of that name; other values have no
/// members.
pub proof fn the_first_member_counts(
    before: Seq<(Seq<char>, JsonView)>,
    k: Seq<char>,
    v: JsonView,
    after: Seq<(Seq<char>, JsonView)>,
)
    requires
        forall|i: int| 0 <= i < before.len() ==> (#[trigger] before[i]).0 != k,
    ensures
        member(JsonView::Object(before + seq![(k, v)] + after), k) == Some(v),
        member(JsonView::Object(before), k) is None,
        forall|x: JsonView| !(x is Object) ==> #[trigger] member(x, k) is None,
    decreases before.len(),
{
    let all = before + seq![(k, v)] + after;
    if before.len() > 0 {
        let rest = before.skip(1);
        assert forall|i: int| 0 <= i < rest.len() implies (#[trigger] rest[i]).0 != k by {
            assert(rest[i] == before[i + 1]);
        }
        the_first_member_counts(rest, k, v, after);
        assert(all.skip(1) =~= rest + seq![(k, v)] + after);
        assert(all[0] == before[0]);
    } else {
        assert(all[0] == (k, v));
    }
}

/// A text or a list stands under a name where the member of that name is one.
pub proof fn members_are_texts_or_lists(
    v: JsonView,
    k: Seq<char>,
    inner: Seq<char>,
    s: Seq<char>,
    items: Seq<JsonView>,
)
    ensures
        text_at(v, k) == Some(s) <==> member(v, k) == Some(JsonView::Text(s)),
        list_at(v, k) == Some(items) <==> member(v, k) == Some(JsonView::List(items)),
        text_within(v, k, inner) == Some(s) <==> (member(v, k) matches Some(o) && member(o, inner)
            == Some(JsonView::Text(s))),
{
}

} // verus!
