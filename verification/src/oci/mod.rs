//! The distribution API: routes, names and the dispatch of requests.

pub mod blobs;
pub mod errors;
pub mod manifests;
pub mod uploads;

use crate::auth;
use crate::auth::{authorize, Action, Identity};
use crate::config::Config;
use crate::digest;
use crate::oci::errors::{digest_invalid, name_unknown, oci_error, Body, Reply};
use crate::shard;
use crate::table::Table;
use crate::text;
use vstd::prelude::*;
use vstd::string::*;

verus! {

/// What a path under `/v2/` asks for. The repository's name, which itself may contain
/// slashes, stands in the middle of the path.
#[derive(Debug, PartialEq)]
pub enum Route {
    Base,
    UploadStart(String),
    Upload(String, String),
    Blob(String, String),
    Manifest(String, String),
    Tags(String),
    Referrers(String, String),
}

pub enum RouteView {
    Base,
    UploadStart(Seq<char>),
    Upload(Seq<char>, Seq<char>),
    Blob(Seq<char>, Seq<char>),
    Manifest(Seq<char>, Seq<char>),
    Tags(Seq<char>),
    Referrers(Seq<char>, Seq<char>),
}

impl View for Route {
    type V = RouteView;

    open spec fn view(&self) -> RouteView {
        match *self {
            Route::Base => RouteView::Base,
            Route::UploadStart(n) => RouteView::UploadStart(n@),
            Route::Upload(n, u) => RouteView::Upload(n@, u@),
            Route::Blob(n, d) => RouteView::Blob(n@, d@),
            Route::Manifest(n, r) => RouteView::Manifest(n@, r@),
            Route::Tags(n) => RouteView::Tags(n@),
            Route::Referrers(n, d) => RouteView::Referrers(n@, d@),
        }
    }
}

/// Where the listing of tags is asked for at the end of a path, or `-1`.
pub open spec fn tags_marker(rest: Seq<char>) -> int {
    if "/tags/list"@.is_suffix_of(rest) {
        rest.len() - "/tags/list"@.len()
    } else {
        -1
    }
}

/// The route of a path: the rightmost marker decides, and what stands before it is the name.
/// At one position `/blobs/uploads/` goes before its prefix `/blobs/`.
pub open spec fn route_of(rest: Seq<char>) -> Option<RouteView> {
    let u = text::last_of(rest, "/blobs/uploads/"@);
    let b = text::last_of(rest, "/blobs/"@);
    let m = text::last_of(rest, "/manifests/"@);
    let r = text::last_of(rest, "/referrers/"@);
    let t = tags_marker(rest);
    if rest.len() == 0 {
        Some(RouteView::Base)
    } else if u >= 0 && u >= b && u >= m && u >= r && u >= t {
        let tail = rest.skip(u + "/blobs/uploads/"@.len());
        Some(
            if tail.len() == 0 {
                RouteView::UploadStart(rest.take(u))
            } else {
                RouteView::Upload(rest.take(u), tail)
            },
        )
    } else if b >= 0 && b >= m && b >= r && b >= t {
        Some(RouteView::Blob(rest.take(b), rest.skip(b + "/blobs/"@.len())))
    } else if m >= 0 && m >= r && m >= t {
        Some(RouteView::Manifest(rest.take(m), rest.skip(m + "/manifests/"@.len())))
    } else if r >= 0 && r >= t {
        Some(RouteView::Referrers(rest.take(r), rest.skip(r + "/referrers/"@.len())))
    } else if t >= 0 {
        Some(RouteView::Tags(rest.take(t)))
    } else {
        None
    }
}

fn find_last(v: &Vec<char>, marker: &str) -> (r: Option<usize>)
    ensures
        match r {
            Some(i) => text::last_of(v@, marker@) == i && i + marker@.len() <= v@.len(),
            None => text::last_of(v@, marker@) == -1,
        },
{
    let m = text::chars_of(marker);
    let r = text::rfind(v, &m);
    proof {
        text::last_from_is_last(v@, marker@, v@.len() as int);
    }
    r
}

/// `a` is a position, and no position of `b` is further right.
fn not_left_of(a: Option<usize>, b: Option<usize>) -> (r: bool)
    ensures
        r == (a is Some && (b is Some ==> a->0 >= b->0)),
{
    match (a, b) {
        (Some(i), Some(j)) => i >= j,
        (Some(_), None) => true,
        (None, _) => false,
    }
}

/// Reads the path of a request, without its `/v2/`.
pub fn parse_route(rest: &str) -> (r: Option<Route>)
    ensures
        match r {
            Some(route) => route_of(rest@) == Some(route@),
            None => route_of(rest@) is None,
        },
{
    let v = text::chars_of(rest);
    if v.len() == 0 {
        return Some(Route::Base);
    }
    let u = find_last(&v, "/blobs/uploads/");
    let b = find_last(&v, "/blobs/");
    let m = find_last(&v, "/manifests/");
    let r = find_last(&v, "/referrers/");
    proof {
        reveal_strlit("/blobs/uploads/");
        reveal_strlit("/blobs/");
        reveal_strlit("/manifests/");
        reveal_strlit("/referrers/");
        reveal_strlit("/tags/list");
    }
    let t: Option<usize> = if text::has_suffix(rest, "/tags/list") {
        Some(v.len() - 10)
    } else {
        None
    };
    if not_left_of(u, b) && not_left_of(u, m) && not_left_of(u, r) && not_left_of(u, t) {
        let i: usize = u.unwrap();
        let name = text::text_of(&v, 0, i);
        let tail = text::text_of(&v, i + 15, v.len());
        proof {
            assert(name@ =~= rest@.take(i as int));
            assert(tail@ =~= rest@.skip(i + 15));
        }
        if i + 15 == v.len() {
            Some(Route::UploadStart(name))
        } else {
            Some(Route::Upload(name, tail))
        }
    } else if not_left_of(b, m) && not_left_of(b, r) && not_left_of(b, t) {
        let i: usize = b.unwrap();
        let name = text::text_of(&v, 0, i);
        let tail = text::text_of(&v, i + 7, v.len());
        proof {
            assert(name@ =~= rest@.take(i as int));
            assert(tail@ =~= rest@.skip(i + 7));
        }
        Some(Route::Blob(name, tail))
    } else if not_left_of(m, r) && not_left_of(m, t) {
        let i: usize = m.unwrap();
        let name = text::text_of(&v, 0, i);
        let tail = text::text_of(&v, i + 11, v.len());
        proof {
            assert(name@ =~= rest@.take(i as int));
            assert(tail@ =~= rest@.skip(i + 11));
        }
        Some(Route::Manifest(name, tail))
    } else if not_left_of(r, t) {
        let i: usize = r.unwrap();
        let name = text::text_of(&v, 0, i);
        let tail = text::text_of(&v, i + 11, v.len());
        proof {
            assert(name@ =~= rest@.take(i as int));
            assert(tail@ =~= rest@.skip(i + 11));
        }
        Some(Route::Referrers(name, tail))
    } else {
        match t {
            Some(i) => {
                let name = text::text_of(&v, 0, i);
                proof {
                    assert(name@ =~= rest@.take(i as int));
                }
                Some(Route::Tags(name))
            },
            None => None,
        }
    }
}

/// A lowercase letter or a digit.
pub open spec fn lower_or_digit(c: char) -> bool {
    ('a' <= c <= 'z') || ('0' <= c <= '9')
}

/// A component of a name: lowercase letters, digits and `._-`, a letter or a digit at either end.
pub open spec fn is_component(s: Seq<char>) -> bool {
    &&& s.len() > 0
    &&& lower_or_digit(s[0])
    &&& lower_or_digit(s.last())
    &&& forall|i: int|
        0 <= i < s.len() ==> lower_or_digit(#[trigger] s[i]) || s[i] == '.' || s[i] == '_' || s[i]
            == '-'
}

/// A repository's name: components between slashes, 255 characters at most.
pub open spec fn is_name(name: Seq<char>) -> bool {
    &&& 0 < name.len() <= 255
    &&& forall|i: int|
        0 <= i < text::pieces(name, '/').len() ==> is_component(
            #[trigger] text::pieces(name, '/')[i],
        )
}

fn valid_component(s: &str) -> (r: bool)
    ensures
        r == is_component(s@),
{
    let v = text::chars_of(s);
    if v.len() == 0 {
        return false;
    }
    let first = v[0];
    let last = v[v.len() - 1];
    if !((first >= 'a' && first <= 'z') || (first >= '0' && first <= '9')) {
        return false;
    }
    if !((last >= 'a' && last <= 'z') || (last >= '0' && last <= '9')) {
        return false;
    }
    let mut i: usize = 0;
    while i < v.len()
        invariant
            i <= v@.len(),
            v@ == s@,
            forall|j: int|
                0 <= j < i ==> lower_or_digit(#[trigger] s@[j]) || s@[j] == '.' || s@[j] == '_'
                    || s@[j] == '-',
        decreases v@.len() - i,
    {
        let c = v[i];
        if !((c >= 'a' && c <= 'z') || (c >= '0' && c <= '9') || c == '.' || c == '_' || c == '-') {
            assert(!lower_or_digit(s@[i as int]));
            return false;
        }
        i += 1;
    }
    true
}

/// Whether a repository may have this name.
pub fn valid_name(name: &str) -> (r: bool)
    ensures
        r == is_name(name@),
{
    let n = text::chars_of(name).len();
    if n == 0 || n > 255 {
        return false;
    }
    let parts = text::split(name, '/');
    let ghost all = text::pieces(name@, '/');
    let mut i: usize = 0;
    while i < parts.len()
        invariant
            i <= parts@.len(),
            all == text::pieces(name@, '/'),
            text::views(parts@) == all,
            forall|j: int| 0 <= j < i ==> is_component(#[trigger] all[j]),
        decreases parts@.len() - i,
    {
        let ok = valid_component(parts[i].as_str());
        proof {
            assert(all[i as int] == parts@[i as int]@);
        }
        if !ok {
            return false;
        }
        i += 1;
    }
    proof {
        assert(all.len() == parts@.len());
    }
    true
}

/// Whether `d` is a well-formed digest.
pub fn valid_digest(d: &str) -> (r: bool)
    ensures
        r == digest::is_digest(d@),
{
    let v = text::chars_of(d);
    if v.len() != 71 || !text::has_prefix(d, "sha256:") {
        proof {
            reveal_strlit("sha256:");
            assert(d@.len() >= 7 ==> d@.take(7) =~= d@.subrange(0, 7));
        }
        return false;
    }
    proof {
        reveal_strlit("sha256:");
        assert(d@.take(7) =~= d@.subrange(0, 7));
    }
    let mut i: usize = 7;
    while i < 71
        invariant
            7 <= i <= 71,
            v@ == d@,
            v@.len() == 71,
            forall|j: int| 7 <= j < i ==> digest::is_hex_char(#[trigger] d@[j]),
        decreases 71 - i,
    {
        let c = v[i];
        if !((c >= '0' && c <= '9') || (c >= 'a' && c <= 'f') || (c >= 'A' && c <= 'F')) {
            assert(!digest::is_hex_char(d@[i as int]));
            return false;
        }
        i += 1;
    }
    true
}

/// A letter or a digit.
pub open spec fn letter_or_digit(c: char) -> bool {
    ('a' <= c <= 'z') || ('A' <= c <= 'Z') || ('0' <= c <= '9')
}

/// A tag: letters, digits and `._-`, a letter or a digit first, 128 characters at most.
pub open spec fn is_tag(t: Seq<char>) -> bool {
    &&& 0 < t.len() <= 128
    &&& letter_or_digit(t[0])
    &&& forall|i: int|
        0 <= i < t.len() ==> letter_or_digit(#[trigger] t[i]) || t[i] == '.' || t[i] == '_' || t[i]
            == '-'
}

fn alphanumeric(c: char) -> (r: bool)
    ensures
        r == letter_or_digit(c),
{
    (c >= 'a' && c <= 'z') || (c >= 'A' && c <= 'Z') || (c >= '0' && c <= '9')
}

/// Whether a tag may have this name.
pub fn valid_tag(t: &str) -> (r: bool)
    ensures
        r == is_tag(t@),
{
    let v = text::chars_of(t);
    if v.len() == 0 || v.len() > 128 || !alphanumeric(v[0]) {
        return false;
    }
    let mut i: usize = 0;
    while i < v.len()
        invariant
            i <= v@.len(),
            v@ == t@,
            forall|j: int|
                0 <= j < i ==> letter_or_digit(#[trigger] t@[j]) || t@[j] == '.' || t@[j] == '_'
                    || t@[j] == '-',
        decreases v@.len() - i,
    {
        let c = v[i];
        if !(alphanumeric(c) || c == '.' || c == '_' || c == '-') {
            assert(!letter_or_digit(t@[i as int]));
            return false;
        }
        i += 1;
    }
    true
}

/// The texts that a table maps to.
pub open spec fn texts(m: Map<Seq<char>, String>) -> Map<Seq<char>, Seq<char>> {
    m.map_values(|s: String| s@)
}

/// The parameters among `pairs`: what stands before and after the first `=` of each. A later
/// pair takes the place of an earlier one; a pair without `=` counts for nothing.
pub open spec fn parameters(pairs: Seq<Seq<char>>) -> Map<Seq<char>, Seq<char>>
    decreases pairs.len(),
{
    if pairs.len() == 0 {
        Map::empty()
    } else {
        let before = parameters(pairs.drop_last());
        match text::cut(pairs.last(), '=') {
            Some((k, v)) => before.insert(k, v),
            None => before,
        }
    }
}

/// The parameters of a query.
pub open spec fn query_of(query: Option<Seq<char>>) -> Map<Seq<char>, Seq<char>> {
    match query {
        Some(q) => parameters(text::pieces(q, '&')),
        None => Map::empty(),
    }
}

/// Reads the parameters of a query.
pub fn query_map(query: Option<&str>) -> (map: Table<String>)
    ensures
        texts(map@) == query_of(text::opt_str(query)),
{
    let mut map: Table<String> = Table::new();
    proof {
        assert(texts(map@) =~= Map::empty());
    }
    if let Some(q) = query {
        let parts = text::split(q, '&');
        let ghost all = text::pieces(q@, '&');
        let mut i: usize = 0;
        proof {
            assert(all.take(0).len() == 0);
        }
        while i < parts.len()
            invariant
                i <= parts@.len(),
                text::views(parts@) == all,
                texts(map@) == parameters(all.take(i as int)),
            decreases parts@.len() - i,
        {
            proof {
                assert(all.take(i + 1).drop_last() =~= all.take(i as int));
                assert(all.take(i + 1).last() == parts@[i as int]@);
            }
            if let Some((k, v)) = text::split_once(parts[i].as_str(), '=') {
                let ghost before = map@;
                let ghost key = k@;
                let ghost value = v;
                map.insert(k, v);
                proof {
                    assert(texts(before.insert(key, value)) =~= texts(before).insert(key, value@));
                }
            }
            i += 1;
        }
        proof {
            assert(all.take(i as int) =~= all);
        }
    }
    map
}

/// The value of a parameter.
pub open spec fn parameter(query: Map<Seq<char>, Seq<char>>, k: Seq<char>) -> Option<Seq<char>> {
    if query.contains_key(k) {
        Some(query[k])
    } else {
        None
    }
}

/// Looks a parameter up.
pub fn lookup<'a>(query: &'a Table<String>, k: &str) -> (v: Option<&'a str>)
    ensures
        text::opt_str(v) == parameter(texts(query@), k@),
{
    match query.get(k) {
        Some(s) => Some(s.as_str()),
        None => None,
    }
}

/// The methods that the API tells apart.
#[derive(Clone, Copy, PartialEq, Eq, Debug)]
pub enum Method {
    Get,
    Head,
    Post,
    Put,
    Patch,
    Delete,
    Other,
}

/// What is to be done for a request.
#[derive(Debug, PartialEq)]
pub enum Task {
    StartUpload(String),
    AppendUpload(String, String),
    FinishUpload(String, String),
    UploadStatus(String, String),
    CancelUpload(String, String),
    /// A blob; only its headers where the flag is set.
    GetBlob(String, String, bool),
    DeleteBlob(String, String),
    /// A manifest; only its headers where the flag is set.
    GetManifest(String, String, bool),
    PutManifest(String, String),
    DeleteManifest(String, String),
    ListTags(String),
    ListReferrers(String, String),
}

pub enum TaskView {
    StartUpload(Seq<char>),
    AppendUpload(Seq<char>, Seq<char>),
    FinishUpload(Seq<char>, Seq<char>),
    UploadStatus(Seq<char>, Seq<char>),
    CancelUpload(Seq<char>, Seq<char>),
    GetBlob(Seq<char>, Seq<char>, bool),
    DeleteBlob(Seq<char>, Seq<char>),
    GetManifest(Seq<char>, Seq<char>, bool),
    PutManifest(Seq<char>, Seq<char>),
    DeleteManifest(Seq<char>, Seq<char>),
    ListTags(Seq<char>),
    ListReferrers(Seq<char>, Seq<char>),
}

impl View for Task {
    type V = TaskView;

    open spec fn view(&self) -> TaskView {
        match *self {
            Task::StartUpload(n) => TaskView::StartUpload(n@),
            Task::AppendUpload(n, u) => TaskView::AppendUpload(n@, u@),
            Task::FinishUpload(n, u) => TaskView::FinishUpload(n@, u@),
            Task::UploadStatus(n, u) => TaskView::UploadStatus(n@, u@),
            Task::CancelUpload(n, u) => TaskView::CancelUpload(n@, u@),
            Task::GetBlob(n, d, h) => TaskView::GetBlob(n@, d@, h),
            Task::DeleteBlob(n, d) => TaskView::DeleteBlob(n@, d@),
            Task::GetManifest(n, r, h) => TaskView::GetManifest(n@, r@, h),
            Task::PutManifest(n, r) => TaskView::PutManifest(n@, r@),
            Task::DeleteManifest(n, r) => TaskView::DeleteManifest(n@, r@),
            Task::ListTags(n) => TaskView::ListTags(n@),
            Task::ListReferrers(n, d) => TaskView::ListReferrers(n@, d@),
        }
    }
}

/// The task of a method on a route of a repository.
pub open spec fn task_of(route: RouteView, method: Method) -> Option<TaskView> {
    match (route, method) {
        (RouteView::UploadStart(n), Method::Post) => Some(TaskView::StartUpload(n)),
        (RouteView::Upload(n, u), Method::Patch) => Some(TaskView::AppendUpload(n, u)),
        (RouteView::Upload(n, u), Method::Put) => Some(TaskView::FinishUpload(n, u)),
        (RouteView::Upload(n, u), Method::Get) => Some(TaskView::UploadStatus(n, u)),
        (RouteView::Upload(n, u), Method::Delete) => Some(TaskView::CancelUpload(n, u)),
        (RouteView::Blob(n, d), Method::Get) => Some(TaskView::GetBlob(n, d, false)),
        (RouteView::Blob(n, d), Method::Head) => Some(TaskView::GetBlob(n, d, true)),
        (RouteView::Blob(n, d), Method::Delete) => Some(TaskView::DeleteBlob(n, d)),
        (RouteView::Manifest(n, r), Method::Get) => Some(TaskView::GetManifest(n, r, false)),
        (RouteView::Manifest(n, r), Method::Head) => Some(TaskView::GetManifest(n, r, true)),
        (RouteView::Manifest(n, r), Method::Put) => Some(TaskView::PutManifest(n, r)),
        (RouteView::Manifest(n, r), Method::Delete) => Some(TaskView::DeleteManifest(n, r)),
        (RouteView::Tags(n), Method::Get) => Some(TaskView::ListTags(n)),
        (RouteView::Referrers(n, d), Method::Get) => Some(TaskView::ListReferrers(n, d)),
        _ => None,
    }
}

/// What a task asks the caller to be allowed to do.
pub open spec fn action_of(task: TaskView) -> Action {
    match task {
        TaskView::StartUpload(_) => Action::Push,
        TaskView::AppendUpload(_, _) => Action::Push,
        TaskView::FinishUpload(_, _) => Action::Push,
        TaskView::UploadStatus(_, _) => Action::Push,
        TaskView::CancelUpload(_, _) => Action::Push,
        TaskView::GetBlob(_, _, _) => Action::Pull,
        TaskView::DeleteBlob(_, _) => Action::Admin,
        TaskView::GetManifest(_, _, _) => Action::Pull,
        TaskView::PutManifest(_, _) => Action::Push,
        TaskView::DeleteManifest(_, _) => Action::Admin,
        TaskView::ListTags(_) => Action::Pull,
        TaskView::ListReferrers(_, _) => Action::Pull,
    }
}

/// The digest in a task's path that has to be well formed, where there is one.
pub open spec fn digest_in(task: TaskView) -> Option<Seq<char>> {
    match task {
        TaskView::GetBlob(_, d, _) => Some(d),
        TaskView::DeleteBlob(_, d) => Some(d),
        TaskView::ListReferrers(_, d) => Some(d),
        _ => None,
    }
}

/// A task is carried out where the caller is allowed to and its digest is well formed.
pub open spec fn admitted(cfg: Config, id: Identity, task: TaskView) -> DispatchView {
    match auth::denied(cfg, id, action_of(task)) {
        Some(reply) => DispatchView::Reply(reply),
        None => if digest_in(task) matches Some(d) && !digest::is_digest(d) {
            DispatchView::Reply(errors::digest_invalid_reply("invalid digest format"@))
        } else {
            DispatchView::Task(task)
        },
    }
}

/// The repository that a route is about.
pub open spec fn repo_of(route: RouteView) -> Option<Seq<char>> {
    match route {
        RouteView::Base => None,
        RouteView::UploadStart(n) => Some(n),
        RouteView::Upload(n, _) => Some(n),
        RouteView::Blob(n, _) => Some(n),
        RouteView::Manifest(n, _) => Some(n),
        RouteView::Tags(n) => Some(n),
        RouteView::Referrers(n, _) => Some(n),
    }
}

/// A path without its `/v2` and the slash after it.
pub open spec fn rest_of(path: Seq<char>) -> Seq<char> {
    match text::after_prefix(path, "/v2"@) {
        Some(s) => match text::after_prefix(s, "/"@) {
            Some(t) => t,
            None => s,
        },
        None => Seq::empty(),
    }
}

/// Where a repository that another shard owns is found, if another shard owns it.
pub open spec fn redirect_of(
    cfg: Config,
    repo: Seq<char>,
    path: Seq<char>,
    query: Option<Seq<char>>,
) -> Option<Seq<char>> {
    match cfg.sharding {
        Some(sh) => {
            let owner = shard::owner_of(repo, text::views(sh.shards@));
            if owner != sh.self_url@ {
                let target = text::without_trailing(owner, '/') + path;
                Some(
                    match query {
                        Some(q) => target + "?"@ + q,
                        None => target,
                    },
                )
            } else {
                None
            }
        },
        None => None,
    }
}

/// The reply to a request for the root of the API.
pub open spec fn base_reply() -> errors::ReplyView {
    errors::plain(200, errors::BodyView::EmptyObject).with(
        "content-type"@,
        "application/json"@,
    ).with("docker-distribution-api-version"@, "registry/2.0"@)
}

/// A request is answered at once or leads to a task.
#[derive(Debug)]
pub enum Dispatch {
    Reply(Reply),
    Task(Task),
}

pub enum DispatchView {
    Reply(errors::ReplyView),
    Task(TaskView),
}

impl View for Dispatch {
    type V = DispatchView;

    open spec fn view(&self) -> DispatchView {
        match *self {
            Dispatch::Reply(r) => DispatchView::Reply(r@),
            Dispatch::Task(t) => DispatchView::Task(t@),
        }
    }
}

/// What a request on a route leads to. A repository of another shard is redirected there, a
/// malformed name is refused, and then the method decides; the caller has to be allowed what
/// the task asks for.
pub open spec fn dispatch_of(
    cfg: Config,
    id: Identity,
    method: Method,
    route: RouteView,
    path: Seq<char>,
    query: Option<Seq<char>>,
) -> DispatchView {
    match repo_of(route) {
        Some(repo) => match redirect_of(cfg, repo, path, query) {
            Some(target) => DispatchView::Reply(
                errors::plain(307, errors::BodyView::Empty).with("location"@, target),
            ),
            None => if !is_name(repo) {
                DispatchView::Reply(
                    errors::error_reply(400, "NAME_INVALID"@, "invalid repository name"@),
                )
            } else {
                match task_of(route, method) {
                    Some(t) => admitted(cfg, id, t),
                    None => DispatchView::Reply(not_allowed_reply()),
                }
            },
        },
        None => DispatchView::Reply(
            if method == Method::Get || method == Method::Head {
                match auth::denied(cfg, id, Action::Pull) {
                    Some(reply) => reply,
                    None => base_reply(),
                }
            } else {
                not_allowed_reply()
            },
        ),
    }
}

/// What a request to the API leads to.
pub open spec fn answered(
    cfg: Config,
    id: Identity,
    method: Method,
    path: Seq<char>,
    query: Option<Seq<char>>,
) -> DispatchView {
    match route_of(rest_of(path)) {
        Some(route) => dispatch_of(cfg, id, method, route, path, query),
        None => DispatchView::Reply(errors::name_unknown_reply()),
    }
}

/// The reply to a method that a route does not have.
pub open spec fn not_allowed_reply() -> errors::ReplyView {
    errors::error_reply(405, "UNSUPPORTED"@, "method not allowed"@)
}

fn not_allowed() -> (r: Reply)
    ensures
        r@ == not_allowed_reply(),
{
    oci_error(405, "UNSUPPORTED", "method not allowed")
}

fn repo_name(route: &Route) -> (r: Option<&String>)
    ensures
        match r {
            Some(n) => repo_of(route@) == Some(n@),
            None => repo_of(route@) is None,
        },
{
    match route {
        Route::Base => None,
        Route::UploadStart(n) => Some(n),
        Route::Upload(n, _) => Some(n),
        Route::Blob(n, _) => Some(n),
        Route::Manifest(n, _) => Some(n),
        Route::Tags(n) => Some(n),
        Route::Referrers(n, _) => Some(n),
    }
}

fn redirect(cfg: &Config, repo: &str, path: &str, query: Option<&str>) -> (r: Option<String>)
    ensures
        text::opt_view(r) == redirect_of(*cfg, repo@, path@, text::opt_str(query)),
{
    match &cfg.sharding {
        None => None,
        Some(sh) => {
            let owner = shard::owner(repo, sh.shards.as_slice());
            if text::same(owner, sh.self_url.as_str()) {
                return None;
            }
            let mut target = text::trim_end(owner, '/');
            target.append(path);
            if let Some(q) = query {
                target.append("?");
                target.append(q);
            }
            Some(target)
        },
    }
}

fn task(route: Route, method: Method) -> (r: Option<Task>)
    ensures
        match r {
            Some(t) => task_of(route@, method) == Some(t@),
            None => task_of(route@, method) is None,
        },
{
    match (route, method) {
        (Route::UploadStart(n), Method::Post) => Some(Task::StartUpload(n)),
        (Route::Upload(n, u), Method::Patch) => Some(Task::AppendUpload(n, u)),
        (Route::Upload(n, u), Method::Put) => Some(Task::FinishUpload(n, u)),
        (Route::Upload(n, u), Method::Get) => Some(Task::UploadStatus(n, u)),
        (Route::Upload(n, u), Method::Delete) => Some(Task::CancelUpload(n, u)),
        (Route::Blob(n, d), Method::Get) => Some(Task::GetBlob(n, d, false)),
        (Route::Blob(n, d), Method::Head) => Some(Task::GetBlob(n, d, true)),
        (Route::Blob(n, d), Method::Delete) => Some(Task::DeleteBlob(n, d)),
        (Route::Manifest(n, r), Method::Get) => Some(Task::GetManifest(n, r, false)),
        (Route::Manifest(n, r), Method::Head) => Some(Task::GetManifest(n, r, true)),
        (Route::Manifest(n, r), Method::Put) => Some(Task::PutManifest(n, r)),
        (Route::Manifest(n, r), Method::Delete) => Some(Task::DeleteManifest(n, r)),
        (Route::Tags(n), Method::Get) => Some(Task::ListTags(n)),
        (Route::Referrers(n, d), Method::Get) => Some(Task::ListReferrers(n, d)),
        _ => None,
    }
}

fn action(task: &Task) -> (a: Action)
    ensures
        a == action_of(task@),
{
    match task {
        Task::StartUpload(_) => Action::Push,
        Task::AppendUpload(_, _) => Action::Push,
        Task::FinishUpload(_, _) => Action::Push,
        Task::UploadStatus(_, _) => Action::Push,
        Task::CancelUpload(_, _) => Action::Push,
        Task::GetBlob(_, _, _) => Action::Pull,
        Task::DeleteBlob(_, _) => Action::Admin,
        Task::GetManifest(_, _, _) => Action::Pull,
        Task::PutManifest(_, _) => Action::Push,
        Task::DeleteManifest(_, _) => Action::Admin,
        Task::ListTags(_) => Action::Pull,
        Task::ListReferrers(_, _) => Action::Pull,
    }
}

fn let_through(cfg: &Config, id: &Identity, task: Task) -> (r: Dispatch)
    ensures
        r@ == admitted(*cfg, *id, task@),
{
    if let Err(reply) = authorize(cfg, id, action(&task)) {
        return Dispatch::Reply(reply);
    }
    let well_formed = match &task {
        Task::GetBlob(_, d, _) => valid_digest(d.as_str()),
        Task::DeleteBlob(_, d) => valid_digest(d.as_str()),
        Task::ListReferrers(_, d) => valid_digest(d.as_str()),
        _ => true,
    };
    if well_formed {
        Dispatch::Task(task)
    } else {
        Dispatch::Reply(digest_invalid("invalid digest format"))
    }
}

/// Decides what a request to the API leads to.
pub fn handle(
    cfg: &Config,
    id: &Identity,
    method: Method,
    path: &str,
    query: Option<&str>,
) -> (r: Dispatch)
    ensures
        r@ == match route_of(rest_of(path@)) {
            Some(route) => dispatch_of(*cfg, *id, method, route, path@, text::opt_str(query)),
            None => DispatchView::Reply(errors::name_unknown_reply()),
        },
        r@ == answered(*cfg, *id, method, path@, text::opt_str(query)),
{
    let rest = match text::strip_prefix(path, "/v2") {
        Some(s) => match text::strip_prefix(s.as_str(), "/") {
            Some(t) => t,
            None => s,
        },
        None => String::new(),
    };
    proof {
        assert(rest@ =~= rest_of(path@));
    }
    let route = match parse_route(rest.as_str()) {
        Some(route) => route,
        None => return Dispatch::Reply(name_unknown()),
    };
    if let Some(repo) = repo_name(&route) {
        if let Some(target) = redirect(cfg, repo.as_str(), path, query) {
            return Dispatch::Reply(
                Reply::new(307, Body::Empty).with("location", target.as_str()),
            );
        }
        if !valid_name(repo.as_str()) {
            return Dispatch::Reply(
                oci_error(400, "NAME_INVALID", "invalid repository name"),
            );
        }
    }
    if let Route::Base = route {
        return match method {
            Method::Get | Method::Head => match authorize(cfg, id, Action::Pull) {
                Err(reply) => Dispatch::Reply(reply),
                Ok(_) => Dispatch::Reply(
                    Reply::new(200, Body::EmptyObject).with(
                        "content-type",
                        "application/json",
                    ).with("docker-distribution-api-version", "registry/2.0"),
                ),
            },
            _ => Dispatch::Reply(not_allowed()),
        };
    }
    match task(route, method) {
        Some(t) => let_through(cfg, id, t),
        None => Dispatch::Reply(not_allowed()),
    }
}

/// No slash in `s`.
pub open spec fn slash_free(s: Seq<char>) -> bool {
    forall|i: int| 0 <= i < s.len() ==> s[i] != '/'
}

proof fn occurs_chars(s: Seq<char>, i: int, m: Seq<char>)
    requires
        text::occurs_at(s, i, m),
    ensures
        forall|k: int| 0 <= k < m.len() ==> #[trigger] s[i + k] == m[k],
{
    assert forall|k: int| 0 <= k < m.len() implies #[trigger] s[i + k] == m[k] by {
        assert(s.subrange(i, i + m.len())[k] == s[i + k]);
    }
}

proof fn last_is(s: Seq<char>, m: Seq<char>, i: int)
    requires
        text::occurs_at(s, i, m),
        forall|j: int| i < j <= s.len() ==> !text::occurs_at(s, j, m),
    ensures
        text::last_of(s, m) == i,
{
    text::last_from_is_last(s, m, s.len() as int);
}

proof fn last_before(s: Seq<char>, m: Seq<char>, i: int)
    requires
        forall|j: int| i <= j <= s.len() ==> !text::occurs_at(s, j, m),
    ensures
        text::last_of(s, m) < i || text::last_of(s, m) == -1,
{
    text::last_from_is_last(s, m, s.len() as int);
}

/// `m` begins and ends with a slash, and does not fit between the slashes of `s` from `i` on.
proof fn no_marker_from(s: Seq<char>, m: Seq<char>, i: int)
    requires
        i >= 0,
        m.len() > 1,
        m[0] == '/',
        m.last() == '/',
        forall|j: int|
            #![trigger s[j]]
            i <= j && j + m.len() <= s.len() && s[j] == '/' ==> s[j + m.len() - 1] != '/' || s[j + 1]
                != m[1],
    ensures
        forall|j: int| i <= j <= s.len() ==> !text::occurs_at(s, j, m),
{
    assert forall|j: int| i <= j <= s.len() implies !text::occurs_at(s, j, m) by {
        if text::occurs_at(s, j, m) {
            occurs_chars(s, j, m);
            assert(s[j + 0] == m[0]);
            assert(s[j + (m.len() - 1)] == m[m.len() - 1]);
            assert(s[j + 1] == m[1]);
        }
    }
}

proof fn suffix_chars(s: Seq<char>)
    requires
        "/tags/list"@.is_suffix_of(s),
    ensures
        s.len() >= 10,
        tags_marker(s) == s.len() - 10,
        s[s.len() - 10] == '/',
        s[s.len() - 9] == 't',
        s[s.len() - 5] == '/',
{
    reveal_strlit("/tags/list");
    let m = "/tags/list"@;
    let t = s.subrange(s.len() - 10, s.len() as int);
    assert(t[0] == s[s.len() - 10]);
    assert(t[1] == s[s.len() - 9]);
    assert(t[5] == s[s.len() - 5]);
}

/// The path of a blob leads back to its repository and its digest, whatever the repository
/// is called, as long as no slash stands in the digest.
pub proof fn blob_path_parses(name: Seq<char>, digest: Seq<char>)
    requires
        slash_free(digest),
    ensures
        route_of(name + "/blobs/"@ + digest) == Some(RouteView::Blob(name, digest)),
{
    reveal_strlit("/blobs/uploads/");
    reveal_strlit("/blobs/");
    reveal_strlit("/manifests/");
    reveal_strlit("/referrers/");
    let s = name + "/blobs/"@ + digest;
    let n = name.len() as int;
    assert forall|j: int| n <= j < s.len() && #[trigger] s[j] == '/' implies j == n || j == n
        + 6 by {
        if j >= n + 7 {
            assert(s[j] == digest[j - n - 7]);
        } else {
            assert(s[j] == "/blobs/"@[j - n]);
        }
    }
    assert(s[n + 1] == 'b' && s[n + 5] == 's');
    assert(s.subrange(n, n + 7) =~= "/blobs/"@);
    assert forall|j: int| n < j <= s.len() implies !text::occurs_at(s, j, "/blobs/"@) by {
        if text::occurs_at(s, j, "/blobs/"@) {
            occurs_chars(s, j, "/blobs/"@);
            assert(s[j + 0] == '/' && s[j + 6] == '/');
        }
    }
    last_is(s, "/blobs/"@, n);
    no_marker_from(s, "/blobs/uploads/"@, n);
    no_marker_from(s, "/manifests/"@, n);
    no_marker_from(s, "/referrers/"@, n);
    last_before(s, "/blobs/uploads/"@, n);
    last_before(s, "/manifests/"@, n);
    last_before(s, "/referrers/"@, n);
    if "/tags/list"@.is_suffix_of(s) {
        suffix_chars(s);
    }
    assert(s.take(n) =~= name);
    assert(s.skip(n + 7) =~= digest);
}

/// The path of a manifest leads back to its repository and its reference, whatever the
/// repository is called, as long as no slash stands in the reference.
pub proof fn manifest_path_parses(name: Seq<char>, reference: Seq<char>)
    requires
        slash_free(reference),
    ensures
        route_of(name + "/manifests/"@ + reference) == Some(RouteView::Manifest(name, reference)),
{
    reveal_strlit("/blobs/uploads/");
    reveal_strlit("/blobs/");
    reveal_strlit("/manifests/");
    reveal_strlit("/referrers/");
    let s = name + "/manifests/"@ + reference;
    let n = name.len() as int;
    assert forall|j: int| n <= j < s.len() && #[trigger] s[j] == '/' implies j == n || j == n
        + 10 by {
        if j >= n + 11 {
            assert(s[j] == reference[j - n - 11]);
        } else {
            assert(s[j] == "/manifests/"@[j - n]);
        }
    }
    assert(s[n + 1] == 'm' && s[n + 5] == 'f');
    assert(s.subrange(n, n + 11) =~= "/manifests/"@);
    assert forall|j: int| n < j <= s.len() implies !text::occurs_at(s, j, "/manifests/"@) by {
        if text::occurs_at(s, j, "/manifests/"@) {
            occurs_chars(s, j, "/manifests/"@);
            assert(s[j + 0] == '/' && s[j + 10] == '/');
        }
    }
    last_is(s, "/manifests/"@, n);
    no_marker_from(s, "/blobs/uploads/"@, n);
    no_marker_from(s, "/blobs/"@, n);
    no_marker_from(s, "/referrers/"@, n);
    last_before(s, "/blobs/uploads/"@, n);
    last_before(s, "/blobs/"@, n);
    last_before(s, "/referrers/"@, n);
    if "/tags/list"@.is_suffix_of(s) {
        suffix_chars(s);
    }
    assert(s.take(n) =~= name);
    assert(s.skip(n + 11) =~= reference);
}

/// The path of a listing of referrers leads back to its repository and its digest, whatever
/// the repository is called, as long as no slash stands in the digest.
pub proof fn referrers_path_parses(name: Seq<char>, digest: Seq<char>)
    requires
        slash_free(digest),
    ensures
        route_of(name + "/referrers/"@ + digest) == Some(RouteView::Referrers(name, digest)),
{
    reveal_strlit("/blobs/uploads/");
    reveal_strlit("/blobs/");
    reveal_strlit("/manifests/");
    reveal_strlit("/referrers/");
    let s = name + "/referrers/"@ + digest;
    let n = name.len() as int;
    assert forall|j: int| n <= j < s.len() && #[trigger] s[j] == '/' implies j == n || j == n
        + 10 by {
        if j >= n + 11 {
            assert(s[j] == digest[j - n - 11]);
        } else {
            assert(s[j] == "/referrers/"@[j - n]);
        }
    }
    assert(s[n + 1] == 'r' && s[n + 5] == 'r');
    assert(s.subrange(n, n + 11) =~= "/referrers/"@);
    assert forall|j: int| n < j <= s.len() implies !text::occurs_at(s, j, "/referrers/"@) by {
        if text::occurs_at(s, j, "/referrers/"@) {
            occurs_chars(s, j, "/referrers/"@);
            assert(s[j + 0] == '/' && s[j + 10] == '/');
        }
    }
    last_is(s, "/referrers/"@, n);
    no_marker_from(s, "/blobs/uploads/"@, n);
    no_marker_from(s, "/blobs/"@, n);
    no_marker_from(s, "/manifests/"@, n);
    last_before(s, "/blobs/uploads/"@, n);
    last_before(s, "/blobs/"@, n);
    last_before(s, "/manifests/"@, n);
    if "/tags/list"@.is_suffix_of(s) {
        suffix_chars(s);
    }
    assert(s.take(n) =~= name);
    assert(s.skip(n + 11) =~= digest);
}

/// The path of an upload session leads back to its repository and its session, whatever the
/// repository is called, as long as no slash stands in the session's name; without a session
/// the path starts one.
pub proof fn upload_path_parses(name: Seq<char>, session: Seq<char>)
    requires
        slash_free(session),
    ensures
        route_of(name + "/blobs/uploads/"@ + session) == Some(
            if session.len() == 0 {
                RouteView::UploadStart(name)
            } else {
                RouteView::Upload(name, session)
            },
        ),
{
    reveal_strlit("/blobs/uploads/");
    reveal_strlit("/blobs/");
    reveal_strlit("/manifests/");
    reveal_strlit("/referrers/");
    let s = name + "/blobs/uploads/"@ + session;
    let n = name.len() as int;
    assert forall|j: int| n <= j < s.len() && #[trigger] s[j] == '/' implies j == n || j == n + 6
        || j == n + 14 by {
        if j >= n + 15 {
            assert(s[j] == session[j - n - 15]);
        } else {
            assert(s[j] == "/blobs/uploads/"@[j - n]);
        }
    }
    assert(s[n + 1] == 'b' && s[n + 7] == 'u' && s[n + 5] == 's');
    assert(s.subrange(n, n + 15) =~= "/blobs/uploads/"@);
    assert(s.subrange(n, n + 7) =~= "/blobs/"@);
    assert forall|j: int| n < j <= s.len() implies !text::occurs_at(s, j, "/blobs/uploads/"@) by {
        if text::occurs_at(s, j, "/blobs/uploads/"@) {
            occurs_chars(s, j, "/blobs/uploads/"@);
            assert(s[j + 0] == '/' && s[j + 6] == '/' && s[j + 14] == '/');
        }
    }
    assert forall|j: int| n < j <= s.len() implies !text::occurs_at(s, j, "/blobs/"@) by {
        if text::occurs_at(s, j, "/blobs/"@) {
            occurs_chars(s, j, "/blobs/"@);
            assert(s[j + 0] == '/' && s[j + 1] == 'b' && s[j + 6] == '/');
        }
    }
    last_is(s, "/blobs/uploads/"@, n);
    last_is(s, "/blobs/"@, n);
    no_marker_from(s, "/manifests/"@, n);
    no_marker_from(s, "/referrers/"@, n);
    last_before(s, "/manifests/"@, n);
    last_before(s, "/referrers/"@, n);
    if "/tags/list"@.is_suffix_of(s) {
        suffix_chars(s);
    }
    assert(s.take(n) =~= name);
    assert(s.skip(n + 15) =~= session);
}

/// The path of a listing of tags leads back to its repository, whatever the repository is
/// called.
pub proof fn tags_path_parses(name: Seq<char>)
    ensures
        route_of(name + "/tags/list"@) == Some(RouteView::Tags(name)),
{
    reveal_strlit("/blobs/uploads/");
    reveal_strlit("/blobs/");
    reveal_strlit("/manifests/");
    reveal_strlit("/referrers/");
    reveal_strlit("/tags/list");
    let s = name + "/tags/list"@;
    let n = name.len() as int;
    assert forall|j: int| n <= j < s.len() && #[trigger] s[j] == '/' implies j == n || j == n
        + 5 by {
        assert(s[j] == "/tags/list"@[j - n]);
    }
    assert(s[n + 1] == 't');
    no_marker_from(s, "/blobs/uploads/"@, n);
    no_marker_from(s, "/blobs/"@, n);
    no_marker_from(s, "/manifests/"@, n);
    no_marker_from(s, "/referrers/"@, n);
    last_before(s, "/blobs/uploads/"@, n);
    last_before(s, "/blobs/"@, n);
    last_before(s, "/manifests/"@, n);
    last_before(s, "/referrers/"@, n);
    assert(s.subrange(s.len() - 10, s.len() as int) =~= "/tags/list"@);
    assert(s.take(n) =~= name);
}

/// No task is carried out for a caller who is not allowed what it asks for, nor in a
/// repository with a malformed name, nor in one that another shard owns.
pub proof fn tasks_are_guarded(
    cfg: Config,
    id: Identity,
    method: Method,
    route: RouteView,
    path: Seq<char>,
    query: Option<Seq<char>>,
)
    ensures
        dispatch_of(cfg, id, method, route, path, query) matches DispatchView::Task(t) ==> {
            &&& auth::allowed(cfg.public_pull, id.role, action_of(t))
            &&& task_of(route, method) == Some(t)
            &&& repo_of(route) matches Some(repo) && is_name(repo) && (cfg.sharding matches Some(sh)
                ==> shard::owner_of(repo, text::views(sh.shards@)) == sh.self_url@)
            &&& digest_in(t) matches Some(d) ==> digest::is_digest(d)
        },
{
}

/// A redirect is the last: the shard that owns a repository does not send its requests on, as
/// long as it has the same list of shards.
pub proof fn redirects_end_at_the_owner(
    cfg: Config,
    repo: Seq<char>,
    path: Seq<char>,
    query: Option<Seq<char>>,
)
    requires
        cfg.sharding matches Some(sh) && sh.self_url@ == shard::owner_of(
            repo,
            text::views(sh.shards@),
        ),
    ensures
        redirect_of(cfg, repo, path, query) is None,
{
}

/// No component of a name is `.` or `..`, and no name begins with a slash: keys and paths that
/// are made of names stay where they belong.
pub proof fn names_are_plain(name: Seq<char>, i: int)
    requires
        is_name(name),
        0 <= i < text::pieces(name, '/').len(),
    ensures
        text::pieces(name, '/')[i] != "."@,
        text::pieces(name, '/')[i] != ".."@,
        text::pieces(name, '/')[i].len() > 0,
        name[0] != '/',
{
    reveal_strlit(".");
    reveal_strlit("..");
    let parts = text::pieces(name, '/');
    assert(is_component(parts[i]));
    if name[0] == '/' {
        assert(text::first_of(name, '/') == 0);
        assert(parts[0] =~= name.take(0));
        assert(is_component(parts[0]));
    }
}

// What requests lead to, by their paths and by the role of the caller.

proof fn rest_of_a_path(x: Seq<char>)
    ensures
        rest_of("/v2/"@ + x) == x,
        rest_of("/v2"@) == Seq::<char>::empty(),
{
    reveal_strlit("/v2/");
    reveal_strlit("/v2");
    reveal_strlit("/");
    let p = "/v2/"@ + x;
    assert(p =~= "/v2"@ + ("/"@ + x));
    text::what_is_stripped_comes_off(p, "/v2"@, "/"@ + x);
    text::what_is_stripped_comes_off("/"@ + x, "/"@, x);
    assert("/v2"@ =~= "/v2"@ + Seq::<char>::empty());
    text::what_is_stripped_comes_off("/v2"@, "/v2"@, Seq::empty());
    assert(rest_of("/v2"@) =~= Seq::<char>::empty());
}

proof fn rest_of_parts(name: Seq<char>, marker: Seq<char>, tail: Seq<char>)
    ensures
        rest_of("/v2/"@ + name + marker + tail) == name + marker + tail,
        rest_of("/v2/"@ + name + marker) == name + marker,
{
    assert("/v2/"@ + name + marker + tail =~= "/v2/"@ + (name + marker + tail));
    assert("/v2/"@ + name + marker =~= "/v2/"@ + (name + marker));
    rest_of_a_path(name + marker + tail);
    rest_of_a_path(name + marker);
}

/// Who may upload and push: a caller with the role `Push` or `Admin` is let through to every
/// task of an upload session (start, append, finish, status, cancel) and to putting a manifest.
/// Any other caller is refused, with status 401 where it has no name and else with 403.
pub proof fn pushers_upload_and_push(
    cfg: Config,
    id: Identity,
    name: Seq<char>,
    session: Seq<char>,
    reference: Seq<char>,
    query: Option<Seq<char>>,
)
    requires
        is_name(name),
        cfg.sharding matches Some(sh) ==> shard::owner_of(name, text::views(sh.shards@))
            == sh.self_url@,
        session.len() > 0,
        !session.contains('/'),
        !reference.contains('/'),
    ensures
        ({
            let start = answered(
                cfg,
                id,
                Method::Post,
                "/v2/"@ + name + "/blobs/uploads/"@,
                query,
            );
            let path = "/v2/"@ + name + "/blobs/uploads/"@ + session;
            let append = answered(cfg, id, Method::Patch, path, query);
            let finish = answered(cfg, id, Method::Put, path, query);
            let status = answered(cfg, id, Method::Get, path, query);
            let cancel = answered(cfg, id, Method::Delete, path, query);
            let put = answered(
                cfg,
                id,
                Method::Put,
                "/v2/"@ + name + "/manifests/"@ + reference,
                query,
            );
            &&& id.role == auth::Role::Push || id.role == auth::Role::Admin ==> {
                &&& start == DispatchView::Task(TaskView::StartUpload(name))
                &&& append == DispatchView::Task(TaskView::AppendUpload(name, session))
                &&& finish == DispatchView::Task(TaskView::FinishUpload(name, session))
                &&& status == DispatchView::Task(TaskView::UploadStatus(name, session))
                &&& cancel == DispatchView::Task(TaskView::CancelUpload(name, session))
                &&& put == DispatchView::Task(TaskView::PutManifest(name, reference))
            }
            &&& id.role == auth::Role::Pull || id.role == auth::Role::Anonymous ==> {
                let code: u16 = if id.username is None {
                    401
                } else {
                    403
                };
                &&& start matches DispatchView::Reply(r) && r.status == code
                &&& append matches DispatchView::Reply(r) && r.status == code
                &&& finish matches DispatchView::Reply(r) && r.status == code
                &&& status matches DispatchView::Reply(r) && r.status == code
                &&& cancel matches DispatchView::Reply(r) && r.status == code
                &&& put matches DispatchView::Reply(r) && r.status == code
            }
        }),
{
    let none = Seq::<char>::empty();
    slashes_are_nowhere(session);
    slashes_are_nowhere(reference);
    rest_of_parts(name, "/blobs/uploads/"@, session);
    rest_of_parts(name, "/manifests/"@, reference);
    upload_path_parses(name, session);
    upload_path_parses(name, none);
    assert(name + "/blobs/uploads/"@ + none =~= name + "/blobs/uploads/"@);
    manifest_path_parses(name, reference);
    auth::each_role_may_do_its_share(cfg, id);
    auth::refusals_tell_who_is_known(cfg, id, Action::Push);
}

proof fn slashes_are_nowhere(s: Seq<char>)
    requires
        !s.contains('/'),
    ensures
        slash_free(s),
{
    assert forall|i: int| 0 <= i < s.len() implies s[i] != '/' by {
        assert(s.contains(s[i]));
    }
}

proof fn digests_have_no_slash(d: Seq<char>)
    requires
        digest::is_digest(d),
    ensures
        slash_free(d),
{
    reveal_strlit("sha256:");
    assert forall|i: int| 0 <= i < d.len() implies d[i] != '/' by {
        if i < 7 {
            assert(d.take(7)[i] == d[i]);
        }
    }
}

/// Who may delete: a caller with the role `Admin` is let through to deleting a blob or a
/// manifest. Any other caller is refused, with status 401 where it has no name and else with
/// 403.
pub proof fn admins_delete(
    cfg: Config,
    id: Identity,
    name: Seq<char>,
    digest: Seq<char>,
    reference: Seq<char>,
    query: Option<Seq<char>>,
)
    requires
        is_name(name),
        cfg.sharding matches Some(sh) ==> shard::owner_of(name, text::views(sh.shards@))
            == sh.self_url@,
        digest::is_digest(digest),
        !reference.contains('/'),
    ensures
        ({
            let blob = answered(
                cfg,
                id,
                Method::Delete,
                "/v2/"@ + name + "/blobs/"@ + digest,
                query,
            );
            let manifest = answered(
                cfg,
                id,
                Method::Delete,
                "/v2/"@ + name + "/manifests/"@ + reference,
                query,
            );
            &&& id.role == auth::Role::Admin ==> {
                &&& blob == DispatchView::Task(TaskView::DeleteBlob(name, digest))
                &&& manifest == DispatchView::Task(TaskView::DeleteManifest(name, reference))
            }
            &&& id.role != auth::Role::Admin ==> {
                let code: u16 = if id.username is None {
                    401
                } else {
                    403
                };
                &&& blob matches DispatchView::Reply(r) && r.status == code
                &&& manifest matches DispatchView::Reply(r) && r.status == code
            }
        }),
{
    digests_have_no_slash(digest);
    slashes_are_nowhere(reference);
    rest_of_parts(name, "/blobs/"@, digest);
    rest_of_parts(name, "/manifests/"@, reference);
    blob_path_parses(name, digest);
    manifest_path_parses(name, reference);
    auth::each_role_may_do_its_share(cfg, id);
    auth::refusals_tell_who_is_known(cfg, id, Action::Admin);
}

/// Who may read: every caller where pulling is public, and else every caller whose role is not
/// `Anonymous`, is let through to blobs and manifests, with their bytes or only their headers,
/// and to the listings of tags and of referrers. Any other caller is refused, with status 401
/// where it has no name and else with 403.
pub proof fn readers_read(
    cfg: Config,
    id: Identity,
    name: Seq<char>,
    digest: Seq<char>,
    reference: Seq<char>,
    query: Option<Seq<char>>,
)
    requires
        is_name(name),
        cfg.sharding matches Some(sh) ==> shard::owner_of(name, text::views(sh.shards@))
            == sh.self_url@,
        digest::is_digest(digest),
        !reference.contains('/'),
    ensures
        ({
            let blob = "/v2/"@ + name + "/blobs/"@ + digest;
            let manifest = "/v2/"@ + name + "/manifests/"@ + reference;
            let blob_get = answered(cfg, id, Method::Get, blob, query);
            let blob_head = answered(cfg, id, Method::Head, blob, query);
            let manifest_get = answered(cfg, id, Method::Get, manifest, query);
            let manifest_head = answered(cfg, id, Method::Head, manifest, query);
            let tags = answered(cfg, id, Method::Get, "/v2/"@ + name + "/tags/list"@, query);
            let referrers = answered(
                cfg,
                id,
                Method::Get,
                "/v2/"@ + name + "/referrers/"@ + digest,
                query,
            );
            &&& cfg.public_pull || id.role == auth::Role::Pull || id.role == auth::Role::Push || id.role
                == auth::Role::Admin ==> {
                &&& blob_get == DispatchView::Task(TaskView::GetBlob(name, digest, false))
                &&& blob_head == DispatchView::Task(TaskView::GetBlob(name, digest, true))
                &&& manifest_get == DispatchView::Task(
                    TaskView::GetManifest(name, reference, false),
                )
                &&& manifest_head == DispatchView::Task(
                    TaskView::GetManifest(name, reference, true),
                )
                &&& tags == DispatchView::Task(TaskView::ListTags(name))
                &&& referrers == DispatchView::Task(TaskView::ListReferrers(name, digest))
            }
            &&& !cfg.public_pull && id.role == auth::Role::Anonymous ==> {
                let code: u16 = if id.username is None {
                    401
                } else {
                    403
                };
                &&& blob_get matches DispatchView::Reply(r) && r.status == code
                &&& blob_head matches DispatchView::Reply(r) && r.status == code
                &&& manifest_get matches DispatchView::Reply(r) && r.status == code
                &&& manifest_head matches DispatchView::Reply(r) && r.status == code
                &&& tags matches DispatchView::Reply(r) && r.status == code
                &&& referrers matches DispatchView::Reply(r) && r.status == code
            }
        }),
{
    digests_have_no_slash(digest);
    slashes_are_nowhere(reference);
    rest_of_parts(name, "/blobs/"@, digest);
    rest_of_parts(name, "/manifests/"@, reference);
    rest_of_parts(name, "/tags/list"@, digest);
    rest_of_parts(name, "/referrers/"@, digest);
    blob_path_parses(name, digest);
    manifest_path_parses(name, reference);
    tags_path_parses(name);
    referrers_path_parses(name, digest);
    auth::each_role_may_do_its_share(cfg, id);
    auth::refusals_tell_who_is_known(cfg, id, Action::Pull);
}

/// A caller who may do it is told where a digest in the path is malformed: blobs and referrers
/// are refused with status 400 and the code `DIGEST_INVALID`.
pub proof fn malformed_digests_are_refused(
    cfg: Config,
    id: Identity,
    name: Seq<char>,
    digest: Seq<char>,
    query: Option<Seq<char>>,
)
    requires
        is_name(name),
        cfg.sharding matches Some(sh) ==> shard::owner_of(name, text::views(sh.shards@))
            == sh.self_url@,
        id.role == auth::Role::Admin,
        !digest::is_digest(digest),
        !digest.contains('/'),
    ensures
        forall|method: Method|
            method == Method::Get || method == Method::Head || method == Method::Delete ==> (
            #[trigger] answered(cfg, id, method, "/v2/"@ + name + "/blobs/"@ + digest, query)
                matches DispatchView::Reply(r) && r.status == 400 && r.body
                == errors::BodyView::Error("DIGEST_INVALID"@, "invalid digest format"@)),
        answered(
            cfg,
            id,
            Method::Get,
            "/v2/"@ + name + "/referrers/"@ + digest,
            query,
        ) matches DispatchView::Reply(r) && r.status == 400 && r.body == errors::BodyView::Error(
            "DIGEST_INVALID"@,
            "invalid digest format"@,
        ),
{
    slashes_are_nowhere(digest);
    rest_of_parts(name, "/blobs/"@, digest);
    rest_of_parts(name, "/referrers/"@, digest);
    blob_path_parses(name, digest);
    referrers_path_parses(name, digest);
    auth::each_role_may_do_its_share(cfg, id);
}

/// Every route of a repository has its methods, and any other method gets status 405, whoever
/// asks.
pub proof fn other_methods_are_not_allowed(
    cfg: Config,
    id: Identity,
    method: Method,
    name: Seq<char>,
    part: Seq<char>,
    query: Option<Seq<char>>,
)
    requires
        is_name(name),
        cfg.sharding matches Some(sh) ==> shard::owner_of(name, text::views(sh.shards@))
            == sh.self_url@,
        part.len() > 0,
        !part.contains('/'),
    ensures
        method != Method::Post ==> (answered(
            cfg,
            id,
            method,
            "/v2/"@ + name + "/blobs/uploads/"@,
            query,
        ) matches DispatchView::Reply(r) && r.status == 405 && r.body == errors::BodyView::Error(
            "UNSUPPORTED"@,
            "method not allowed"@,
        )),
        method == Method::Post || method == Method::Head || method == Method::Other ==> (answered(
            cfg,
            id,
            method,
            "/v2/"@ + name + "/blobs/uploads/"@ + part,
            query,
        ) matches DispatchView::Reply(r) && r.status == 405),
        method == Method::Post || method == Method::Put || method == Method::Patch || method
            == Method::Other ==> (answered(
            cfg,
            id,
            method,
            "/v2/"@ + name + "/blobs/"@ + part,
            query,
        ) matches DispatchView::Reply(r) && r.status == 405),
        method == Method::Post || method == Method::Patch || method == Method::Other ==> (answered(
            cfg,
            id,
            method,
            "/v2/"@ + name + "/manifests/"@ + part,
            query,
        ) matches DispatchView::Reply(r) && r.status == 405),
        method != Method::Get ==> (answered(
            cfg,
            id,
            method,
            "/v2/"@ + name + "/tags/list"@,
            query,
        ) matches DispatchView::Reply(r) && r.status == 405),
        method != Method::Get ==> (answered(
            cfg,
            id,
            method,
            "/v2/"@ + name + "/referrers/"@ + part,
            query,
        ) matches DispatchView::Reply(r) && r.status == 405),
{
    let none = Seq::<char>::empty();
    slashes_are_nowhere(part);
    rest_of_parts(name, "/blobs/uploads/"@, part);
    rest_of_parts(name, "/blobs/"@, part);
    rest_of_parts(name, "/manifests/"@, part);
    rest_of_parts(name, "/tags/list"@, part);
    rest_of_parts(name, "/referrers/"@, part);
    upload_path_parses(name, part);
    upload_path_parses(name, none);
    assert(name + "/blobs/uploads/"@ + none =~= name + "/blobs/uploads/"@);
    blob_path_parses(name, part);
    manifest_path_parses(name, part);
    tags_path_parses(name);
    referrers_path_parses(name, part);
}

/// The root of the API answers everybody who may read, and asks anybody else for credentials or
/// refuses them.
pub proof fn the_root_greets_readers(cfg: Config, id: Identity, query: Option<Seq<char>>)
    ensures
        forall|path: Seq<char>, method: Method|
            (path == "/v2/"@ || path == "/v2"@) && (method == Method::Get || method
                == Method::Head) ==> (#[trigger] answered(cfg, id, method, path, query)
                matches DispatchView::Reply(r) && if cfg.public_pull || id.role == auth::Role::Pull
                || id.role == auth::Role::Push || id.role == auth::Role::Admin {
                r.status == 200 && r.body == errors::BodyView::EmptyObject && r.headers.contains(
                    ("docker-distribution-api-version"@, "registry/2.0"@),
                )
            } else {
                r.status == if id.username is None {
                    401u16
                } else {
                    403u16
                }
            }),
{
    let none = Seq::<char>::empty();
    rest_of_a_path(none);
    assert("/v2/"@ + none =~= "/v2/"@);
    auth::each_role_may_do_its_share(cfg, id);
    auth::refusals_tell_who_is_known(cfg, id, Action::Pull);
    assert(base_reply().headers[1] == ("docker-distribution-api-version"@, "registry/2.0"@));
}

/// A repository that another shard owns is asked for there: every request about it is answered
/// with status 307 and the same path and query at the owner's address.
pub proof fn foreign_repositories_are_redirected(
    cfg: Config,
    id: Identity,
    method: Method,
    name: Seq<char>,
    reference: Seq<char>,
    owner: Seq<char>,
    q: Seq<char>,
)
    requires
        cfg.sharding matches Some(sh) && shard::owner_of(name, text::views(sh.shards@))
            != sh.self_url@ && (shard::owner_of(name, text::views(sh.shards@)) == owner
            || shard::owner_of(name, text::views(sh.shards@)) == owner + seq!['/']),
        owner.len() > 0,
        owner.last() != '/',
        !reference.contains('/'),
    ensures
        ({
            let path = "/v2/"@ + name + "/manifests/"@ + reference;
            &&& answered(cfg, id, method, path, None) matches DispatchView::Reply(r) && r.status
                == 307 && r.headers == seq![("location"@, owner + path)]
            &&& answered(cfg, id, method, path, Some(q)) matches DispatchView::Reply(r) && r.status
                == 307 && r.headers == seq![("location"@, owner + path + "?"@ + q)]
        }),
{
    let path = "/v2/"@ + name + "/manifests/"@ + reference;
    slashes_are_nowhere(reference);
    rest_of_parts(name, "/manifests/"@, reference);
    manifest_path_parses(name, reference);
    text::repeated_characters_come_off(owner, '/');
    let a = answered(cfg, id, method, path, None);
    let b = answered(cfg, id, method, path, Some(q));
    assert(a->Reply_0.headers =~= seq![("location"@, owner + path)]);
    assert(b->Reply_0.headers =~= seq![("location"@, owner + path + "?"@ + q)]);
}

/// Whatever the route and the method, a repository that another shard owns is redirected, and
/// one that this shard owns is not.
pub proof fn only_foreign_repositories_are_redirected(
    cfg: Config,
    id: Identity,
    method: Method,
    route: RouteView,
    path: Seq<char>,
    query: Option<Seq<char>>,
    name: Seq<char>,
)
    requires
        route == RouteView::UploadStart(name) || (route matches RouteView::Upload(n, _) && n
            == name) || (route matches RouteView::Blob(n, _) && n == name) || (route
            matches RouteView::Manifest(n, _) && n == name) || route == RouteView::Tags(name) || (
        route matches RouteView::Referrers(n, _) && n == name),
    ensures
        (dispatch_of(cfg, id, method, route, path, query) matches DispatchView::Reply(r) && r.status
            == 307) <==> (cfg.sharding matches Some(sh) && shard::owner_of(
            name,
            text::views(sh.shards@),
        ) != sh.self_url@),
{
}

/// A repository whose name is malformed is refused with status 400 and the code `NAME_INVALID`,
/// whoever asks and however.
pub proof fn malformed_names_are_refused(
    cfg: Config,
    id: Identity,
    method: Method,
    name: Seq<char>,
    reference: Seq<char>,
    query: Option<Seq<char>>,
)
    requires
        !is_name(name),
        cfg.sharding matches Some(sh) ==> shard::owner_of(name, text::views(sh.shards@))
            == sh.self_url@,
        !reference.contains('/'),
    ensures
        answered(
            cfg,
            id,
            method,
            "/v2/"@ + name + "/manifests/"@ + reference,
            query,
        ) matches DispatchView::Reply(r) && r.status == 400 && r.body == errors::BodyView::Error(
            "NAME_INVALID"@,
            "invalid repository name"@,
        ),
{
    slashes_are_nowhere(reference);
    rest_of_parts(name, "/manifests/"@, reference);
    manifest_path_parses(name, reference);
}

/// A path that names no part of the API leads to status 404.
pub proof fn other_paths_are_unknown(
    cfg: Config,
    id: Identity,
    method: Method,
    x: Seq<char>,
    query: Option<Seq<char>>,
)
    requires
        x.len() > 0,
        !x.contains('/'),
    ensures
        answered(cfg, id, method, "/v2/"@ + x, query) matches DispatchView::Reply(r) && r.status
            == 404,
{
    rest_of_a_path(x);
    slashes_are_nowhere(x);
    no_marker_without_a_slash(x, "/blobs/uploads/"@);
    no_marker_without_a_slash(x, "/blobs/"@);
    no_marker_without_a_slash(x, "/manifests/"@);
    no_marker_without_a_slash(x, "/referrers/"@);
    reveal_strlit("/blobs/uploads/");
    reveal_strlit("/blobs/");
    reveal_strlit("/manifests/");
    reveal_strlit("/referrers/");
    if "/tags/list"@.is_suffix_of(x) {
        suffix_chars(x);
    }
}

proof fn no_marker_without_a_slash(x: Seq<char>, m: Seq<char>)
    requires
        slash_free(x),
        m == "/blobs/uploads/"@ || m == "/blobs/"@ || m == "/manifests/"@ || m == "/referrers/"@,
    ensures
        text::last_of(x, m) == -1,
{
    reveal_strlit("/blobs/uploads/");
    reveal_strlit("/blobs/");
    reveal_strlit("/manifests/");
    reveal_strlit("/referrers/");
    text::last_from_is_last(x, m, x.len() as int);
    let i = text::last_of(x, m);
    if i >= 0 {
        occurs_chars(x, i, m);
        assert(x[i + 0] == '/');
    }
}

/// What a tag is: 1 to 128 characters out of letters, digits, `.`, `_` and `-`, of which the
/// first is a letter or a digit.
pub proof fn what_a_tag_is(t: Seq<char>)
    ensures
        is_tag(t) <==> {
            &&& 1 <= t.len() <= 128
            &&& ('a' <= t[0] <= 'z') || ('A' <= t[0] <= 'Z') || ('0' <= t[0] <= '9')
            &&& forall|i: int|
                0 <= i < t.len() ==> ('a' <= (#[trigger] t[i]) <= 'z') || ('A' <= t[i] <= 'Z') || (
                '0' <= t[i] <= '9') || t[i] == '.' || t[i] == '_' || t[i] == '-'
        },
{
    if is_tag(t) {
        assert forall|i: int| 0 <= i < t.len() implies ('a' <= (#[trigger] t[i]) <= 'z') || ('A'
            <= t[i] <= 'Z') || ('0' <= t[i] <= '9') || t[i] == '.' || t[i] == '_' || t[i] == '-' by {
            assert(letter_or_digit(t[i]) || t[i] == '.' || t[i] == '_' || t[i] == '-');
        }
    }
}

/// What a name is: a text without slashes is one where it has 1 to 255 characters out of
/// lowercase letters, digits, `.`, `_` and `-`, a letter or a digit at either end; and texts of
/// that kind between slashes are one as long as they have no more than 255 characters together.
pub proof fn what_a_name_is(a: Seq<char>, b: Seq<char>)
    requires
        !a.contains('/'),
    ensures
        is_name(a) <==> a.len() <= 255 && is_component(a),
        is_name(a + seq!['/'] + b) <==> is_component(a) && is_name(b) && a.len() + 1 + b.len()
            <= 255,
        is_component(a) <==> {
            &&& a.len() > 0
            &&& ('a' <= a[0] <= 'z') || ('0' <= a[0] <= '9')
            &&& ('a' <= a.last() <= 'z') || ('0' <= a.last() <= '9')
            &&& forall|i: int|
                0 <= i < a.len() ==> ('a' <= (#[trigger] a[i]) <= 'z') || ('0' <= a[i] <= '9')
                    || a[i] == '.' || a[i] == '_' || a[i] == '-'
        },
{
    text::pieces_stand_between_separators(a, b, '/');
    let s = a + seq!['/'] + b;
    let p = text::pieces(b, '/');
    assert(text::pieces(a, '/')[0] == a);
    assert(text::pieces(s, '/') == seq![a] + p);
    assert forall|i: int| 0 <= i < p.len() implies #[trigger] p[i] == (seq![a] + p)[i + 1] by {}
    assert((seq![a] + p)[0] == a);
    if is_name(s) {
        assert forall|i: int| 0 <= i < p.len() implies is_component(#[trigger] p[i]) by {
            assert(is_component(text::pieces(s, '/')[i + 1]));
        }
        assert(is_component(text::pieces(s, '/')[0]));
        if b.len() == 0 {
            text::pieces_stand_between_separators(b, b, '/');
            assert(p[0] == b);
        }
    }
    if is_component(a) {
        assert forall|i: int| 0 <= i < a.len() implies ('a' <= (#[trigger] a[i]) <= 'z') || ('0'
            <= a[i] <= '9') || a[i] == '.' || a[i] == '_' || a[i] == '-' by {
            assert(lower_or_digit(a[i]) || a[i] == '.' || a[i] == '_' || a[i] == '-');
        }
    }
    if is_component(a) && is_name(b) && s.len() <= 255 {
        assert forall|i: int| 0 <= i < text::pieces(s, '/').len() implies is_component(
            #[trigger] text::pieces(s, '/')[i],
        ) by {
            if i > 0 {
                assert(text::pieces(s, '/')[i] == p[i - 1]);
            }
        }
    }
    if is_name(a) {
        assert(is_component(text::pieces(a, '/')[0]));
    }
}

proof fn pieces_end_with_the_last(q: Seq<char>, b: Seq<char>, c: char)
    requires
        !b.contains(c),
    ensures
        text::pieces(q + seq![c] + b, c) == text::pieces(q, c).push(b),
    decreases q.len(),
{
    let s = q + seq![c] + b;
    text::first_of_is_first(q, c);
    let i = text::first_of(q, c);
    let x = q.take(i);
    assert(!x.contains(c)) by {
        assert forall|j: int| 0 <= j < x.len() implies x[j] != c by {
            assert(x[j] == q[j]);
        }
    }
    text::pieces_stand_between_separators(b, b, c);
    if i < q.len() {
        let y = q.skip(i + 1);
        pieces_end_with_the_last(y, b, c);
        assert(q =~= x + seq![c] + y);
        assert(s =~= x + seq![c] + (y + seq![c] + b));
        text::pieces_stand_between_separators(x, y, c);
        text::pieces_stand_between_separators(x, y + seq![c] + b, c);
        assert(seq![x] + text::pieces(y, c).push(b) =~= (seq![x] + text::pieces(y, c)).push(b));
    } else {
        assert(x =~= q);
        text::pieces_stand_between_separators(q, b, c);
        assert(seq![q] + seq![b] =~= seq![q].push(b));
    }
}

/// What a query says: `key=value` gives the key that value, a later one replaces an earlier one,
/// a part without `=` says nothing, and without a query there are no parameters.
pub proof fn what_a_query_says(q: Seq<char>, k: Seq<char>, v: Seq<char>, other: Seq<char>)
    requires
        !k.contains('='),
        !k.contains('&'),
        !v.contains('&'),
    ensures
        parameter(query_of(None), other) is None,
        parameter(query_of(Some(k + seq!['='] + v)), k) == Some(v),
        other != k ==> parameter(query_of(Some(k + seq!['='] + v)), other) is None,
        parameter(query_of(Some(q + seq!['&'] + (k + seq!['='] + v))), k) == Some(v),
        other != k ==> parameter(
            query_of(Some(q + seq!['&'] + (k + seq!['='] + v))),
            other,
        ) == parameter(query_of(Some(q)), other),
        query_of(Some(q + seq!['&'] + k)) == query_of(Some(q)),
{
    let pair = k + seq!['='] + v;
    assert(!pair.contains('&')) by {
        assert forall|j: int| 0 <= j < pair.len() implies pair[j] != '&' by {
            if j < k.len() {
                assert(k.contains(k[j]));
            } else if j > k.len() {
                assert(v.contains(v[j - k.len() - 1]));
            }
        }
    }
    text::a_cut_takes_out_the_first(k, v, '=');
    text::pieces_stand_between_separators(pair, pair, '&');
    pieces_end_with_the_last(q, pair, '&');
    pieces_end_with_the_last(q, k, '&');
    let p = text::pieces(q, '&');
    assert(p.push(pair).drop_last() =~= p);
    assert(p.push(k).drop_last() =~= p);
    assert(seq![pair].drop_last() =~= Seq::<Seq<char>>::empty());
    reveal_with_fuel(parameters, 2);
}

proof fn marker_stands_where_it_was_found(s: Seq<char>, m: Seq<char>)
    requires
        text::last_of(s, m) >= 0,
    ensures
        text::last_of(s, m) + m.len() <= s.len(),
        s == s.take(text::last_of(s, m)) + m + s.skip(text::last_of(s, m) + m.len()),
{
    text::last_from_is_last(s, m, s.len() as int);
    let i = text::last_of(s, m);
    assert(s.subrange(i, i + m.len()) == m);
    assert(s =~= s.take(i) + s.subrange(i, i + m.len()) + s.skip(i + m.len()));
}

/// What a route says is read off the path: its name, its marker and what follows make up the
/// whole path, for every path that has a route.
pub proof fn routes_are_read_off_the_path(rest: Seq<char>)
    ensures
        match route_of(rest) {
            None => rest.len() > 0,
            Some(RouteView::Base) => rest.len() == 0,
            Some(RouteView::UploadStart(n)) => rest == n + "/blobs/uploads/"@,
            Some(RouteView::Upload(n, u)) => rest == n + "/blobs/uploads/"@ + u && u.len() > 0,
            Some(RouteView::Blob(n, d)) => rest == n + "/blobs/"@ + d,
            Some(RouteView::Manifest(n, r)) => rest == n + "/manifests/"@ + r,
            Some(RouteView::Referrers(n, d)) => rest == n + "/referrers/"@ + d,
            Some(RouteView::Tags(n)) => rest == n + "/tags/list"@,
        },
{
    if text::last_of(rest, "/blobs/uploads/"@) >= 0 {
        marker_stands_where_it_was_found(rest, "/blobs/uploads/"@);
    }
    if text::last_of(rest, "/blobs/"@) >= 0 {
        marker_stands_where_it_was_found(rest, "/blobs/"@);
    }
    if text::last_of(rest, "/manifests/"@) >= 0 {
        marker_stands_where_it_was_found(rest, "/manifests/"@);
    }
    if text::last_of(rest, "/referrers/"@) >= 0 {
        marker_stands_where_it_was_found(rest, "/referrers/"@);
    }
    if "/tags/list"@.is_suffix_of(rest) {
        let t = tags_marker(rest);
        assert(rest.subrange(t, rest.len() as int) == "/tags/list"@);
        assert(rest =~= rest.take(t) + rest.subrange(t, rest.len() as int));
    }
    match route_of(rest) {
        Some(RouteView::UploadStart(n)) => {
            assert(rest =~= n + "/blobs/uploads/"@);
        },
        _ => {},
    }
}

/// A path has a route exactly where one of the markers stands in it, or the listing of tags at its
/// end; and of several markers none stands further right than the one that counts.
pub proof fn the_rightmost_marker_counts(a: Seq<char>, m: Seq<char>, b: Seq<char>)
    requires
        m == "/blobs/"@ || m == "/manifests/"@ || m == "/referrers/"@,
    ensures
        route_of(a + m + b) matches Some(route) && (repo_of(route) matches Some(name) && name.len()
            >= a.len()),
        route_of(a + "/tags/list"@) == Some(RouteView::Tags(a)),
{
    tags_path_parses(a);
    let s = a + m + b;
    assert(s.subrange(a.len() as int, a.len() as int + m.len()) =~= m);
    assert(text::occurs_at(s, a.len() as int, m));
    text::last_from_is_last(s, m, s.len() as int);
    assert(text::last_of(s, m) >= a.len());
    text::last_from_is_last(s, "/blobs/uploads/"@, s.len() as int);
    text::last_from_is_last(s, "/blobs/"@, s.len() as int);
    text::last_from_is_last(s, "/manifests/"@, s.len() as int);
    text::last_from_is_last(s, "/referrers/"@, s.len() as int);
    reveal_strlit("/blobs/");
    reveal_strlit("/manifests/");
    reveal_strlit("/referrers/");
}

/// What is left of a path: what follows `/v2` and a slash, where there is one; of a path that does
/// not begin so, nothing.
pub proof fn what_is_left_of_a_path(path: Seq<char>, x: Seq<char>)
    ensures
        rest_of("/v2/"@ + x) == x,
        x.len() == 0 || x[0] != '/' ==> rest_of("/v2"@ + x) == x,
        !"/v2"@.is_prefix_of(path) ==> rest_of(path).len() == 0,
{
    rest_of_a_path(x);
    reveal_strlit("/");
    text::what_is_stripped_comes_off("/v2"@ + x, "/v2"@, x);
    if "/"@.is_prefix_of(x) {
        assert(x.subrange(0, 1)[0] == '/');
    }
}

} // verus!
