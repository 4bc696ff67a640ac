//! Retention: which tags are given up.
//!
//! Collection takes whatever no tag reaches and cannot decide that a tagged image has outlived
//! its use. A retention policy decides that. Only tags that match a pattern are ever
//! candidates; of those the newest ones stay, the recent ones stay, and the ones that the
//! operator pinned stay.

use crate::config::RetentionCfg;
use crate::gc::GcReport;
use crate::text;
use crate::truth;
use vstd::hash_map::StringHashMap;
use vstd::prelude::*;
use vstd::string::*;

verus! {

/// A compiled pattern.
#[verifier::external_type_specification]
#[verifier::external_body]
pub struct ExRegex(regex::Regex);

/// A text of a pattern that matches the same: the one that it was compiled from, where
/// `regex::Regex::new` compiled it.
pub uninterp spec fn source(re: regex::Regex) -> Seq<char>;

/// What is wrong with a text as a pattern, if anything is.
pub uninterp spec fn regex_fault(pattern: Seq<char>) -> Option<Seq<char>>;

/// The pattern matches somewhere in the text.
pub uninterp spec fn regex_matches(pattern: Seq<char>, s: Seq<char>) -> bool;

/// `regex::Regex::new`: the compiled pattern, or the text of what is wrong with it.
#[verifier::external_body]
fn regex_new(pattern: &str) -> (r: Result<regex::Regex, String>)
    ensures
        match r {
            Ok(re) => regex_fault(pattern@) is None && source(re) == pattern@,
            Err(why) => regex_fault(pattern@) == Some(why@),
        },
{
    regex::Regex::new(pattern).map_err(|e| e.to_string())
}

/// `regex::Regex::is_match`: whether the pattern matches somewhere in the text.
#[verifier::external_body]
fn regex_is_match(re: &regex::Regex, s: &str) -> (r: bool)
    ensures
        r == regex_matches(source(*re), s@),
{
    re.is_match(s)
}

/// The message about a policy whose pattern is none.
pub open spec fn bad_pattern(why: Seq<char>) -> Seq<char> {
    "retention.tag_pattern does not parse: "@ + why
}

/// Compiles the pattern of a policy.
pub fn compile(cfg: &RetentionCfg) -> (r: Result<regex::Regex, String>)
    ensures
        match (r, regex_fault(cfg.tag_pattern@)) {
            (Ok(re), None) => source(re) == cfg.tag_pattern@,
            (Err(msg), Some(why)) => msg@ == bad_pattern(why),
            _ => false,
        },
        r matches Err(msg) ==> msg@ == "retention.tag_pattern does not parse: "@ + regex_fault(
            cfg.tag_pattern@,
        )->0,
{
    match regex_new(cfg.tag_pattern.as_str()) {
        Ok(re) => Ok(re),
        Err(why) => {
            let mut msg = "retention.tag_pattern does not parse: ".to_owned();
            msg.append(why.as_str());
            Err(msg)
        },
    }
}

/// A tag and the time of its push.
pub type TagView = (Seq<char>, i64);

/// The views of some tags.
pub open spec fn tag_views(tags: Seq<(String, i64)>) -> Seq<TagView> {
    tags.map_values(|t: (String, i64)| (t.0@, t.1))
}

/// `a` comes before `b`: it was pushed later, or at the same time and its name comes first.
pub open spec fn newer(a: TagView, b: TagView) -> bool {
    a.1 > b.1 || (a.1 == b.1 && text::lex_lt(a.0, b.0))
}

/// Tags from the newest to the oldest.
pub open spec fn newest_first(s: Seq<TagView>) -> bool {
    forall|i: int, j: int| 0 <= i < j < s.len() ==> !newer(#[trigger] s[j], #[trigger] s[i])
}

/// `s` holds the tags of `c`, from the newest to the oldest.
pub open spec fn ranks(s: Seq<TagView>, c: Seq<TagView>) -> bool {
    newest_first(s) && s.to_multiset() == c.to_multiset()
}

/// The operator pinned the tag of that repository.
pub open spec fn pinned(cfg: RetentionCfg, repo: Seq<char>, tag: Seq<char>) -> bool {
    text::views(cfg.protect@).contains(repo + ":"@ + tag)
}

/// Too long ago to be protected by its push.
pub open spec fn stale(cfg: RetentionCfg, now: i64, pushed: i64) -> bool {
    pushed < now - cfg.keep_days * 86_400
}

/// The tag that ranks `i`th is given up: it is outside the window of the newest, stale, and
/// not pinned.
pub open spec fn given_up(
    s: Seq<TagView>,
    repo: Seq<char>,
    now: i64,
    cfg: RetentionCfg,
    i: int,
) -> bool {
    &&& 0 <= i < s.len()
    &&& i >= cfg.keep_newest
    &&& stale(cfg, now, s[i].1)
    &&& !pinned(cfg, repo, s[i].0)
}

/// The tags that are given up among the first `n`, in order.
pub open spec fn given_up_among(
    s: Seq<TagView>,
    repo: Seq<char>,
    now: i64,
    cfg: RetentionCfg,
    n: nat,
) -> Seq<TagView>
    decreases n,
{
    if n == 0 {
        Seq::empty()
    } else {
        let before = given_up_among(s, repo, now, cfg, (n - 1) as nat);
        if given_up(s, repo, now, cfg, n - 1) {
            before.push(s[n - 1])
        } else {
            before
        }
    }
}

/// `victims` are the tags that the policy gives up of the candidates `c`, each with the time of
/// its push.
pub open spec fn is_selection(
    victims: Seq<TagView>,
    repo: Seq<char>,
    c: Seq<TagView>,
    now: i64,
    cfg: RetentionCfg,
) -> bool {
    exists|s: Seq<TagView>|
        #[trigger] ranks(s, c) && victims == given_up_among(s, repo, now, cfg, s.len())
}

/// The names of some tags.
pub open spec fn names_of(tags: Seq<TagView>) -> Seq<Seq<char>> {
    tags.map_values(|t: TagView| t.0)
}

/// `names` are the names of the tags that the policy gives up of the candidates `c`.
pub open spec fn names_selected(
    names: Seq<Seq<char>>,
    repo: Seq<char>,
    c: Seq<TagView>,
    now: i64,
    cfg: RetentionCfg,
) -> bool {
    exists|victims: Seq<TagView>|
        #[trigger] is_selection(victims, repo, c, now, cfg) && names == names_of(victims)
}

/// The candidates among some tags: those whose names the pattern matches, in order.
pub open spec fn candidates(tags: Seq<TagView>, pattern: Seq<char>) -> Seq<TagView>
    decreases tags.len(),
{
    if tags.len() == 0 {
        Seq::empty()
    } else {
        let before = candidates(tags.drop_last(), pattern);
        if regex_matches(pattern, tags.last().0) {
            before.push(tags.last())
        } else {
            before
        }
    }
}

// Ranking.

proof fn newer_total(a: TagView, b: TagView)
    ensures
        a != b ==> newer(a, b) || newer(b, a),
{
    text::lex_total(a.0, b.0);
}

proof fn newer_asymmetric(a: TagView, b: TagView)
    requires
        newer(a, b),
    ensures
        !newer(b, a),
{
    if a.1 == b.1 {
        text::lex_asymmetric(a.0, b.0);
    }
}

/// Not being newer is transitive.
proof fn not_newer_transitive(a: TagView, b: TagView, c: TagView)
    requires
        !newer(b, a),
        !newer(c, b),
    ensures
        !newer(c, a),
{
    if newer(c, a) && a.1 == b.1 && b.1 == c.1 {
        text::lex_total(a.0, b.0);
        text::lex_total(b.0, c.0);
        if a.0 == b.0 || b.0 == c.0 {
        } else {
            text::lex_transitive(a.0, b.0, c.0);
            text::lex_asymmetric(a.0, c.0);
        }
    }
}

fn is_newer(a: &(String, i64), b: &(String, i64)) -> (r: bool)
    ensures
        r == newer((a.0@, a.1), (b.0@, b.1)),
{
    a.1 > b.1 || (a.1 == b.1 && text::before(a.0.as_str(), b.0.as_str()))
}

/// Nothing in `s` is older than `x`.
spec fn none_older(s: Seq<TagView>, x: TagView) -> bool {
    forall|i: int| 0 <= i < s.len() ==> !newer(x, #[trigger] s[i])
}

proof fn push_newest_first(s: Seq<TagView>, x: TagView)
    requires
        newest_first(s),
        none_older(s, x),
    ensures
        newest_first(s.push(x)),
{
    let t = s.push(x);
    assert forall|i: int, j: int| 0 <= i < j < t.len() implies !newer(
        #[trigger] t[j],
        #[trigger] t[i],
    ) by {
        assert(t[i] == s[i]);
        if j < s.len() {
            assert(t[j] == s[j]);
        }
    }
}

proof fn none_older_step(s: Seq<TagView>, x: TagView, y: TagView)
    requires
        none_older(s, x),
        !newer(y, x),
    ensures
        none_older(s.push(x), y),
{
    assert forall|i: int| 0 <= i < s.push(x).len() implies !newer(y, #[trigger] s.push(x)[i]) by {
        if i < s.len() {
            assert(s.push(x)[i] == s[i]);
            not_newer_transitive(s[i], x, y);
        }
    }
}

fn merge(a: &Vec<(String, i64)>, b: &Vec<(String, i64)>) -> (r: Vec<(String, i64)>)
    requires
        newest_first(tag_views(a@)),
        newest_first(tag_views(b@)),
    ensures
        newest_first(tag_views(r@)),
        tag_views(r@).to_multiset() == tag_views(a@).to_multiset().add(
            tag_views(b@).to_multiset(),
        ),
{
    broadcast use vstd::seq_lib::group_to_multiset_ensures;

    let ghost va = tag_views(a@);
    let ghost vb = tag_views(b@);
    let mut r: Vec<(String, i64)> = Vec::new();
    let mut i: usize = 0;
    let mut j: usize = 0;
    proof {
        assert(va.take(0) =~= Seq::empty());
        assert(vb.take(0) =~= Seq::empty());
        assert(tag_views(r@) =~= Seq::empty());
        assert(tag_views(r@).to_multiset() =~= va.take(0).to_multiset().add(
            vb.take(0).to_multiset(),
        ));
    }
    while i < a.len() || j < b.len()
        invariant
            i <= a@.len(),
            j <= b@.len(),
            va == tag_views(a@),
            vb == tag_views(b@),
            newest_first(va),
            newest_first(vb),
            newest_first(tag_views(r@)),
            i < va.len() ==> none_older(tag_views(r@), va[i as int]),
            j < vb.len() ==> none_older(tag_views(r@), vb[j as int]),
            tag_views(r@).to_multiset() == va.take(i as int).to_multiset().add(
                vb.take(j as int).to_multiset(),
            ),
        decreases a@.len() - i + b@.len() - j,
    {
        let ghost before = tag_views(r@);
        let from_a = i < a.len() && (j >= b.len() || !is_newer(&b[j], &a[i]));
        if from_a {
            r.push((a[i].0.clone(), a[i].1));
            proof {
                let x = va[i as int];
                assert(tag_views(r@) =~= before.push(x));
                push_newest_first(before, x);
                if i + 1 < va.len() {
                    assert(!newer(va[i + 1], va[i as int]));
                    none_older_step(before, x, va[i + 1]);
                }
                if j < vb.len() {
                    none_older_step(before, x, vb[j as int]);
                }
                assert(va.take(i + 1) =~= va.take(i as int).push(x));
                vstd::seq_lib::to_multiset_build(before, x);
                vstd::seq_lib::to_multiset_build(va.take(i as int), x);
                assert(tag_views(r@).to_multiset() =~= va.take(i + 1).to_multiset().add(
                    vb.take(j as int).to_multiset(),
                ));
            }
            i += 1;
        } else {
            r.push((b[j].0.clone(), b[j].1));
            proof {
                let x = vb[j as int];
                assert(tag_views(r@) =~= before.push(x));
                push_newest_first(before, x);
                if j + 1 < vb.len() {
                    assert(!newer(vb[j + 1], vb[j as int]));
                    none_older_step(before, x, vb[j + 1]);
                }
                if i < va.len() {
                    newer_asymmetric(x, va[i as int]);
                    none_older_step(before, x, va[i as int]);
                }
                assert(vb.take(j + 1) =~= vb.take(j as int).push(x));
                vstd::seq_lib::to_multiset_build(before, x);
                vstd::seq_lib::to_multiset_build(vb.take(j as int), x);
                assert(tag_views(r@).to_multiset() =~= va.take(i as int).to_multiset().add(
                    vb.take(j + 1).to_multiset(),
                ));
            }
            j += 1;
        }
    }
    proof {
        assert(va.take(i as int) =~= va);
        assert(vb.take(j as int) =~= vb);
    }
    r
}

fn rank_part(tags: &Vec<(String, i64)>, from: usize, to: usize) -> (r: Vec<(String, i64)>)
    requires
        from <= to <= tags@.len(),
    ensures
        ranks(tag_views(r@), tag_views(tags@).subrange(from as int, to as int)),
    decreases to - from,
{
    let ghost all = tag_views(tags@);
    let mut r: Vec<(String, i64)> = Vec::new();
    if from == to {
        proof {
            assert(tag_views(r@) =~= all.subrange(from as int, to as int));
        }
        return r;
    }
    if to - from == 1 {
        r.push((tags[from].0.clone(), tags[from].1));
        proof {
            assert(tag_views(r@) =~= all.subrange(from as int, to as int));
        }
        return r;
    }
    let mid: usize = from + (to - from) / 2;
    let a = rank_part(tags, from, mid);
    let b = rank_part(tags, mid, to);
    let r = merge(&a, &b);
    proof {
        let s1 = all.subrange(from as int, mid as int);
        let s2 = all.subrange(mid as int, to as int);
        assert(all.subrange(from as int, to as int) =~= s1 + s2);
        vstd::seq_lib::lemma_multiset_commutative(s1, s2);
    }
    r
}

/// Two rankings of the same tags are the same.
pub proof fn a_ranking_is_unique(a: Seq<TagView>, b: Seq<TagView>)
    requires
        newest_first(a),
        newest_first(b),
        a.to_multiset() == b.to_multiset(),
    ensures
        a == b,
    decreases a.len(),
{
    broadcast use vstd::seq_lib::group_to_multiset_ensures;

    assert(a.len() == b.len()) by {
        assert(a.to_multiset().len() == a.len());
        assert(b.to_multiset().len() == b.len());
    }
    if a.len() == 0 {
        assert(a =~= b);
    } else {
        let la = a.last();
        let lb = b.last();
        assert(a.contains(la) && b.contains(lb));
        assert(a.to_multiset().count(la) > 0);
        assert(b.to_multiset().count(lb) > 0);
        assert(b.contains(la) && a.contains(lb));
        let i = a.index_of(lb);
        let j = b.index_of(la);
        if la != lb {
            assert(!newer(a[a.len() - 1], a[i]));
            assert(!newer(b[b.len() - 1], b[j]));
            newer_total(la, lb);
        }
        let ra = a.drop_last();
        let rb = b.drop_last();
        assert(a =~= ra.push(la));
        assert(b =~= rb.push(lb));
        assert(ra.to_multiset() =~= rb.to_multiset()) by {
            assert(a.to_multiset() =~= ra.to_multiset().insert(la));
            assert(b.to_multiset() =~= rb.to_multiset().insert(lb));
            assert(ra.to_multiset() =~= a.to_multiset().remove(la));
            assert(rb.to_multiset() =~= b.to_multiset().remove(lb));
        }
        assert(newest_first(ra)) by {
            assert forall|x: int, y: int| 0 <= x < y < ra.len() implies !newer(
                #[trigger] ra[y],
                #[trigger] ra[x],
            ) by {
                assert(ra[x] == a[x] && ra[y] == a[y]);
            }
        }
        assert(newest_first(rb)) by {
            assert forall|x: int, y: int| 0 <= x < y < rb.len() implies !newer(
                #[trigger] rb[y],
                #[trigger] rb[x],
            ) by {
                assert(rb[x] == b[x] && rb[y] == b[y]);
            }
        }
        a_ranking_is_unique(ra, rb);
    }
}

fn is_pinned(cfg: &RetentionCfg, repo: &str, tag: &str) -> (r: bool)
    ensures
        r == pinned(*cfg, repo@, tag@),
{
    let mut full = repo.to_owned();
    full.append(":");
    full.append(tag);
    text::contains(&cfg.protect, full.as_str())
}

fn is_stale(cfg: &RetentionCfg, now: i64, pushed: i64) -> (r: bool)
    ensures
        r == stale(*cfg, now, pushed),
{
    (pushed as i128) < (now as i128) - (cfg.keep_days as i128) * 86_400
}

/// Which candidates of a repository the policy gives up, newest first. Everything here is a
/// reason to keep a tag: it goes only where no reason holds.
pub fn give_up(repo: &str, candidates: &Vec<(String, i64)>, now: i64, cfg: &RetentionCfg) -> (r: Vec<
    (String, i64),
>)
    ensures
        is_selection(tag_views(r@), repo@, tag_views(candidates@), now, *cfg),
        r@.len() <= candidates@.len(),
{
    broadcast use vstd::seq_lib::group_to_multiset_ensures;

    let ranked = rank_part(candidates, 0, candidates.len());
    let ghost s = tag_views(ranked@);
    proof {
        assert(tag_views(candidates@).subrange(0, candidates@.len() as int) =~= tag_views(
            candidates@,
        ));
        assert(ranks(s, tag_views(candidates@)));
        assert(s.to_multiset().len() == s.len());
        assert(tag_views(candidates@).to_multiset().len() == candidates@.len());
    }
    let mut r: Vec<(String, i64)> = Vec::new();
    let mut i: usize = 0;
    proof {
        assert(tag_views(r@) =~= Seq::empty());
    }
    while i < ranked.len()
        invariant
            i <= ranked@.len(),
            s == tag_views(ranked@),
            r@.len() <= i,
            tag_views(r@) == given_up_among(s, repo@, now, *cfg, i as nat),
        decreases ranked@.len() - i,
    {
        let ghost before = tag_views(r@);
        let name = &ranked[i].0;
        if i >= cfg.keep_newest && is_stale(cfg, now, ranked[i].1) && !is_pinned(
            cfg,
            repo,
            name.as_str(),
        ) {
            r.push((name.clone(), ranked[i].1));
            proof {
                assert(tag_views(r@) =~= before.push(s[i as int]));
            }
        }
        i += 1;
    }
    r
}

/// Which of a repository's tags the policy gives up, each with the time of its push: `tags` are
/// all of them.
pub fn select(
    repo: &str,
    tags: &[(String, i64)],
    now: i64,
    cfg: &RetentionCfg,
    pattern: &regex::Regex,
) -> (r: Vec<(String, i64)>)
    ensures
        is_selection(
            tag_views(r@),
            repo@,
            candidates(tag_views(tags@), source(*pattern)),
            now,
            *cfg,
        ),
        r@.len() <= tags@.len(),
{
    let ghost all = tag_views(tags@);
    let ghost p = source(*pattern);
    let mut matching: Vec<(String, i64)> = Vec::new();
    let mut i: usize = 0;
    proof {
        assert(tag_views(matching@) =~= Seq::empty());
    }
    while i < tags.len()
        invariant
            i <= tags@.len(),
            all == tag_views(tags@),
            p == source(*pattern),
            matching@.len() <= i,
            tag_views(matching@) == candidates(all.take(i as int), p),
        decreases tags@.len() - i,
    {
        let ghost before = tag_views(matching@);
        proof {
            assert(all.take(i + 1).drop_last() =~= all.take(i as int));
            assert(all.take(i + 1).last() == all[i as int]);
        }
        if regex_is_match(pattern, tags[i].0.as_str()) {
            matching.push((tags[i].0.clone(), tags[i].1));
            proof {
                assert(tag_views(matching@) =~= before.push(all[i as int]));
            }
        }
        i += 1;
    }
    proof {
        assert(all.take(i as int) =~= all);
    }
    give_up(repo, &matching, now, cfg)
}

/// The names of those of a repository's tags that the policy gives up: `tags` are all of them,
/// each with the time of its push.
pub fn select_victims(
    repo: &str,
    tags: &[(String, i64)],
    now: i64,
    cfg: &RetentionCfg,
    pattern: &regex::Regex,
) -> (r: Vec<String>)
    ensures
        names_selected(
            text::views(r@),
            repo@,
            candidates(tag_views(tags@), source(*pattern)),
            now,
            *cfg,
        ),
{
    let victims = select(repo, tags, now, cfg, pattern);
    let ghost all = tag_views(victims@);
    let mut r: Vec<String> = Vec::new();
    let mut i: usize = 0;
    while i < victims.len()
        invariant
            i <= victims@.len(),
            all == tag_views(victims@),
            text::views(r@) == names_of(all).take(i as int),
        decreases victims@.len() - i,
    {
        let ghost before = text::views(r@);
        r.push(victims[i].0.clone());
        proof {
            assert(text::views(r@) =~= before.push(all[i as int].0));
            assert(names_of(all).take(i + 1) =~= names_of(all).take(i as int).push(
                names_of(all)[i as int],
            ));
        }
        i += 1;
    }
    proof {
        assert(names_of(all).take(i as int) =~= names_of(all));
    }
    r
}

// A sweep over every repository.

/// The tags of one repository.
#[derive(Debug)]
pub struct Group {
    pub repo: String,
    pub tags: Vec<(String, i64)>,
}

/// The tags of a repository among all tags: rows of repository, tag and time of push.
pub open spec fn tags_in(rows: Seq<(String, String, i64)>, repo: Seq<char>) -> Seq<TagView>
    decreases rows.len(),
{
    if rows.len() == 0 {
        Seq::empty()
    } else {
        let before = tags_in(rows.drop_last(), repo);
        if rows.last().0@ == repo {
            before.push((rows.last().1@, rows.last().2))
        } else {
            before
        }
    }
}

/// How many tags some groups hold.
pub open spec fn tag_count(groups: Seq<Group>) -> nat
    decreases groups.len(),
{
    if groups.len() == 0 {
        0
    } else {
        tag_count(groups.drop_last()) + groups.last().tags@.len()
    }
}

/// `groups` sorts all tags by repository: each repository that has tags once, with all of them.
pub open spec fn sorts(groups: Seq<Group>, rows: Seq<(String, String, i64)>) -> bool {
    &&& forall|i: int, j: int|
        0 <= i < j < groups.len() ==> (#[trigger] groups[i]).repo@ != (#[trigger] groups[j]).repo@
    &&& forall|i: int|
        0 <= i < groups.len() ==> tag_views((#[trigger] groups[i]).tags@) == tags_in(
            rows,
            groups[i].repo@,
        )
    &&& forall|repo: Seq<char>|
        (#[trigger] tags_in(rows, repo)).len() > 0 ==> exists|i: int|
            0 <= i < groups.len() && (#[trigger] groups[i]).repo@ == repo
    &&& tag_count(groups) == rows.len()
}

proof fn tag_count_update(groups: Seq<Group>, i: int, g: Group)
    requires
        0 <= i < groups.len(),
    ensures
        tag_count(groups.update(i, g)) == tag_count(groups) - groups[i].tags@.len() + g.tags@.len(),
    decreases groups.len(),
{
    let after = groups.update(i, g);
    if i == groups.len() - 1 {
        assert(after.drop_last() =~= groups.drop_last());
    } else {
        assert(after.drop_last() =~= groups.drop_last().update(i, g));
        tag_count_update(groups.drop_last(), i, g);
    }
}

/// Sorts all tags by repository.
pub fn group(rows: &Vec<(String, String, i64)>) -> (groups: Vec<Group>)
    ensures
        sorts(groups@, rows@),
{
    let mut groups: Vec<Group> = Vec::new();
    let mut places: StringHashMap<usize> = StringHashMap::new();
    let mut k: usize = 0;
    proof {
        assert(rows@.take(0) =~= Seq::empty());
    }
    while k < rows.len()
        invariant
            k <= rows@.len(),
            sorts(groups@, rows@.take(k as int)),
            forall|r: Seq<char>|
                #[trigger] places@.contains_key(r) ==> places@[r] < groups@.len()
                    && groups@[places@[r] as int].repo@ == r,
            forall|i: int|
                0 <= i < groups@.len() ==> places@.contains_key((#[trigger] groups@[i]).repo@),
        decreases rows@.len() - k,
    {
        let row = &rows[k];
        let ghost before = groups@;
        let ghost done = rows@.take(k as int);
        let ghost next = rows@.take(k + 1);
        proof {
            assert(next.drop_last() =~= done);
            assert(next.last() == *row);
        }
        let place = match places.get(row.0.as_str()) {
            Some(i) => Some(*i),
            None => None,
        };
        match place {
            Some(i) => {
                let mut tags: Vec<(String, i64)> = Vec::new();
                let ghost old_tags = groups@[i as int].tags@;
                std::mem::swap(&mut tags, &mut groups[i].tags);
                tags.push((row.1.clone(), row.2));
                proof {
                    assert(tag_views(tags@) =~= tag_views(old_tags).push((row.1@, row.2)));
                }
                let g = Group { repo: row.0.clone(), tags };
                groups[i] = g;
                proof {
                    assert(groups@ =~= before.update(i as int, g));
                    tag_count_update(before, i as int, g);
                    assert forall|x: int| 0 <= x < groups@.len() implies tag_views(
                        (#[trigger] groups@[x]).tags@,
                    ) == tags_in(next, groups@[x].repo@) by {
                        if x != i {
                            assert(before[x] == groups@[x]);
                            if x < i {
                                assert(before[x].repo@ != before[i as int].repo@);
                            } else {
                                assert(before[i as int].repo@ != before[x].repo@);
                            }
                        } else {
                            assert(before[i as int].repo@ == row.0@);
                        }
                    }
                    assert forall|x: int, y: int| 0 <= x < y < groups@.len() implies (
                    #[trigger] groups@[x]).repo@ != (#[trigger] groups@[y]).repo@ by {
                        assert(before[x].repo@ != before[y].repo@);
                    }
                    assert forall|repo: Seq<char>| (#[trigger] tags_in(next, repo)).len()
                        > 0 implies exists|x: int|
                        0 <= x < groups@.len() && (#[trigger] groups@[x]).repo@ == repo by {
                        if repo == row.0@ {
                            assert(groups@[i as int].repo@ == repo);
                        } else {
                            assert(tags_in(done, repo).len() > 0);
                            let x = choose|x: int|
                                0 <= x < before.len() && (#[trigger] before[x]).repo@ == repo;
                            assert(groups@[x].repo@ == repo);
                        }
                    }
                    assert forall|r: Seq<char>| #[trigger] places@.contains_key(r) implies places@[r]
                        < groups@.len() && groups@[places@[r] as int].repo@ == r by {
                        assert(before[places@[r] as int].repo@ == r);
                    }
                    assert forall|x: int| 0 <= x < groups@.len() implies places@.contains_key(
                        (#[trigger] groups@[x]).repo@,
                    ) by {
                        assert(places@.contains_key(before[x].repo@));
                    }
                }
            },
            None => {
                let mut tags: Vec<(String, i64)> = Vec::new();
                tags.push((row.1.clone(), row.2));
                let ghost before_places = places@;
                let at = groups.len();
                places.insert(row.0.clone(), at);
                proof {
                    assert(tags_in(done, row.0@).len() == 0) by {
                        if tags_in(done, row.0@).len() > 0 {
                            let x = choose|x: int|
                                0 <= x < before.len() && (#[trigger] before[x]).repo@ == row.0@;
                            assert(before_places.contains_key(before[x].repo@));
                        }
                    }
                    assert(tag_views(tags@) =~= tags_in(done, row.0@).push((row.1@, row.2)));
                }
                let g = Group { repo: row.0.clone(), tags };
                groups.push(g);
                proof {
                    assert(groups@.drop_last() =~= before);
                    assert forall|x: int| 0 <= x < groups@.len() implies tag_views(
                        (#[trigger] groups@[x]).tags@,
                    ) == tags_in(next, groups@[x].repo@) by {
                        if x < before.len() {
                            assert(before[x] == groups@[x]);
                            assert(before_places.contains_key(before[x].repo@));
                        }
                    }
                    assert forall|x: int, y: int| 0 <= x < y < groups@.len() implies (
                    #[trigger] groups@[x]).repo@ != (#[trigger] groups@[y]).repo@ by {
                        assert(before[x] == groups@[x]);
                        assert(before_places.contains_key(before[x].repo@));
                        if y < before.len() {
                            assert(before[y] == groups@[y]);
                        }
                    }
                    assert forall|repo: Seq<char>| (#[trigger] tags_in(next, repo)).len()
                        > 0 implies exists|x: int|
                        0 <= x < groups@.len() && (#[trigger] groups@[x]).repo@ == repo by {
                        if repo == row.0@ {
                            assert(groups@[before.len() as int].repo@ == repo);
                        } else {
                            assert(tags_in(done, repo).len() > 0);
                            let x = choose|x: int|
                                0 <= x < before.len() && (#[trigger] before[x]).repo@ == repo;
                            assert(groups@[x].repo@ == repo);
                        }
                    }
                    assert forall|r: Seq<char>| #[trigger] places@.contains_key(r) implies places@[r]
                        < groups@.len() && groups@[places@[r] as int].repo@ == r by {
                        if r != row.0@ {
                            assert(before_places.contains_key(r));
                            assert(groups@[places@[r] as int] == before[places@[r] as int]);
                        }
                    }
                    assert forall|x: int| 0 <= x < groups@.len() implies places@.contains_key(
                        (#[trigger] groups@[x]).repo@,
                    ) by {
                        if x < before.len() {
                            assert(before_places.contains_key(before[x].repo@));
                        }
                    }
                }
            },
        }
        k += 1;
    }
    proof {
        assert(rows@.take(k as int) =~= rows@);
    }
    groups
}

/// What a sweep gives up of one repository: tags, each with the time of the push that the sweep
/// saw.
#[derive(Debug)]
pub struct Given {
    pub repo: String,
    pub tags: Vec<(String, i64)>,
}

/// What a sweep is to do.
#[derive(Debug)]
pub struct Plan {
    /// The repositories that lose tags, with those tags.
    pub deleted: Vec<Given>,
    pub tags_deleted: usize,
    pub tags_kept: usize,
}

/// What a sweep did, or would do.
#[derive(Debug)]
pub struct RetentionReport {
    pub dry_run: bool,
    /// Tags removed, per repository.
    pub deleted: Vec<Given>,
    pub tags_deleted: usize,
    pub tags_kept: usize,
    /// The collection that followed, when one ran.
    pub gc: Option<GcReport>,
}

/// How many tags are given up.
pub open spec fn given_count(deleted: Seq<Given>) -> nat
    decreases deleted.len(),
{
    if deleted.len() == 0 {
        0
    } else {
        given_count(deleted.drop_last()) + deleted.last().tags@.len()
    }
}

/// The policy gives up exactly `victims` of a repository.
pub open spec fn gives_up(
    victims: Seq<TagView>,
    rows: Seq<(String, String, i64)>,
    repo: Seq<char>,
    pattern: Seq<char>,
    now: i64,
    cfg: RetentionCfg,
) -> bool {
    is_selection(victims, repo, candidates(tags_in(rows, repo), pattern), now, cfg)
}

/// Decides what a sweep gives up: in each repository what the policy gives up there, and no
/// entry for a repository that loses nothing.
pub fn plan(
    rows: &Vec<(String, String, i64)>,
    now: i64,
    cfg: &RetentionCfg,
    pattern: &regex::Regex,
) -> (p: Plan)
    ensures
        forall|i: int, j: int|
            0 <= i < j < p.deleted@.len() ==> (#[trigger] p.deleted@[i]).repo@ != (
            #[trigger] p.deleted@[j]).repo@,
        forall|i: int|
            0 <= i < p.deleted@.len() ==> (#[trigger] p.deleted@[i]).tags@.len() > 0 && gives_up(
                tag_views(p.deleted@[i].tags@),
                rows@,
                p.deleted@[i].repo@,
                source(*pattern),
                now,
                *cfg,
            ),
        forall|repo: Seq<char>|
            (#[trigger] tags_in(rows@, repo)).len() > 0 ==> (exists|i: int|
                0 <= i < p.deleted@.len() && (#[trigger] p.deleted@[i]).repo@ == repo) || gives_up(
                Seq::empty(),
                rows@,
                repo,
                source(*pattern),
                now,
                *cfg,
            ),
        p.tags_deleted == given_count(p.deleted@),
        p.tags_deleted + p.tags_kept == rows@.len(),
{
    let groups = group(rows);
    let total = rows.len();
    let ghost pat = source(*pattern);
    let mut deleted: Vec<Given> = Vec::new();
    let mut count: usize = 0;
    let mut i: usize = 0;
    proof {
        assert(groups@.take(0) =~= Seq::empty());
    }
    while i < groups.len()
        invariant
            i <= groups@.len(),
            sorts(groups@, rows@),
            total == rows@.len(),
            pat == source(*pattern),
            count == given_count(deleted@),
            count <= tag_count(groups@.take(i as int)),
            forall|a: int|
                0 <= a < deleted@.len() ==> exists|x: int|
                    0 <= x < i && (#[trigger] groups@[x]).repo@ == (#[trigger] deleted@[a]).repo@,
            forall|a: int, b: int|
                0 <= a < b < deleted@.len() ==> (#[trigger] deleted@[a]).repo@ != (
                #[trigger] deleted@[b]).repo@,
            forall|a: int|
                0 <= a < deleted@.len() ==> (#[trigger] deleted@[a]).tags@.len() > 0 && gives_up(
                    tag_views(deleted@[a].tags@),
                    rows@,
                    deleted@[a].repo@,
                    pat,
                    now,
                    *cfg,
                ),
            forall|x: int|
                0 <= x < i ==> (exists|a: int|
                    0 <= a < deleted@.len() && (#[trigger] deleted@[a]).repo@ == (
                    #[trigger] groups@[x]).repo@) || gives_up(
                    Seq::empty(),
                    rows@,
                    groups@[x].repo@,
                    pat,
                    now,
                    *cfg,
                ),
        decreases groups@.len() - i,
    {
        let g = &groups[i];
        let ghost before = deleted@;
        let victims = select(g.repo.as_str(), g.tags.as_slice(), now, cfg, pattern);
        proof {
            assert(groups@.take(i + 1).drop_last() =~= groups@.take(i as int));
            tag_count_prefix(groups@, i + 1);
            assert(gives_up(tag_views(victims@), rows@, g.repo@, pat, now, *cfg));
        }
        if victims.len() > 0 {
            count = count + victims.len();
            let given = Given { repo: g.repo.clone(), tags: victims };
            deleted.push(given);
            proof {
                assert(deleted@.drop_last() =~= before);
                assert(deleted@[before.len() as int] == given);
                assert forall|a: int| 0 <= a < deleted@.len() implies exists|x: int|
                    0 <= x < i + 1 && (#[trigger] groups@[x]).repo@ == (
                    #[trigger] deleted@[a]).repo@ by {
                    if a < before.len() {
                        assert(before[a] == deleted@[a]);
                        let x = choose|x: int|
                            0 <= x < i && (#[trigger] groups@[x]).repo@ == before[a].repo@;
                        assert(groups@[x].repo@ == deleted@[a].repo@);
                    } else {
                        assert(groups@[i as int].repo@ == deleted@[a].repo@);
                    }
                }
                assert forall|a: int, b: int| 0 <= a < b < deleted@.len() implies (
                #[trigger] deleted@[a]).repo@ != (#[trigger] deleted@[b]).repo@ by {
                    assert(before[a] == deleted@[a]);
                    if b < before.len() {
                        assert(before[b] == deleted@[b]);
                    } else {
                        let x = choose|x: int|
                            0 <= x < i && (#[trigger] groups@[x]).repo@ == before[a].repo@;
                        assert(groups@[x].repo@ != groups@[i as int].repo@);
                    }
                }
                assert forall|x: int| 0 <= x < i + 1 implies (exists|a: int|
                    0 <= a < deleted@.len() && (#[trigger] deleted@[a]).repo@ == (
                    #[trigger] groups@[x]).repo@) || gives_up(
                    Seq::empty(),
                    rows@,
                    groups@[x].repo@,
                    pat,
                    now,
                    *cfg,
                ) by {
                    if x < i {
                        if exists|a: int|
                            0 <= a < before.len() && (#[trigger] before[a]).repo@ == (groups@[x]).repo@ {
                            let a = choose|a: int|
                                0 <= a < before.len() && (#[trigger] before[a]).repo@ == (
                                groups@[x]).repo@;
                            assert(deleted@[a].repo@ == groups@[x].repo@);
                        }
                    } else {
                        assert(deleted@[before.len() as int].repo@ == groups@[x].repo@);
                    }
                }
            }
        } else {
            proof {
                assert(tag_views(victims@) =~= Seq::empty());
                assert forall|a: int| 0 <= a < deleted@.len() implies exists|x: int|
                    0 <= x < i + 1 && (#[trigger] groups@[x]).repo@ == (
                    #[trigger] deleted@[a]).repo@ by {
                    let x = choose|x: int|
                        0 <= x < i && (#[trigger] groups@[x]).repo@ == before[a].repo@;
                    assert(groups@[x].repo@ == deleted@[a].repo@);
                }
            }
        }
        i += 1;
    }
    proof {
        assert(groups@.take(i as int) =~= groups@);
    }
    let p = Plan { deleted, tags_deleted: count, tags_kept: total - count };
    proof {
        assert forall|repo: Seq<char>| (#[trigger] tags_in(rows@, repo)).len() > 0 implies (exists|
            a: int,
        |
            0 <= a < p.deleted@.len() && (#[trigger] p.deleted@[a]).repo@ == repo) || gives_up(
            Seq::empty(),
            rows@,
            repo,
            pat,
            now,
            *cfg,
        ) by {
            let x = choose|x: int| 0 <= x < groups@.len() && (#[trigger] groups@[x]).repo@ == repo;
            assert(groups@[x].repo@ == repo);
            if !gives_up(Seq::empty(), rows@, repo, pat, now, *cfg) {
                let a = choose|a: int|
                    0 <= a < p.deleted@.len() && (#[trigger] p.deleted@[a]).repo@ == groups@[x].repo@;
                assert(p.deleted@[a].repo@ == repo);
            }
        }
    }
    p
}

proof fn tag_count_prefix(groups: Seq<Group>, n: int)
    requires
        0 <= n <= groups.len(),
    ensures
        tag_count(groups.take(n)) <= tag_count(groups),
    decreases groups.len() - n,
{
    if n < groups.len() {
        assert(groups.take(n + 1).drop_last() =~= groups.take(n));
        tag_count_prefix(groups, n + 1);
    } else {
        assert(groups.take(n) =~= groups);
    }
}

/// Whether a collection follows a sweep.
pub fn collects(cfg: &RetentionCfg, dry_run: bool) -> (r: bool)
    ensures
        r == (!dry_run && cfg.run_gc),
{
    !dry_run && cfg.run_gc
}

/// The pause between sweeps, a minute at least. The first sweep comes one pause after the
/// start.
pub fn pause_seconds(cfg: &RetentionCfg) -> (s: u64)
    ensures
        s == if cfg.interval_seconds < 60 {
            60
        } else {
            cfg.interval_seconds as int
        },
{
    if cfg.interval_seconds < 60 {
        60
    } else {
        cfg.interval_seconds as u64
    }
}

// What the policy promises.

/// What is given up depends on nothing but the candidates and the policy: not on the order in
/// which the tags were read.
pub proof fn selection_is_determined(
    v: Seq<TagView>,
    w: Seq<TagView>,
    repo: Seq<char>,
    c: Seq<TagView>,
    d: Seq<TagView>,
    now: i64,
    cfg: RetentionCfg,
)
    requires
        is_selection(v, repo, c, now, cfg),
        is_selection(w, repo, d, now, cfg),
        c.to_multiset() == d.to_multiset(),
    ensures
        v == w,
{
    let s = choose|s: Seq<TagView>|
        #[trigger] ranks(s, c) && v == given_up_among(s, repo, now, cfg, s.len());
    let t = choose|t: Seq<TagView>|
        #[trigger] ranks(t, d) && w == given_up_among(t, repo, now, cfg, t.len());
    a_ranking_is_unique(s, t);
}

proof fn given_up_has_a_rank(
    s: Seq<TagView>,
    repo: Seq<char>,
    now: i64,
    cfg: RetentionCfg,
    n: nat,
    x: TagView,
)
    requires
        n <= s.len(),
        given_up_among(s, repo, now, cfg, n).contains(x),
    ensures
        exists|i: int| 0 <= i < n && #[trigger] given_up(s, repo, now, cfg, i) && s[i] == x,
    decreases n,
{
    if n > 0 {
        let before = given_up_among(s, repo, now, cfg, (n - 1) as nat);
        if before.contains(x) {
            given_up_has_a_rank(s, repo, now, cfg, (n - 1) as nat, x);
            let i = choose|i: int|
                0 <= i < n - 1 && #[trigger] given_up(s, repo, now, cfg, i) && s[i] == x;
            assert(given_up(s, repo, now, cfg, i));
        } else {
            text::contains_push(before, s[n - 1], x);
            assert(given_up(s, repo, now, cfg, n - 1));
        }
    }
}

/// Every tag that is given up is a candidate that ranks outside the window of the newest, that
/// was pushed before the recent days, and that the operator did not pin.
pub proof fn victims_have_no_reason_to_stay(
    victims: Seq<TagView>,
    repo: Seq<char>,
    c: Seq<TagView>,
    now: i64,
    cfg: RetentionCfg,
    x: TagView,
)
    requires
        is_selection(victims, repo, c, now, cfg),
        victims.contains(x),
    ensures
        exists|s: Seq<TagView>, i: int|
            #![trigger ranks(s, c), s[i]]
            ranks(s, c) && cfg.keep_newest <= i < s.len() && s[i] == x,
        c.contains(x),
        x.1 < now - cfg.keep_days * 86_400,
        !text::views(cfg.protect@).contains(repo + ":"@ + x.0),
{
    broadcast use vstd::seq_lib::group_to_multiset_ensures;

    let s = choose|s: Seq<TagView>|
        #[trigger] ranks(s, c) && victims == given_up_among(s, repo, now, cfg, s.len());
    given_up_has_a_rank(s, repo, now, cfg, s.len(), x);
    let i = choose|i: int|
        0 <= i < s.len() && #[trigger] given_up(s, repo, now, cfg, i) && s[i] == x;
    assert(s.contains(s[i]));
    assert(s.to_multiset().count(s[i]) > 0);
    assert(c.contains(s[i]));
    assert(ranks(s, c));
}

/// The newest candidates stay: where names are not repeated, no name that ranks inside the
/// window is given up.
pub proof fn the_newest_stay(
    victims: Seq<TagView>,
    repo: Seq<char>,
    c: Seq<TagView>,
    s: Seq<TagView>,
    now: i64,
    cfg: RetentionCfg,
    i: int,
)
    requires
        is_selection(victims, repo, c, now, cfg),
        ranks(s, c),
        forall|a: int, b: int|
            0 <= a < b < s.len() ==> (#[trigger] s[a]).0 != (#[trigger] s[b]).0,
        0 <= i < s.len(),
        i < cfg.keep_newest,
    ensures
        !names_of(victims).contains(s[i].0),
{
    let t = choose|t: Seq<TagView>|
        #[trigger] ranks(t, c) && victims == given_up_among(t, repo, now, cfg, t.len());
    a_ranking_is_unique(s, t);
    if names_of(victims).contains(s[i].0) {
        let x = victims[names_of(victims).index_of(s[i].0)];
        assert(victims.contains(x));
        given_up_has_a_rank(s, repo, now, cfg, s.len(), x);
        let j = choose|j: int|
            0 <= j < s.len() && #[trigger] given_up(s, repo, now, cfg, j) && s[j] == x;
        assert(s[j].0 == s[i].0);
        assert(j > i);
        assert(s[i].0 != s[j].0);
    }
}

/// Only tags that match the pattern are ever candidates.
pub proof fn only_matching_tags_are_candidates(
    tags: Seq<TagView>,
    pattern: Seq<char>,
    t: TagView,
)
    requires
        candidates(tags, pattern).contains(t),
    ensures
        regex_matches(pattern, t.0),
        tags.contains(t),
    decreases tags.len(),
{
    if tags.len() > 0 {
        let before = candidates(tags.drop_last(), pattern);
        if before.contains(t) {
            only_matching_tags_are_candidates(tags.drop_last(), pattern, t);
            let i = tags.drop_last().index_of(t);
            assert(tags[i] == t);
        } else {
            text::contains_push(before, tags.last(), t);
            assert(tags[tags.len() - 1] == t);
        }
    }
}

/// A repository without tags loses none.
pub proof fn an_empty_repository_loses_nothing(
    victims: Seq<TagView>,
    repo: Seq<char>,
    pattern: Seq<char>,
    now: i64,
    cfg: RetentionCfg,
)
    requires
        is_selection(victims, repo, candidates(Seq::empty(), pattern), now, cfg),
    ensures
        victims.len() == 0,
{
    broadcast use vstd::seq_lib::group_to_multiset_ensures;

    let c = candidates(Seq::empty(), pattern);
    let s = choose|s: Seq<TagView>|
        #[trigger] ranks(s, c) && victims == given_up_among(s, repo, now, cfg, s.len());
    assert(s.to_multiset().len() == s.len());
    assert(c.to_multiset().len() == c.len());
}

/// A push that comes while a sweep is under way loses nothing: a tag that was pushed anew since
/// the sweep read the tags keeps its new entry. It was pushed anew where the sweep read no push
/// of it at that time, or, as a policy of recent days spares what is as new as the sweep, where
/// it was not pushed before the sweep.
pub proof fn a_push_during_a_sweep_loses_nothing(
    victims: Seq<TagView>,
    rows: Seq<(String, String, i64)>,
    repo: Seq<char>,
    pattern: Seq<char>,
    now: i64,
    cfg: RetentionCfg,
    doc: truth::IndexView,
    digest: Seq<char>,
    entry: truth::ManifestEntryView,
    tag: Seq<char>,
    at: i64,
    later: i64,
)
    requires
        gives_up(victims, rows, repo, pattern, now, cfg),
        !tags_in(rows, repo).contains((tag, at)) || (at >= now && cfg.keep_days >= 0),
        truth::changed(
            truth::MutationView::Push { digest, entry, tag: Some(tag) },
            doc,
            at,
        ) is Ok,
    ensures
        ({
            let pushed = truth::changed(
                truth::MutationView::Push { digest, entry, tag: Some(tag) },
                doc,
                at,
            )->Ok_0.0;
            truth::changed(truth::MutationView::Untag(victims), pushed, later) matches Ok(
                (after, log),
            ) && {
                &&& after.tags.contains_key(tag)
                &&& after.tags[tag] == (truth::TagEntryView { digest, pushed_at: at })
                &&& after.manifests.contains_key(digest)
                &&& after.manifests[digest] == entry
            }
        }),
{
    let c = candidates(tags_in(rows, repo), pattern);
    if victims.contains((tag, at)) {
        victims_have_no_reason_to_stay(victims, repo, c, now, cfg, (tag, at));
        only_matching_tags_are_candidates(tags_in(rows, repo), pattern, (tag, at));
    }
    truth::a_repushed_tag_keeps_its_entry(doc, digest, entry, tag, at, victims, later);
}

proof fn given_up_is_listed(
    s: Seq<TagView>,
    repo: Seq<char>,
    now: i64,
    cfg: RetentionCfg,
    n: nat,
    i: int,
)
    requires
        i < n <= s.len(),
        given_up(s, repo, now, cfg, i),
    ensures
        given_up_among(s, repo, now, cfg, n).contains(s[i]),
    decreases n,
{
    let before = given_up_among(s, repo, now, cfg, (n - 1) as nat);
    text::contains_push(before, s[n - 1], s[i]);
    if i < n - 1 {
        given_up_is_listed(s, repo, now, cfg, (n - 1) as nat, i);
    }
}

proof fn listed_is_given_up(
    s: Seq<TagView>,
    repo: Seq<char>,
    now: i64,
    cfg: RetentionCfg,
    n: nat,
    x: TagView,
)
    requires
        n <= s.len(),
        given_up_among(s, repo, now, cfg, n).contains(x),
    ensures
        exists|i: int| 0 <= i < n && s[i] == x && #[trigger] given_up(s, repo, now, cfg, i),
    decreases n,
{
    if n > 0 {
        let before = given_up_among(s, repo, now, cfg, (n - 1) as nat);
        text::contains_push(before, s[n - 1], x);
        if before.contains(x) {
            listed_is_given_up(s, repo, now, cfg, (n - 1) as nat, x);
            let i = choose|i: int|
                0 <= i < n - 1 && s[i] == x && #[trigger] given_up(s, repo, now, cfg, i);
            assert(given_up(s, repo, now, cfg, i));
        } else {
            assert(given_up(s, repo, now, cfg, n - 1));
        }
    }
}

/// The policy gives up all that it has no reason to keep. Where `s` holds the candidates by
/// the time of their push, the latest first and those of one moment by name, a candidate goes
/// exactly where it stands behind the first `keep_newest`, was pushed more than `keep_days` days
/// ago, and its own `repo:tag` is not among the texts that the operator pinned.
pub proof fn the_selection_is_complete(
    victims: Seq<TagView>,
    repo: Seq<char>,
    c: Seq<TagView>,
    now: i64,
    cfg: RetentionCfg,
    s: Seq<TagView>,
)
    requires
        is_selection(victims, repo, c, now, cfg),
        s.to_multiset() == c.to_multiset(),
        forall|i: int, j: int|
            0 <= i < j < s.len() ==> (#[trigger] s[i]).1 >= (#[trigger] s[j]).1 && (s[i].1 == s[j].1
                ==> !text::lex_lt(s[j].0, s[i].0)),
    ensures
        forall|i: int|
            cfg.keep_newest <= i < s.len() && (#[trigger] s[i]).1 < now - cfg.keep_days * 86_400
                && !text::views(cfg.protect@).contains(repo + ":"@ + s[i].0) ==> victims.contains(
                s[i],
            ),
        forall|x: TagView| #[trigger]
            victims.contains(x) ==> exists|i: int|
                cfg.keep_newest <= i < s.len() && (#[trigger] s[i]) == x && s[i].1 < now
                    - cfg.keep_days * 86_400 && !text::views(cfg.protect@).contains(
                    repo + ":"@ + s[i].0,
                ),
{
    let t = choose|t: Seq<TagView>|
        #[trigger] ranks(t, c) && victims == given_up_among(t, repo, now, cfg, t.len());
    assert(newest_first(s));
    a_ranking_is_unique(s, t);
    assert forall|i: int|
        cfg.keep_newest <= i < s.len() && (#[trigger] s[i]).1 < now - cfg.keep_days * 86_400
            && !text::views(cfg.protect@).contains(repo + ":"@ + s[i].0) implies victims.contains(
        s[i],
    ) by {
        assert(given_up(s, repo, now, cfg, i));
        given_up_is_listed(s, repo, now, cfg, s.len(), i);
    }
    assert forall|x: TagView| #[trigger] victims.contains(x) implies exists|i: int|
        cfg.keep_newest <= i < s.len() && (#[trigger] s[i]) == x && s[i].1 < now - cfg.keep_days
            * 86_400 && !text::views(cfg.protect@).contains(repo + ":"@ + s[i].0) by {
        listed_is_given_up(s, repo, now, cfg, s.len(), x);
        let i = choose|i: int|
            0 <= i < s.len() && s[i] == x && #[trigger] given_up(s, repo, now, cfg, i);
        assert(s[i] == x);
    }
}

/// The names that are given up are those of the tags that are, in their order.
pub proof fn the_names_given_up(
    names: Seq<Seq<char>>,
    repo: Seq<char>,
    c: Seq<TagView>,
    now: i64,
    cfg: RetentionCfg,
    victims: Seq<TagView>,
)
    requires
        names_selected(names, repo, c, now, cfg),
        is_selection(victims, repo, c, now, cfg),
    ensures
        names.len() == victims.len(),
        forall|i: int| 0 <= i < names.len() ==> #[trigger] names[i] == victims[i].0,
{
    let v = choose|v: Seq<TagView>|
        #[trigger] is_selection(v, repo, c, now, cfg) && names == names_of(v);
    selection_is_determined(v, victims, repo, c, c, now, cfg);
}

proof fn candidates_of_parts(a: Seq<TagView>, b: Seq<TagView>, pattern: Seq<char>)
    ensures
        candidates(a + b, pattern) == candidates(a, pattern) + candidates(b, pattern),
    decreases b.len(),
{
    if b.len() == 0 {
        assert(a + b =~= a);
        assert(candidates(a, pattern) + candidates(b, pattern) =~= candidates(a, pattern));
    } else {
        assert((a + b).drop_last() =~= a + b.drop_last());
        candidates_of_parts(a, b.drop_last(), pattern);
        let x = candidates(a, pattern);
        let y = candidates(b.drop_last(), pattern);
        assert(x + y.push(b.last()) =~= (x + y).push(b.last()));
    }
}

/// A tag is a candidate exactly where the pattern matches its name, as often as it occurs and
/// whatever other tags there are.
pub proof fn every_matching_tag_is_a_candidate(
    a: Seq<TagView>,
    b: Seq<TagView>,
    t: TagView,
    pattern: Seq<char>,
)
    ensures
        candidates(a, pattern).contains(t) <==> a.contains(t) && regex_matches(pattern, t.0),
        regex_matches(pattern, t.0) ==> candidates(seq![t], pattern) == seq![t],
        !regex_matches(pattern, t.0) ==> candidates(seq![t], pattern).len() == 0,
        candidates(a + b, pattern) == candidates(a, pattern) + candidates(b, pattern),
    decreases a.len(),
{
    candidates_of_parts(a, b, pattern);
    assert(seq![t].drop_last() =~= Seq::<TagView>::empty());
    reveal_with_fuel(candidates, 2);
    assert(Seq::<TagView>::empty().push(t) =~= seq![t]);
    if a.len() > 0 {
        every_matching_tag_is_a_candidate(a.drop_last(), b, t, pattern);
        assert(a =~= a.drop_last().push(a.last()));
        text::contains_push(a.drop_last(), a.last(), t);
        text::contains_push(candidates(a.drop_last(), pattern), a.last(), t);
    }
}

proof fn tags_of_parts(
    a: Seq<(String, String, i64)>,
    b: Seq<(String, String, i64)>,
    repo: Seq<char>,
)
    ensures
        tags_in(a + b, repo) == tags_in(a, repo) + tags_in(b, repo),
    decreases b.len(),
{
    if b.len() == 0 {
        assert(a + b =~= a);
        assert(tags_in(a, repo) + tags_in(b, repo) =~= tags_in(a, repo));
    } else {
        assert((a + b).drop_last() =~= a + b.drop_last());
        tags_of_parts(a, b.drop_last(), repo);
        let x = tags_in(a, repo);
        let y = tags_in(b.drop_last(), repo);
        let t = (b.last().1@, b.last().2);
        assert(x + y.push(t) =~= (x + y).push(t));
    }
}

/// A row is a tag of the repository that it names and of no other, with its own name and time,
/// whatever other rows there are.
pub proof fn every_row_is_a_tag_of_its_repository(
    a: Seq<(String, String, i64)>,
    b: Seq<(String, String, i64)>,
    row: (String, String, i64),
    repo: Seq<char>,
)
    ensures
        tags_in(seq![row], row.0@) == seq![(row.1@, row.2)],
        repo != row.0@ ==> tags_in(seq![row], repo).len() == 0,
        tags_in(Seq::empty(), repo).len() == 0,
        tags_in(a + b, repo) == tags_in(a, repo) + tags_in(b, repo),
{
    tags_of_parts(a, b, repo);
    assert(seq![row].drop_last() =~= Seq::<(String, String, i64)>::empty());
    reveal_with_fuel(tags_in, 2);
    assert(Seq::<TagView>::empty().push((row.1@, row.2)) =~= seq![(row.1@, row.2)]);
}

proof fn tags_in_holds(rows: Seq<(String, String, i64)>, repo: Seq<char>, t: TagView)
    ensures
        tags_in(rows, repo).contains(t) <==> exists|k: int|
            0 <= k < rows.len() && (#[trigger] rows[k]).0@ == repo && rows[k].1@ == t.0 && rows[k].2
                == t.1,
    decreases rows.len(),
{
    if rows.len() > 0 {
        let rest = rows.drop_last();
        tags_in_holds(rest, repo, t);
        text::contains_push(tags_in(rest, repo), (rows.last().1@, rows.last().2), t);
        assert(forall|k: int| 0 <= k < rest.len() ==> rest[k] == rows[k]);
        if tags_in(rest, repo).contains(t) {
            let k = choose|k: int|
                0 <= k < rest.len() && (#[trigger] rest[k]).0@ == repo && rest[k].1@ == t.0
                    && rest[k].2 == t.1;
            assert(rows[k].0@ == repo);
        }
        assert(rows[rows.len() - 1] == rows.last());
    }
}

/// What a sweep gives up of a repository are tags that it has and that the pattern matches; and
/// with no window of newest tags, each of its tags that the pattern matches, that was pushed
/// more than `keep_days` days ago and that is not pinned itself is given up.
pub proof fn a_sweep_gives_up_matching_rows(
    victims: Seq<TagView>,
    rows: Seq<(String, String, i64)>,
    repo: Seq<char>,
    pattern: Seq<char>,
    now: i64,
    cfg: RetentionCfg,
    t: TagView,
)
    requires
        gives_up(victims, rows, repo, pattern, now, cfg),
    ensures
        victims.contains(t) ==> {
            &&& exists|k: int|
                0 <= k < rows.len() && (#[trigger] rows[k]).0@ == repo && rows[k].1@ == t.0
                    && rows[k].2 == t.1
            &&& regex_matches(pattern, t.0)
            &&& t.1 < now - cfg.keep_days * 86_400
            &&& !text::views(cfg.protect@).contains(repo + ":"@ + t.0)
        },
        cfg.keep_newest == 0 && (exists|k: int|
            0 <= k < rows.len() && (#[trigger] rows[k]).0@ == repo && rows[k].1@ == t.0 && rows[k].2
                == t.1) && regex_matches(pattern, t.0) && t.1 < now - cfg.keep_days * 86_400
            && !text::views(cfg.protect@).contains(repo + ":"@ + t.0) ==> victims.contains(t),
{
    broadcast use vstd::seq_lib::group_to_multiset_ensures;

    let all = tags_in(rows, repo);
    let c = candidates(all, pattern);
    let s = choose|s: Seq<TagView>|
        #[trigger] ranks(s, c) && victims == given_up_among(s, repo, now, cfg, s.len());
    tags_in_holds(rows, repo, t);
    every_matching_tag_is_a_candidate(all, Seq::empty(), t, pattern);
    assert(s.contains(t) <==> c.contains(t)) by {
        assert(s.to_multiset().count(t) == c.to_multiset().count(t));
    }
    if victims.contains(t) {
        listed_is_given_up(s, repo, now, cfg, s.len(), t);
    }
    if cfg.keep_newest == 0 && c.contains(t) && t.1 < now - cfg.keep_days * 86_400
        && !text::views(cfg.protect@).contains(repo + ":"@ + t.0) {
        let i = s.index_of(t);
        assert(given_up(s, repo, now, cfg, i));
        given_up_is_listed(s, repo, now, cfg, s.len(), i);
    }
}

/// How many tags a plan gives up: for two lists of repositories what the two have together, and
/// for one repository as many as it loses.
pub proof fn given_tags_add_up(a: Seq<Given>, b: Seq<Given>, g: Given)
    ensures
        given_count(Seq::empty()) == 0,
        given_count(seq![g]) == g.tags@.len(),
        given_count(a + b) == given_count(a) + given_count(b),
    decreases b.len(),
{
    assert(seq![g].drop_last() =~= Seq::empty());
    reveal_with_fuel(given_count, 2);
    if b.len() == 0 {
        assert(a + b =~= a);
    } else {
        assert((a + b).drop_last() =~= a + b.drop_last());
        given_tags_add_up(a, b.drop_last(), g);
    }
}

/// What a sweep gives up of a repository, by rank: where `s` holds the matching tags of the
/// repository by the time of their push, the latest first and those of one moment by name, a tag
/// is given up exactly where it stands behind the first `keep_newest`, was pushed more than
/// `keep_days` days ago, and is not pinned itself.
pub proof fn a_sweep_gives_up_by_rank(
    victims: Seq<TagView>,
    rows: Seq<(String, String, i64)>,
    repo: Seq<char>,
    pattern: Seq<char>,
    now: i64,
    cfg: RetentionCfg,
    s: Seq<TagView>,
    x: TagView,
)
    requires
        gives_up(victims, rows, repo, pattern, now, cfg),
        s.to_multiset() == candidates(tags_in(rows, repo), pattern).to_multiset(),
        forall|i: int, j: int|
            0 <= i < j < s.len() ==> (#[trigger] s[i]).1 >= (#[trigger] s[j]).1 && (s[i].1 == s[j].1
                ==> !text::lex_lt(s[j].0, s[i].0)),
    ensures
        victims.contains(x) <==> exists|i: int|
            cfg.keep_newest <= i < s.len() && (#[trigger] s[i]) == x && s[i].1 < now - cfg.keep_days
                * 86_400 && !text::views(cfg.protect@).contains(repo + ":"@ + s[i].0),
{
    the_selection_is_complete(
        victims,
        repo,
        candidates(tags_in(rows, repo), pattern),
        now,
        cfg,
        s,
    );
}

proof fn given_up_in_order(
    s: Seq<TagView>,
    repo: Seq<char>,
    now: i64,
    cfg: RetentionCfg,
    n: nat,
)
    requires
        newest_first(s),
        n <= s.len(),
    ensures
        forall|i: int, j: int|
            0 <= i < j < given_up_among(s, repo, now, cfg, n).len() ==> !newer(
                #[trigger] given_up_among(s, repo, now, cfg, n)[j],
                #[trigger] given_up_among(s, repo, now, cfg, n)[i],
            ),
    decreases n,
{
    if n > 0 {
        let before = given_up_among(s, repo, now, cfg, (n - 1) as nat);
        let all = given_up_among(s, repo, now, cfg, n);
        given_up_in_order(s, repo, now, cfg, (n - 1) as nat);
        assert forall|i: int, j: int| 0 <= i < j < all.len() implies !newer(
            #[trigger] all[j],
            #[trigger] all[i],
        ) by {
            assert(all[i] == before[i]);
            if j < before.len() {
                assert(all[j] == before[j]);
            } else {
                assert(before.contains(before[i]));
                listed_is_given_up(s, repo, now, cfg, (n - 1) as nat, before[i]);
                let k = choose|k: int|
                    0 <= k < n - 1 && s[k] == before[i] && #[trigger] given_up(
                        s,
                        repo,
                        now,
                        cfg,
                        k,
                    );
                assert(!newer(s[n - 1], s[k]));
            }
        }
    }
}

/// What is given up is told from the newest to the oldest, and `keep_newest` candidates stay at
/// least.
pub proof fn the_newest_are_told_first(
    victims: Seq<TagView>,
    repo: Seq<char>,
    c: Seq<TagView>,
    now: i64,
    cfg: RetentionCfg,
)
    requires
        is_selection(victims, repo, c, now, cfg),
    ensures
        forall|i: int, j: int|
            0 <= i < j < victims.len() ==> (#[trigger] victims[i]).1 >= (#[trigger] victims[j]).1,
        victims.len() <= if c.len() > cfg.keep_newest {
            c.len() - cfg.keep_newest
        } else {
            0
        },
{
    broadcast use vstd::seq_lib::group_to_multiset_ensures;

    let s = choose|s: Seq<TagView>|
        #[trigger] ranks(s, c) && victims == given_up_among(s, repo, now, cfg, s.len());
    given_up_in_order(s, repo, now, cfg, s.len());
    assert forall|i: int, j: int| 0 <= i < j < victims.len() implies (#[trigger] victims[i]).1 >= (
    #[trigger] victims[j]).1 by {
        assert(!newer(victims[j], victims[i]));
    }
    assert(s.to_multiset().len() == s.len());
    assert(c.to_multiset().len() == c.len());
    few_are_given_up(s, repo, now, cfg, s.len());
}

proof fn few_are_given_up(
    s: Seq<TagView>,
    repo: Seq<char>,
    now: i64,
    cfg: RetentionCfg,
    n: nat,
)
    requires
        n <= s.len(),
    ensures
        given_up_among(s, repo, now, cfg, n).len() <= if n > cfg.keep_newest {
            n - cfg.keep_newest
        } else {
            0
        },
    decreases n,
{
    if n > 0 {
        few_are_given_up(s, repo, now, cfg, (n - 1) as nat);
    }
}

/// Tags are sorted by repository: each row is in the one group of its repository, and what is in a
/// group is a row of that repository.
pub proof fn every_row_is_in_its_group(
    groups: Seq<Group>,
    rows: Seq<(String, String, i64)>,
    k: int,
    g: int,
    t: TagView,
)
    requires
        sorts(groups, rows),
    ensures
        0 <= k < rows.len() ==> exists|i: int|
            0 <= i < groups.len() && (#[trigger] groups[i]).repo@ == rows[k].0@ && tag_views(
                groups[i].tags@,
            ).contains((rows[k].1@, rows[k].2)),
        0 <= g < groups.len() && tag_views(groups[g].tags@).contains(t) ==> exists|i: int|
            0 <= i < rows.len() && (#[trigger] rows[i]).0@ == groups[g].repo@ && rows[i].1@ == t.0
                && rows[i].2 == t.1,
        forall|i: int, j: int|
            0 <= i < j < groups.len() ==> (#[trigger] groups[i]).repo@ != (
            #[trigger] groups[j]).repo@,
{
    if 0 <= k < rows.len() {
        let repo = rows[k].0@;
        tags_in_holds(rows, repo, (rows[k].1@, rows[k].2));
        assert(rows[k].0@ == repo);
        assert(tags_in(rows, repo).contains((rows[k].1@, rows[k].2)));
        assert(tags_in(rows, repo).len() > 0);
        let i = choose|i: int| 0 <= i < groups.len() && (#[trigger] groups[i]).repo@ == repo;
        assert(groups[i].repo@ == repo);
    }
    if 0 <= g < groups.len() {
        tags_in_holds(rows, groups[g].repo@, t);
    }
}

/// Groups hold as many tags together as each of them does.
pub proof fn grouped_tags_add_up(groups: Seq<Group>, g: Group)
    ensures
        tag_count(Seq::empty()) == 0,
        tag_count(groups.push(g)) == tag_count(groups) + g.tags@.len(),
{
    assert(groups.push(g).drop_last() =~= groups);
}

} // verus!
