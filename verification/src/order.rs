//! Sorting text.

use crate::table;
use crate::text;
use vstd::prelude::*;
use vstd::string::*;

verus! {

/// Everything in `s` comes before `x`.
spec fn all_before(s: Seq<Seq<char>>, x: Seq<char>) -> bool {
    forall|i: int| 0 <= i < s.len() ==> text::lex_lt(#[trigger] s[i], x)
}

proof fn push_ascending(s: Seq<Seq<char>>, x: Seq<char>)
    requires
        table::ascending(s),
        all_before(s, x),
    ensures
        table::ascending(s.push(x)),
{
    let t = s.push(x);
    assert forall|i: int, j: int| 0 <= i < j < t.len() implies text::lex_lt(
        #[trigger] t[i],
        #[trigger] t[j],
    ) by {
        assert(t[i] == s[i]);
        if j < s.len() {
            assert(t[j] == s[j]);
        }
    }
}

proof fn all_before_step(s: Seq<Seq<char>>, x: Seq<char>, y: Seq<char>)
    requires
        all_before(s, x),
        text::lex_lt(x, y),
    ensures
        all_before(s, y),
        all_before(s.push(x), y),
{
    assert forall|i: int| 0 <= i < s.len() implies text::lex_lt(#[trigger] s[i], y) by {
        text::lex_transitive(s[i], x, y);
    }
    assert forall|i: int| 0 <= i < s.push(x).len() implies text::lex_lt(
        #[trigger] s.push(x)[i],
        y,
    ) by {
        if i < s.len() {
            assert(s.push(x)[i] == s[i]);
        }
    }
}

/// The union of two ascending lists.
fn merge(a: &Vec<String>, b: &Vec<String>) -> (r: Vec<String>)
    requires
        table::ascending(text::views(a@)),
        table::ascending(text::views(b@)),
    ensures
        table::ascending(text::views(r@)),
        forall|x: Seq<char>|
            #[trigger] text::views(r@).contains(x) <==> text::views(a@).contains(x) || text::views(
                b@,
            ).contains(x),
{
    let ghost va = text::views(a@);
    let ghost vb = text::views(b@);
    let mut r: Vec<String> = Vec::new();
    let mut i: usize = 0;
    let mut j: usize = 0;
    while i < a.len() || j < b.len()
        invariant
            i <= a@.len(),
            j <= b@.len(),
            va == text::views(a@),
            vb == text::views(b@),
            table::ascending(va),
            table::ascending(vb),
            table::ascending(text::views(r@)),
            i < va.len() ==> all_before(text::views(r@), va[i as int]),
            j < vb.len() ==> all_before(text::views(r@), vb[j as int]),
            forall|x: Seq<char>|
                #[trigger] text::views(r@).contains(x) <==> va.take(i as int).contains(x)
                    || vb.take(j as int).contains(x),
        decreases a@.len() - i + b@.len() - j,
    {
        let ghost before = text::views(r@);
        let from_a = i < a.len() && (j >= b.len() || !text::before(b[j].as_str(), a[i].as_str()));
        let from_b = j < b.len() && (i >= a.len() || !text::before(a[i].as_str(), b[j].as_str()));
        proof {
            if i < a@.len() && j < b@.len() {
                text::lex_total(va[i as int], vb[j as int]);
                if text::lex_lt(va[i as int], vb[j as int]) {
                    text::lex_asymmetric(va[i as int], vb[j as int]);
                }
                if text::lex_lt(vb[j as int], va[i as int]) {
                    text::lex_asymmetric(vb[j as int], va[i as int]);
                }
            }
        }
        let ghost x = if from_a {
            va[i as int]
        } else {
            vb[j as int]
        };
        let next = if from_a {
            a[i].clone()
        } else {
            b[j].clone()
        };
        r.push(next);
        proof {
            assert(text::views(r@) =~= before.push(x));
            push_ascending(before, x);
            if from_a {
                assert(va.take(i + 1) =~= va.take(i as int).push(va[i as int]));
                if i + 1 < va.len() {
                    all_before_step(before, x, va[i + 1]);
                }
                if !from_b && j < vb.len() {
                    all_before_step(before, x, vb[j as int]);
                }
            }
            if from_b {
                assert(vb.take(j + 1) =~= vb.take(j as int).push(vb[j as int]));
                if j + 1 < vb.len() {
                    all_before_step(before, x, vb[j + 1]);
                }
                if !from_a && i < va.len() {
                    all_before_step(before, x, va[i as int]);
                }
            }
            let ni = if from_a {
                i + 1
            } else {
                i as int
            };
            let nj = if from_b {
                j + 1
            } else {
                j as int
            };
            assert forall|y: Seq<char>| #[trigger] text::views(r@).contains(y) <==> va.take(
                ni,
            ).contains(y) || vb.take(nj).contains(y) by {
                text::contains_push(before, x, y);
                if from_a {
                    text::contains_push(va.take(i as int), va[i as int], y);
                }
                if from_b {
                    text::contains_push(vb.take(j as int), vb[j as int], y);
                }
            }
        }
        if from_a {
            i += 1;
        }
        if from_b {
            j += 1;
        }
    }
    proof {
        assert(va.take(i as int) =~= va);
        assert(vb.take(j as int) =~= vb);
    }
    r
}

fn sort_part(list: &Vec<String>, from: usize, to: usize) -> (r: Vec<String>)
    requires
        from <= to <= list@.len(),
    ensures
        table::ascending(text::views(r@)),
        forall|x: Seq<char>|
            #[trigger] text::views(r@).contains(x) <==> text::views(list@).subrange(
                from as int,
                to as int,
            ).contains(x),
    decreases to - from,
{
    let ghost all = text::views(list@);
    let mut r: Vec<String> = Vec::new();
    if from == to {
        return r;
    }
    if to - from == 1 {
        r.push(list[from].clone());
        proof {
            assert(text::views(r@) =~= all.subrange(from as int, to as int));
        }
        return r;
    }
    let mid: usize = from + (to - from) / 2;
    let a = sort_part(list, from, mid);
    let b = sort_part(list, mid, to);
    let r = merge(&a, &b);
    proof {
        let s = all.subrange(from as int, to as int);
        let s1 = all.subrange(from as int, mid as int);
        let s2 = all.subrange(mid as int, to as int);
        assert(s =~= s1 + s2);
        assert forall|x: Seq<char>| #[trigger] text::views(r@).contains(x) <==> s.contains(x) by {
            if s1.contains(x) {
                assert(s[s1.index_of(x)] == x);
            }
            if s2.contains(x) {
                assert(s[s1.len() + s2.index_of(x)] == x);
            }
            if s.contains(x) {
                let k = s.index_of(x);
                if k < s1.len() {
                    assert(s1[k] == x);
                } else {
                    assert(s2[k - s1.len()] == x);
                }
            }
        }
    }
    r
}

/// The strings of a list in ascending order, each once.
pub fn sorted(list: &Vec<String>) -> (r: Vec<String>)
    ensures
        table::ascending(text::views(r@)),
        text::views(r@).to_set() == text::views(list@).to_set(),
{
    let r = sort_part(list, 0, list.len());
    proof {
        let all = text::views(list@);
        assert(all.subrange(0, list@.len() as int) =~= all);
        assert forall|x: Seq<char>| text::views(r@).to_set().contains(x) == all.to_set().contains(
            x,
        ) by {
            assert(text::views(r@).contains(x) <==> all.contains(x));
        }
        assert(text::views(r@).to_set() =~= all.to_set());
    }
    r
}

/// Two ascending lists of the same strings are the same list.
pub proof fn ascending_is_unique(a: Seq<Seq<char>>, b: Seq<Seq<char>>)
    requires
        table::ascending(a),
        table::ascending(b),
        a.to_set() == b.to_set(),
    ensures
        a == b,
    decreases a.len(),
{
    if a.len() == 0 || b.len() == 0 {
        if a.len() > 0 {
            assert(a.to_set().contains(a[0]));
            assert(b.contains(a[0]));
        }
        if b.len() > 0 {
            assert(b.to_set().contains(b[0]));
            assert(a.contains(b[0]));
        }
        assert(a =~= b);
    } else {
        let la = a.last();
        let lb = b.last();
        assert(a.to_set().contains(la) && b.to_set().contains(lb));
        assert(b.contains(la) && a.contains(lb));
        if la != lb {
            let i = a.index_of(lb);
            let j = b.index_of(la);
            assert(text::lex_lt(a[i], a[a.len() - 1]));
            assert(text::lex_lt(b[j], b[b.len() - 1]));
            text::lex_asymmetric(la, lb);
        }
        let ra = a.drop_last();
        let rb = b.drop_last();
        table::ascending_distinct(a);
        table::ascending_distinct(b);
        assert(table::ascending(ra)) by {
            assert forall|i: int, j: int| 0 <= i < j < ra.len() implies text::lex_lt(
                #[trigger] ra[i],
                #[trigger] ra[j],
            ) by {
                assert(ra[i] == a[i] && ra[j] == a[j]);
            }
        }
        assert(table::ascending(rb)) by {
            assert forall|i: int, j: int| 0 <= i < j < rb.len() implies text::lex_lt(
                #[trigger] rb[i],
                #[trigger] rb[j],
            ) by {
                assert(rb[i] == b[i] && rb[j] == b[j]);
            }
        }
        assert forall|x: Seq<char>| ra.to_set().contains(x) == rb.to_set().contains(x) by {
            if ra.contains(x) {
                let i = ra.index_of(x);
                assert(a[i] == x && x != la);
                assert(a.to_set().contains(x));
                assert(b.contains(x));
                let j = b.index_of(x);
                assert(rb[j] == x);
            }
            if rb.contains(x) {
                let j = rb.index_of(x);
                assert(b[j] == x && x != lb);
                assert(b.to_set().contains(x));
                assert(a.contains(x));
                let i = a.index_of(x);
                assert(ra[i] == x);
            }
        }
        assert(ra.to_set() =~= rb.to_set());
        ascending_is_unique(ra, rb);
        assert(a =~= ra.push(la));
        assert(b =~= rb.push(lb));
    }
}

} // verus!
