//! Text as sequences of characters: searching, splitting and ordering.

use vstd::hash_set::StringHashSet;
use vstd::prelude::*;
use vstd::std_specs::iter::IteratorSpec;
use vstd::string::*;

verus! {

/// `String::push` appends one character.
pub assume_specification[ String::push ](s: &mut String, c: char)
    ensures
        final(s)@ == old(s)@.push(c),
;

/// The views of a list of strings.
pub open spec fn views(v: Seq<String>) -> Seq<Seq<char>> {
    v.map_values(|s: String| s@)
}

/// The view of an optional string.
pub open spec fn opt_view(o: Option<String>) -> Option<Seq<char>> {
    match o {
        Some(s) => Some(s@),
        None => None,
    }
}

/// The view of an optional string slice.
pub open spec fn opt_str(o: Option<&str>) -> Option<Seq<char>> {
    match o {
        Some(s) => Some(s@),
        None => None,
    }
}

/// The characters of a string.
pub fn chars_of(s: &str) -> (v: Vec<char>)
    ensures
        v@ == s@,
{
    let mut v: Vec<char> = Vec::new();
    for c in it: s.chars()
        invariant
            v@ == s@.take(it.index() as int),
            it.seq() == s@,
    {
        v.push(c);
    }
    v
}

/// The string spelled by `v[from..to]`.
pub fn text_of(v: &Vec<char>, from: usize, to: usize) -> (s: String)
    requires
        from <= to <= v@.len(),
    ensures
        s@ == v@.subrange(from as int, to as int),
{
    let mut s = String::new();
    let mut i: usize = from;
    while i < to
        invariant
            from <= i <= to <= v@.len(),
            s@ == v@.subrange(from as int, i as int),
        decreases to - i,
    {
        s.push(v[i]);
        proof {
            assert(v@.subrange(from as int, i + 1) =~= v@.subrange(from as int, i as int).push(v@[i as int]));
        }
        i += 1;
    }
    s
}

/// Whether two strings hold the same characters.
pub fn same(a: &str, b: &str) -> (r: bool)
    ensures
        r == (a@ == b@),
{
    let mut ia = a.chars();
    let mut ib = b.chars();
    loop
        invariant
            (a@ == b@) == (ia.remaining() == ib.remaining()),
            ia.decrease() is Some,
        decreases ia.decrease()->0,
    {
        let ghost ra = ia.remaining();
        let ghost rb = ib.remaining();
        let x = ia.next();
        let y = ib.next();
        match (x, y) {
            (Some(c), Some(d)) => {
                if c != d {
                    assert(ra[0] != rb[0]);
                    return false;
                }
                proof {
                    assert(ra =~= seq![c] + ra.drop_first());
                    assert(rb =~= seq![c] + rb.drop_first());
                }
            },
            (None, None) => {
                assert(ra =~= rb);
                return true;
            },
            _ => {
                assert(ra.len() != rb.len());
                return false;
            },
        }
    }
}

/// Lexicographic order by code point, which is also the order of the UTF-8 bytes.
pub open spec fn lex_lt(a: Seq<char>, b: Seq<char>) -> bool
    decreases a.len(),
{
    if b.len() == 0 {
        false
    } else if a.len() == 0 {
        true
    } else if a[0] == b[0] {
        lex_lt(a.skip(1), b.skip(1))
    } else {
        a[0] < b[0]
    }
}

/// The order is total: of two different texts one comes first.
pub proof fn lex_total(a: Seq<char>, b: Seq<char>)
    ensures
        a != b ==> lex_lt(a, b) || lex_lt(b, a),
    decreases a.len(),
{
    if a.len() > 0 && b.len() > 0 && a[0] == b[0] {
        lex_total(a.skip(1), b.skip(1));
        if a.skip(1) == b.skip(1) {
            assert(a =~= seq![a[0]] + a.skip(1));
            assert(b =~= seq![b[0]] + b.skip(1));
        }
    } else if a.len() == 0 && b.len() == 0 {
        assert(a =~= b);
    }
}

/// No text comes before itself.
pub proof fn lex_irreflexive(a: Seq<char>)
    ensures
        !lex_lt(a, a),
    decreases a.len(),
{
    if a.len() > 0 {
        lex_irreflexive(a.skip(1));
    }
}

/// The order is transitive.
pub proof fn lex_transitive(a: Seq<char>, b: Seq<char>, c: Seq<char>)
    requires
        lex_lt(a, b),
        lex_lt(b, c),
    ensures
        lex_lt(a, c),
    decreases a.len(),
{
    if a.len() > 0 && b.len() > 0 && c.len() > 0 && a[0] == b[0] && b[0] == c[0] {
        lex_transitive(a.skip(1), b.skip(1), c.skip(1));
    }
}

/// The order is asymmetric.
pub proof fn lex_asymmetric(a: Seq<char>, b: Seq<char>)
    requires
        lex_lt(a, b),
    ensures
        !lex_lt(b, a),
        a != b,
{
    lex_irreflexive(a);
    if lex_lt(b, a) {
        lex_transitive(a, b, a);
    }
}

/// Whether `a` comes before `b`.
pub fn before(a: &str, b: &str) -> (r: bool)
    ensures
        r == lex_lt(a@, b@),
{
    let mut ia = a.chars();
    let mut ib = b.chars();
    loop
        invariant
            lex_lt(a@, b@) == lex_lt(ia.remaining(), ib.remaining()),
            ia.decrease() is Some,
        decreases ia.decrease()->0,
    {
        let ghost ra = ia.remaining();
        let ghost rb = ib.remaining();
        let x = ia.next();
        let y = ib.next();
        match (x, y) {
            (Some(c), Some(d)) => {
                if c != d {
                    return c < d;
                }
                proof {
                    assert(ra.skip(1) =~= ra.drop_first());
                    assert(rb.skip(1) =~= rb.drop_first());
                }
            },
            (None, Some(_)) => {
                return true;
            },
            _ => {
                return false;
            },
        }
    }
}

/// `m` occurs in `s` at position `i`.
pub open spec fn occurs_at(s: Seq<char>, i: int, m: Seq<char>) -> bool {
    0 <= i && i + m.len() <= s.len() && s.subrange(i, i + m.len()) == m
}

fn matches_at(s: &Vec<char>, i: usize, m: &Vec<char>) -> (r: bool)
    ensures
        r == occurs_at(s@, i as int, m@),
{
    if m.len() > s.len() || i > s.len() - m.len() {
        return false;
    }
    let mut k: usize = 0;
    while k < m.len()
        invariant
            k <= m@.len(),
            i + m.len() <= s.len(),
            forall|j: int| 0 <= j < k ==> s@[i + j] == m@[j],
        decreases m@.len() - k,
    {
        if s[i + k] != m[k] {
            assert(s@.subrange(i as int, i + m@.len())[k as int] != m@[k as int]);
            return false;
        }
        k += 1;
    }
    assert(s@.subrange(i as int, i + m@.len()) =~= m@);
    true
}

/// The last position not after `i` at which `m` occurs in `s`, or `-1`.
pub open spec fn last_from(s: Seq<char>, m: Seq<char>, i: int) -> int
    decreases i + 1,
{
    if i < 0 {
        -1
    } else if occurs_at(s, i, m) {
        i
    } else {
        last_from(s, m, i - 1)
    }
}

/// The last position at which `m` occurs in `s`, or `-1`.
pub open spec fn last_of(s: Seq<char>, m: Seq<char>) -> int {
    last_from(s, m, s.len() as int)
}

/// `last_from` is the greatest position of an occurrence up to `i`.
pub proof fn last_from_is_last(s: Seq<char>, m: Seq<char>, i: int)
    requires
        i >= -1,
    ensures
        -1 <= last_from(s, m, i) <= i,
        last_from(s, m, i) >= 0 ==> occurs_at(s, last_from(s, m, i), m),
        forall|j: int| last_from(s, m, i) < j <= i ==> !occurs_at(s, j, m),
    decreases i + 1,
{
    if i >= 0 && !occurs_at(s, i, m) {
        last_from_is_last(s, m, i - 1);
    }
}

/// The position of the last occurrence of `m` in `s`.
pub fn rfind(s: &Vec<char>, m: &Vec<char>) -> (r: Option<usize>)
    ensures
        match r {
            Some(i) => last_of(s@, m@) == i,
            None => last_of(s@, m@) == -1,
        },
{
    let mut i: usize = s.len();
    loop
        invariant
            i <= s@.len(),
            last_of(s@, m@) == last_from(s@, m@, i as int),
        decreases i,
    {
        if matches_at(s, i, m) {
            return Some(i);
        }
        if i == 0 {
            assert(last_from(s@, m@, -1) == -1);
            return None;
        }
        i -= 1;
    }
}

/// Whether `s` begins with `p`.
pub fn has_prefix(s: &str, p: &str) -> (r: bool)
    ensures
        r == p@.is_prefix_of(s@),
{
    let cs = chars_of(s);
    let cp = chars_of(p);
    matches_at(&cs, 0, &cp)
}

/// What follows the prefix `p` in `s`, if `s` begins with it.
pub open spec fn after_prefix(s: Seq<char>, p: Seq<char>) -> Option<Seq<char>> {
    if p.is_prefix_of(s) {
        Some(s.skip(p.len() as int))
    } else {
        None
    }
}

/// What precedes the suffix `p` in `s`, if `s` ends with it.
pub open spec fn before_suffix(s: Seq<char>, p: Seq<char>) -> Option<Seq<char>> {
    if p.is_suffix_of(s) {
        Some(s.take(s.len() - p.len()))
    } else {
        None
    }
}

/// `s` without the prefix `p`.
pub fn strip_prefix(s: &str, p: &str) -> (r: Option<String>)
    ensures
        opt_view(r) == after_prefix(s@, p@),
{
    let cs = chars_of(s);
    let cp = chars_of(p);
    if matches_at(&cs, 0, &cp) {
        let r = text_of(&cs, cp.len(), cs.len());
        assert(r@ =~= s@.skip(p@.len() as int));
        Some(r)
    } else {
        None
    }
}

/// `s` without the suffix `p`.
pub fn strip_suffix(s: &str, p: &str) -> (r: Option<String>)
    ensures
        opt_view(r) == before_suffix(s@, p@),
{
    let cs = chars_of(s);
    let cp = chars_of(p);
    if cp.len() <= cs.len() && matches_at(&cs, cs.len() - cp.len(), &cp) {
        let r = text_of(&cs, 0, cs.len() - cp.len());
        assert(r@ =~= s@.take(s@.len() - p@.len()));
        Some(r)
    } else {
        None
    }
}

/// Whether `s` ends with `p`.
pub fn has_suffix(s: &str, p: &str) -> (r: bool)
    ensures
        r == p@.is_suffix_of(s@),
{
    let cs = chars_of(s);
    let cp = chars_of(p);
    cp.len() <= cs.len() && matches_at(&cs, cs.len() - cp.len(), &cp)
}

/// The position of the first `c` in `s`, or the length of `s` if there is none.
pub open spec fn first_of(s: Seq<char>, c: char) -> int
    decreases s.len(),
{
    if s.len() == 0 || s[0] == c {
        0
    } else {
        1 + first_of(s.skip(1), c)
    }
}

/// `first_of` is in range, holds `c` where it is a position, and nothing before it does.
pub proof fn first_of_is_first(s: Seq<char>, c: char)
    ensures
        0 <= first_of(s, c) <= s.len(),
        first_of(s, c) < s.len() ==> s[first_of(s, c)] == c,
        forall|j: int| 0 <= j < first_of(s, c) ==> s[j] != c,
    decreases s.len(),
{
    if s.len() > 0 && s[0] != c {
        let t = s.skip(1);
        first_of_is_first(t, c);
        assert forall|j: int| 0 <= j < first_of(s, c) implies s[j] != c by {
            if j > 0 {
                assert(t[j - 1] == s[j]);
            }
        }
    }
}

/// A position that holds `c` after others that do not is the first.
pub proof fn first_of_unique(s: Seq<char>, c: char, i: int)
    requires
        0 <= i <= s.len(),
        i < s.len() ==> s[i] == c,
        forall|j: int| 0 <= j < i ==> s[j] != c,
    ensures
        first_of(s, c) == i,
{
    first_of_is_first(s, c);
    let k = first_of(s, c);
    if k < i {
        assert(s[k] == c);
    }
}

fn find_from(v: &Vec<char>, start: usize, c: char) -> (i: usize)
    requires
        start <= v@.len(),
    ensures
        start <= i <= v@.len(),
        i - start == first_of(v@.skip(start as int), c),
{
    let ghost tail = v@.skip(start as int);
    let mut i: usize = start;
    while i < v.len()
        invariant
            start <= i <= v@.len(),
            tail == v@.skip(start as int),
            forall|j: int| 0 <= j < i - start ==> tail[j] != c,
        decreases v@.len() - i,
    {
        if v[i] == c {
            proof {
                first_of_unique(tail, c, i - start);
            }
            return i;
        }
        i += 1;
    }
    proof {
        first_of_unique(tail, c, i - start);
    }
    i
}

/// The two parts of `s` around its first `c`.
pub open spec fn cut(s: Seq<char>, c: char) -> Option<(Seq<char>, Seq<char>)> {
    let i = first_of(s, c);
    if i < s.len() {
        Some((s.take(i), s.skip(i + 1)))
    } else {
        None
    }
}

/// Splits `s` around its first `c`.
pub fn split_once(s: &str, c: char) -> (r: Option<(String, String)>)
    ensures
        match r {
            Some((a, b)) => cut(s@, c) == Some((a@, b@)),
            None => cut(s@, c) is None,
        },
{
    let v = chars_of(s);
    let i = find_from(&v, 0, c);
    proof {
        assert(v@.skip(0) =~= v@);
    }
    if i < v.len() {
        let a = text_of(&v, 0, i);
        let b = text_of(&v, i + 1, v.len());
        proof {
            assert(a@ =~= s@.take(i as int));
            assert(b@ =~= s@.skip(i + 1));
        }
        Some((a, b))
    } else {
        None
    }
}

/// The pieces of `s` between the characters `c`.
pub open spec fn pieces(s: Seq<char>, c: char) -> Seq<Seq<char>>
    decreases s.len(),
{
    let i = first_of(s, c);
    if i < s.len() {
        proof {
            first_of_is_first(s, c);
        }
        seq![s.take(i)] + pieces(s.skip(i + 1), c)
    } else {
        seq![s]
    }
}

/// Splits `s` at every `c`.
pub fn split(s: &str, c: char) -> (r: Vec<String>)
    ensures
        views(r@) == pieces(s@, c),
        r@.len() > 0,
{
    let v = chars_of(s);
    let mut out: Vec<String> = Vec::new();
    let mut start: usize = 0;
    proof {
        assert(v@.skip(0) =~= v@);
        assert(views(out@) + pieces(v@, c) =~= pieces(v@, c));
    }
    loop
        invariant
            start <= v@.len(),
            v@ == s@,
            views(out@) + pieces(v@.skip(start as int), c) == pieces(s@, c),
        decreases v@.len() - start,
    {
        let i = find_from(&v, start, c);
        let ghost tail = v@.skip(start as int);
        let part = text_of(&v, start, i);
        proof {
            first_of_is_first(tail, c);
        }
        let ghost before = views(out@);
        if i < v.len() {
            proof {
                assert(part@ =~= tail.take(i - start));
                assert(tail.skip(i - start + 1) =~= v@.skip(i + 1));
            }
            out.push(part);
            proof {
                assert(views(out@) =~= before.push(part@));
                assert(before + (seq![part@] + pieces(v@.skip(i + 1), c)) =~= views(out@) + pieces(
                    v@.skip(i + 1),
                    c,
                ));
            }
            start = i + 1;
        } else {
            proof {
                assert(part@ =~= tail);
            }
            out.push(part);
            proof {
                assert(views(out@) =~= before + seq![tail]);
            }
            return out;
        }
    }
}

/// Whether `list` holds `s`.
pub fn contains(list: &Vec<String>, s: &str) -> (r: bool)
    ensures
        r == views(list@).contains(s@),
{
    let mut i: usize = 0;
    while i < list.len()
        invariant
            i <= list@.len(),
            forall|j: int| 0 <= j < i ==> views(list@)[j] != s@,
        decreases list@.len() - i,
    {
        if same(list[i].as_str(), s) {
            assert(views(list@)[i as int] == s@);
            return true;
        }
        i += 1;
    }
    false
}

/// The characters that Unicode counts as white space.
pub open spec fn is_space(c: char) -> bool {
    ||| '\u{9}' <= c <= '\u{d}'
    ||| c == ' '
    ||| c == '\u{85}'
    ||| c == '\u{a0}'
    ||| c == '\u{1680}'
    ||| '\u{2000}' <= c <= '\u{200a}'
    ||| c == '\u{2028}'
    ||| c == '\u{2029}'
    ||| c == '\u{202f}'
    ||| c == '\u{205f}'
    ||| c == '\u{3000}'
}

fn space(c: char) -> (r: bool)
    ensures
        r == is_space(c),
{
    ('\u{9}' <= c && c <= '\u{d}') || c == ' ' || c == '\u{85}' || c == '\u{a0}' || c == '\u{1680}' || (
    '\u{2000}' <= c && c <= '\u{200a}') || c == '\u{2028}' || c == '\u{2029}' || c == '\u{202f}' || c
        == '\u{205f}' || c == '\u{3000}'
}

/// `s` from its first character that is no white space.
pub open spec fn without_leading_space(s: Seq<char>) -> Seq<char>
    decreases s.len(),
{
    if s.len() > 0 && is_space(s[0]) {
        without_leading_space(s.skip(1))
    } else {
        s
    }
}

/// `s` up to its last character that is no white space.
pub open spec fn without_trailing_space(s: Seq<char>) -> Seq<char>
    decreases s.len(),
{
    if s.len() > 0 && is_space(s.last()) {
        without_trailing_space(s.drop_last())
    } else {
        s
    }
}

/// `s` without white space at either end.
pub open spec fn trimmed(s: Seq<char>) -> Seq<char> {
    without_trailing_space(without_leading_space(s))
}

/// Takes white space off both ends.
pub fn trim(s: &str) -> (r: String)
    ensures
        r@ == trimmed(s@),
{
    let v = chars_of(s);
    let mut from: usize = 0;
    proof {
        assert(v@.skip(0) =~= v@);
    }
    while from < v.len() && space(v[from])
        invariant
            from <= v@.len(),
            v@ == s@,
            without_leading_space(v@.skip(from as int)) == without_leading_space(s@),
        decreases v@.len() - from,
    {
        proof {
            assert(v@.skip(from as int).skip(1) =~= v@.skip(from + 1));
        }
        from += 1;
    }
    let ghost rest = without_leading_space(s@);
    let mut to: usize = v.len();
    proof {
        assert(rest == v@.skip(from as int));
        assert(v@.subrange(from as int, to as int) =~= rest);
    }
    while to > from && space(v[to - 1])
        invariant
            from <= to <= v@.len(),
            without_trailing_space(v@.subrange(from as int, to as int)) == without_trailing_space(
                rest,
            ),
        decreases to,
    {
        proof {
            assert(v@.subrange(from as int, to as int).drop_last() =~= v@.subrange(
                from as int,
                to - 1,
            ));
        }
        to -= 1;
    }
    text_of(&v, from, to)
}

/// `s` without the characters `c` at its end.
pub open spec fn without_trailing(s: Seq<char>, c: char) -> Seq<char>
    decreases s.len(),
{
    if s.len() > 0 && s.last() == c {
        without_trailing(s.drop_last(), c)
    } else {
        s
    }
}

/// `s` without the characters `c` at its start.
pub open spec fn without_leading(s: Seq<char>, c: char) -> Seq<char>
    decreases s.len(),
{
    if s.len() > 0 && s[0] == c {
        without_leading(s.skip(1), c)
    } else {
        s
    }
}

/// Takes the characters `c` off the end.
pub fn trim_end(s: &str, c: char) -> (r: String)
    ensures
        r@ == without_trailing(s@, c),
{
    let v = chars_of(s);
    let mut to: usize = v.len();
    proof {
        assert(v@.subrange(0, to as int) =~= s@);
    }
    while to > 0 && v[to - 1] == c
        invariant
            to <= v@.len(),
            without_trailing(v@.subrange(0, to as int), c) == without_trailing(s@, c),
        decreases to,
    {
        proof {
            assert(v@.subrange(0, to as int).drop_last() =~= v@.subrange(0, to - 1));
        }
        to -= 1;
    }
    text_of(&v, 0, to)
}

/// Takes the characters `c` off the start.
pub fn trim_start(s: &str, c: char) -> (r: String)
    ensures
        r@ == without_leading(s@, c),
{
    let v = chars_of(s);
    let mut from: usize = 0;
    proof {
        assert(v@.skip(0) =~= s@);
    }
    while from < v.len() && v[from] == c
        invariant
            from <= v@.len(),
            without_leading(v@.skip(from as int), c) == without_leading(s@, c),
        decreases v@.len() - from,
    {
        proof {
            assert(v@.skip(from as int).skip(1) =~= v@.skip(from + 1));
        }
        from += 1;
    }
    let r = text_of(&v, from, v.len());
    proof {
        assert(r@ =~= v@.skip(from as int));
    }
    r
}

/// A copy of an optional string.
pub fn clone_opt(o: &Option<String>) -> (r: Option<String>)
    ensures
        opt_view(r) == opt_view(*o),
{
    match o {
        Some(s) => Some(s.clone()),
        None => None,
    }
}

/// A copy of a list of strings.
pub fn clone_list(v: &Vec<String>) -> (r: Vec<String>)
    ensures
        views(r@) == views(v@),
{
    let mut r: Vec<String> = Vec::new();
    let mut i: usize = 0;
    while i < v.len()
        invariant
            i <= v@.len(),
            views(r@) == views(v@).take(i as int),
        decreases v@.len() - i,
    {
        let ghost before = views(r@);
        r.push(v[i].clone());
        proof {
            assert(views(r@) =~= before.push(v@[i as int]@));
            assert(views(v@).take(i + 1) =~= views(v@).take(i as int).push(views(v@)[i as int]));
        }
        i += 1;
    }
    proof {
        assert(views(v@).take(i as int) =~= views(v@));
    }
    r
}

/// What a sequence contains after a push.
pub proof fn contains_push<A>(s: Seq<A>, a: A, x: A)
    ensures
        s.push(a).contains(x) == (s.contains(x) || x == a),
{
    if s.contains(x) {
        assert(s.push(a)[s.index_of(x)] == x);
    }
    assert(s.push(a)[s.len() as int] == a);
    if s.push(a).contains(x) {
        let i = s.push(a).index_of(x);
        if i < s.len() {
            assert(s[i] == x);
        }
    }
}

/// The strings of a list, as a set.
pub fn set_of(list: &Vec<String>) -> (r: StringHashSet)
    ensures
        r@ == views(list@).to_set(),
{
    let mut r = StringHashSet::new();
    let ghost all = views(list@);
    let mut i: usize = 0;
    proof {
        assert(r@ =~= all.take(0).to_set());
    }
    while i < list.len()
        invariant
            i <= list@.len(),
            all == views(list@),
            r@ == all.take(i as int).to_set(),
        decreases list@.len() - i,
    {
        r.insert(list[i].clone());
        proof {
            assert(all.take(i + 1) =~= all.take(i as int).push(all[i as int]));
            assert forall|x: Seq<char>| all.take(i as int).to_set().insert(all[i as int]).contains(x)
                == all.take(i + 1).to_set().contains(x) by {
                contains_push(all.take(i as int), all[i as int], x);
            }
            assert(r@ =~= all.take(i + 1).to_set());
        }
        i += 1;
    }
    proof {
        assert(all.take(i as int) =~= all);
    }
    r
}

// What these operations are good for.

/// One text comes before another exactly where it is a proper prefix of it, or where at the
/// first place at which they differ it has the smaller character.
pub proof fn the_first_difference_decides(a: Seq<char>, b: Seq<char>)
    ensures
        lex_lt(a, b) <==> exists|k: int|
            0 <= k <= a.len() && k < b.len() && #[trigger] a.take(k) == b.take(k) && (k < a.len()
                ==> a[k] < b[k]),
    decreases a.len(),
{
    if b.len() > 0 && a.len() == 0 {
        assert(a.take(0) =~= b.take(0));
    } else if b.len() > 0 {
        let x = a.skip(1);
        let y = b.skip(1);
        if a[0] == b[0] {
            the_first_difference_decides(x, y);
            if lex_lt(x, y) {
                let k = choose|k: int|
                    0 <= k <= x.len() && k < y.len() && #[trigger] x.take(k) == y.take(k) && (k
                        < x.len() ==> x[k] < y[k]);
                assert(a.take(k + 1) =~= seq![a[0]] + x.take(k));
                assert(b.take(k + 1) =~= seq![b[0]] + y.take(k));
                assert(a.take(k + 1) == b.take(k + 1));
            }
            if exists|k: int|
                0 <= k <= a.len() && k < b.len() && #[trigger] a.take(k) == b.take(k) && (k
                    < a.len() ==> a[k] < b[k]) {
                let k = choose|k: int|
                    0 <= k <= a.len() && k < b.len() && #[trigger] a.take(k) == b.take(k) && (k
                        < a.len() ==> a[k] < b[k]);
                assert(k > 0);
                assert(x.take(k - 1) =~= a.take(k).skip(1));
                assert(y.take(k - 1) =~= b.take(k).skip(1));
                assert(x.take(k - 1) == y.take(k - 1));
            }
        } else {
            assert(a.take(0) =~= b.take(0));
            assert forall|k: int|
                0 < k <= a.len() && k < b.len() implies #[trigger] a.take(k) != b.take(k) by {
                assert(a.take(k)[0] == a[0]);
                assert(b.take(k)[0] == b[0]);
            }
        }
    }
}

/// A text that is cut at a character falls into what stands before the first one and what
/// follows it; without the character it is not cut.
pub proof fn a_cut_takes_out_the_first(a: Seq<char>, b: Seq<char>, c: char)
    requires
        !a.contains(c),
    ensures
        cut(a + seq![c] + b, c) == Some((a, b)),
        cut(a, c) is None,
{
    let s = a + seq![c] + b;
    assert forall|j: int| 0 <= j < a.len() implies s[j] != c && a[j] != c by {
        assert(a.contains(a[j]));
    }
    assert(s[a.len() as int] == c);
    first_of_unique(s, c, a.len() as int);
    first_of_unique(a, c, a.len() as int);
    assert(s.take(a.len() as int) =~= a);
    assert(s.skip(a.len() as int + 1) =~= b);
}

/// A text that is split falls into the pieces between the separators, empty ones among them.
pub proof fn pieces_stand_between_separators(a: Seq<char>, b: Seq<char>, c: char)
    requires
        !a.contains(c),
    ensures
        pieces(a, c) == seq![a],
        pieces(a + seq![c] + b, c) == seq![a] + pieces(b, c),
{
    let s = a + seq![c] + b;
    assert forall|j: int| 0 <= j < a.len() implies s[j] != c && a[j] != c by {
        assert(a.contains(a[j]));
    }
    assert(s[a.len() as int] == c);
    first_of_unique(s, c, a.len() as int);
    first_of_unique(a, c, a.len() as int);
    assert(s.take(a.len() as int) =~= a);
    assert(s.skip(a.len() as int + 1) =~= b);
}

/// A prefix comes off a text exactly where the text begins with it, and what is left is the
/// rest; so with a suffix.
pub proof fn what_is_stripped_comes_off(s: Seq<char>, p: Seq<char>, rest: Seq<char>)
    ensures
        after_prefix(s, p) == Some(rest) <==> s == p + rest,
        after_prefix(s, p) is None <==> !(exists|r: Seq<char>| s == #[trigger] (p + r)),
        before_suffix(s, p) == Some(rest) <==> s == rest + p,
        before_suffix(s, p) is None <==> !(exists|r: Seq<char>| s == #[trigger] (r + p)),
{
    if p.is_prefix_of(s) {
        assert(s =~= p + s.skip(p.len() as int)) by {
            assert(s.subrange(0, p.len() as int) == p);
            assert(s =~= s.subrange(0, p.len() as int) + s.skip(p.len() as int));
        }
    }
    if p.is_suffix_of(s) {
        let n = s.len() - p.len();
        assert(s =~= s.take(n) + p) by {
            assert(s.subrange(n, s.len() as int) == p);
            assert(s =~= s.take(n) + s.subrange(n, s.len() as int));
        }
    }
    assert forall|r: Seq<char>| s == #[trigger] (p + r) implies after_prefix(s, p) == Some(r) by {
        assert(s.subrange(0, p.len() as int) =~= p);
        assert(s.skip(p.len() as int) =~= r);
    }
    assert forall|r: Seq<char>| s == #[trigger] (r + p) implies before_suffix(s, p) == Some(r) by {
        assert(s.subrange(s.len() - p.len(), s.len() as int) =~= p);
        assert(s.take(s.len() - p.len()) =~= r);
    }
}

/// The last occurrence of a text in another is one, and none follows it; `-1` means that there
/// is none.
pub proof fn nothing_follows_the_last(s: Seq<char>, m: Seq<char>)
    ensures
        -1 <= last_of(s, m) <= s.len(),
        last_of(s, m) >= 0 ==> last_of(s, m) + m.len() <= s.len() && s.subrange(
            last_of(s, m),
            last_of(s, m) + m.len(),
        ) == m,
        forall|j: int|
            last_of(s, m) < j && 0 <= j && j + m.len() <= s.len() ==> #[trigger] s.subrange(
                j,
                j + m.len(),
            ) != m,
{
    last_from_is_last(s, m, s.len() as int);
    assert forall|j: int|
        last_of(s, m) < j && 0 <= j && j + m.len() <= s.len() implies #[trigger] s.subrange(
        j,
        j + m.len(),
    ) != m by {
        assert(!occurs_at(s, j, m));
    }
}

proof fn leading_space_comes_off(s: Seq<char>) -> (i: int)
    ensures
        0 <= i <= s.len(),
        without_leading_space(s) == s.skip(i),
        forall|j: int| 0 <= j < i ==> is_space(#[trigger] s[j]),
        i < s.len() ==> !is_space(s[i]),
    decreases s.len(),
{
    if s.len() > 0 && is_space(s[0]) {
        let t = s.skip(1);
        let i = leading_space_comes_off(t);
        assert(t.skip(i) =~= s.skip(i + 1));
        assert forall|j: int| 0 <= j < i + 1 implies is_space(#[trigger] s[j]) by {
            if j > 0 {
                assert(t[j - 1] == s[j]);
            }
        }
        i + 1
    } else {
        assert(s.skip(0) =~= s);
        0
    }
}

proof fn trailing_space_comes_off(s: Seq<char>) -> (i: int)
    ensures
        0 <= i <= s.len(),
        without_trailing_space(s) == s.take(i),
        forall|j: int| i <= j < s.len() ==> is_space(#[trigger] s[j]),
        i > 0 ==> !is_space(s[i - 1]),
    decreases s.len(),
{
    if s.len() > 0 && is_space(s.last()) {
        let t = s.drop_last();
        let i = trailing_space_comes_off(t);
        assert(t.take(i) =~= s.take(i));
        assert forall|j: int| i <= j < s.len() implies is_space(#[trigger] s[j]) by {
            if j < t.len() {
                assert(t[j] == s[j]);
            }
        }
        i
    } else {
        assert(s.take(s.len() as int) =~= s);
        s.len() as int
    }
}

/// Trimming takes white space off both ends, all of it and nothing else.
pub proof fn trimming_takes_the_space_around(s: Seq<char>)
    ensures
        exists|i: int, k: int|
            0 <= i <= k <= s.len() && trimmed(s) == #[trigger] s.subrange(i, k) && (forall|j: int|
                0 <= j < i || k <= j < s.len() ==> is_space(#[trigger] s[j])),
        trimmed(s).len() > 0 ==> !is_space(trimmed(s)[0]) && !is_space(trimmed(s).last()),
        (s.len() > 0 ==> !is_space(s[0]) && !is_space(s.last())) ==> trimmed(s) == s,
{
    let i = leading_space_comes_off(s);
    let t = s.skip(i);
    let k = trailing_space_comes_off(t);
    assert(t.take(k) =~= s.subrange(i, i + k));
    assert forall|j: int| 0 <= j < i || i + k <= j < s.len() implies is_space(#[trigger] s[j]) by {
        if j >= i {
            assert(t[j - i] == s[j]);
        }
    }
    if k > 0 {
        assert(trimmed(s)[0] == s[i]);
    }
    if s.len() > 0 && !is_space(s[0]) && !is_space(s.last()) {
        assert(i == 0);
        assert(t =~= s);
        assert(k == s.len());
        assert(t.take(k) =~= s);
    }
    if s.len() == 0 {
        assert(trimmed(s) =~= s);
    }
}

/// Among the characters that every keyboard has, the blank is white space, and nothing else that
/// can be seen is; tabs and line ends are.
pub proof fn plain_white_space(c: char)
    ensures
        '!' <= c <= '~' ==> !is_space(c),
        c == ' ' || c == '\t' || c == '\n' || c == '\r' ==> is_space(c),
        '0' <= c <= '9' || 'a' <= c <= 'z' || 'A' <= c <= 'Z' ==> !is_space(c),
{
}

/// Taking a character off the end takes all of them that stand there, and nothing else; so at
/// the start.
pub proof fn repeated_characters_come_off(s: Seq<char>, c: char)
    ensures
        without_trailing(s + seq![c], c) == without_trailing(s, c),
        s.len() == 0 || s.last() != c ==> without_trailing(s, c) == s,
        without_leading(seq![c] + s, c) == without_leading(s, c),
        s.len() == 0 || s[0] != c ==> without_leading(s, c) == s,
{
    assert((s + seq![c]).drop_last() =~= s);
    assert((seq![c] + s).skip(1) =~= s);
}

proof fn leading_space_is_nothing(a: Seq<char>, t: Seq<char>)
    requires
        forall|i: int| 0 <= i < a.len() ==> is_space(#[trigger] a[i]),
    ensures
        without_leading_space(a + t) == without_leading_space(t),
    decreases a.len(),
{
    if a.len() == 0 {
        assert(a + t =~= t);
    } else {
        let rest = a.skip(1);
        assert forall|i: int| 0 <= i < rest.len() implies is_space(#[trigger] rest[i]) by {
            assert(rest[i] == a[i + 1]);
        }
        assert((a + t)[0] == a[0]);
        assert((a + t).skip(1) =~= rest + t);
        leading_space_is_nothing(rest, t);
    }
}

proof fn trailing_space_is_nothing(t: Seq<char>, b: Seq<char>)
    requires
        forall|i: int| 0 <= i < b.len() ==> is_space(#[trigger] b[i]),
    ensures
        without_trailing_space(t + b) == without_trailing_space(t),
    decreases b.len(),
{
    if b.len() == 0 {
        assert(t + b =~= t);
    } else {
        let rest = b.drop_last();
        assert forall|i: int| 0 <= i < rest.len() implies is_space(#[trigger] rest[i]) by {
            assert(rest[i] == b[i]);
        }
        assert(is_space(b[b.len() - 1]));
        assert((t + b).last() == b.last());
        assert((t + b).drop_last() =~= t + rest);
        trailing_space_is_nothing(t, rest);
    }
}

/// White space around a text that has none at its ends comes off, however much there is.
pub proof fn space_around_comes_off(a: Seq<char>, t: Seq<char>, b: Seq<char>)
    requires
        forall|i: int| 0 <= i < a.len() ==> is_space(#[trigger] a[i]),
        forall|i: int| 0 <= i < b.len() ==> is_space(#[trigger] b[i]),
        t.len() > 0,
        !is_space(t[0]),
        !is_space(t.last()),
    ensures
        trimmed(a + t + b) == t,
{
    assert(a + t + b =~= a + (t + b));
    leading_space_is_nothing(a, t + b);
    assert((t + b)[0] == t[0]);
    trailing_space_is_nothing(t, b);
}

/// What Unicode counts as white space, by code point.
pub proof fn white_space_by_code_point(c: char)
    ensures
        is_space(c) <==> {
            let n = c as u32;
            ||| 9 <= n <= 13
            ||| n == 32
            ||| n == 0x85
            ||| n == 0xa0
            ||| n == 0x1680
            ||| 0x2000 <= n <= 0x200a
            ||| n == 0x2028
            ||| n == 0x2029
            ||| n == 0x202f
            ||| n == 0x205f
            ||| n == 0x3000
        },
{
}

} // verus!
