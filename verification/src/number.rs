//! Decimal numbers in text.

use crate::text::chars_of;
use vstd::prelude::*;
use vstd::string::*;

verus! {

/// The character of a decimal digit.
pub open spec fn digit(d: int) -> char {
    (48 + d) as char
}

/// The decimal notation of a natural number.
pub open spec fn decimal(n: nat) -> Seq<char>
    decreases n,
{
    if n < 10 {
        seq![digit(n as int)]
    } else {
        decimal(n / 10).push(digit((n % 10) as int))
    }
}

/// The decimal notation of an integer.
pub open spec fn signed(n: int) -> Seq<char> {
    if n < 0 {
        seq!['-'] + decimal((-n) as nat)
    } else {
        decimal(n as nat)
    }
}

/// The digits of `n` with zeros in front, `width` of them at least.
pub open spec fn zero_filled(n: nat, width: int) -> Seq<char> {
    let d = decimal(n);
    Seq::new(
        (if d.len() < width {
            width - d.len()
        } else {
            0
        }) as nat,
        |i: int| '0',
    ) + d
}

/// The decimal notation of an integer, filled with zeros after the sign to ten characters.
pub open spec fn padded(n: int) -> Seq<char> {
    if n < 0 {
        seq!['-'] + zero_filled((-n) as nat, 9)
    } else {
        zero_filled(n as nat, 10)
    }
}

/// A nonempty run of decimal digits.
pub open spec fn all_digits(s: Seq<char>) -> bool {
    s.len() > 0 && forall|i: int| 0 <= i < s.len() ==> '0' <= #[trigger] s[i] <= '9'
}

/// The number that a run of digits denotes.
pub open spec fn value(s: Seq<char>) -> nat
    decreases s.len(),
{
    if s.len() == 0 {
        0
    } else {
        value(s.drop_last()) * 10 + (s.last() as int - 48) as nat
    }
}

/// The integer that a text denotes: an optional sign, then digits.
pub open spec fn read_int(s: Seq<char>) -> Option<int> {
    if s.len() > 0 && (s[0] == '-' || s[0] == '+') {
        if all_digits(s.skip(1)) {
            Some(if s[0] == '-' {
                -value(s.skip(1))
            } else {
                value(s.skip(1)) as int
            })
        } else {
            None
        }
    } else if all_digits(s) {
        Some(value(s) as int)
    } else {
        None
    }
}

/// The integer that a text denotes, if it is in the range of `i64`.
pub open spec fn read_i64(s: Seq<char>) -> Option<i64> {
    match read_int(s) {
        Some(n) => if i64::MIN <= n <= i64::MAX {
            Some(n as i64)
        } else {
            None
        },
        None => None,
    }
}

proof fn decimal_is_digits(n: nat)
    ensures
        all_digits(decimal(n)),
        value(decimal(n)) == n,
    decreases n,
{
    reveal_with_fuel(value, 2);
    if n < 10 {
        assert(decimal(n).drop_last() =~= Seq::<char>::empty());
    } else {
        decimal_is_digits(n / 10);
        let d = decimal(n);
        assert(d.drop_last() =~= decimal(n / 10));
        assert forall|i: int| 0 <= i < d.len() implies '0' <= #[trigger] d[i] <= '9' by {
            if i < d.len() - 1 {
                assert(d[i] == decimal(n / 10)[i]);
            }
        }
    }
}

proof fn leading_zeros(k: nat, d: Seq<char>)
    ensures
        value(Seq::new(k, |i: int| '0') + d) == value(d),
    decreases d.len(), k,
{
    let z = Seq::new(k, |i: int| '0');
    let s = z + d;
    if d.len() > 0 {
        assert(s.drop_last() =~= z + d.drop_last());
        leading_zeros(k, d.drop_last());
    } else if k > 0 {
        let z1 = Seq::new((k - 1) as nat, |i: int| '0');
        assert(s.drop_last() =~= z1 + d);
        leading_zeros((k - 1) as nat, d);
    } else {
        assert(s =~= d);
    }
}

proof fn zero_filled_is_digits(n: nat, width: int)
    ensures
        all_digits(zero_filled(n, width)),
        value(zero_filled(n, width)) == n,
{
    let d = decimal(n);
    decimal_is_digits(n);
    let k = (if d.len() < width {
        width - d.len()
    } else {
        0
    }) as nat;
    leading_zeros(k, d);
    let s = zero_filled(n, width);
    assert forall|i: int| 0 <= i < s.len() implies '0' <= #[trigger] s[i] <= '9' by {
        if i >= k {
            assert(s[i] == d[i - k]);
        }
    }
}

/// The decimal notation of an integer holds digits, and a minus sign at most.
pub proof fn signed_chars(n: int)
    ensures
        forall|i: int|
            0 <= i < signed(n).len() ==> #[trigger] signed(n)[i] == '-' || '0' <= signed(n)[i] <= '9',
{
    if n < 0 {
        let d = decimal((-n) as nat);
        decimal_is_digits((-n) as nat);
        assert forall|i: int| 0 <= i < signed(n).len() implies #[trigger] signed(n)[i] == '-'
            || '0' <= signed(n)[i] <= '9' by {
            if i > 0 {
                assert(signed(n)[i] == d[i - 1]);
            }
        }
    } else {
        decimal_is_digits(n as nat);
    }
}

/// Reading back the decimal notation of an integer gives the integer.
pub proof fn signed_reads_back(n: int)
    ensures
        read_int(signed(n)) == Some(n),
{
    if n < 0 {
        decimal_is_digits((-n) as nat);
        assert(signed(n).skip(1) =~= decimal((-n) as nat));
    } else {
        decimal_is_digits(n as nat);
        assert('0' <= decimal(n as nat)[0] <= '9');
    }
}

/// Reading back the zero-filled notation of an integer gives the integer.
pub proof fn padded_reads_back(n: int)
    ensures
        read_int(padded(n)) == Some(n),
{
    if n < 0 {
        zero_filled_is_digits((-n) as nat, 9);
        assert(padded(n).skip(1) =~= zero_filled((-n) as nat, 9));
    } else {
        zero_filled_is_digits(n as nat, 10);
        assert('0' <= zero_filled(n as nat, 10)[0] <= '9');
    }
}

/// The decimal notation of an unsigned number.
pub fn decimal_of(n: u64) -> (s: String)
    ensures
        s@ == decimal(n as nat),
    decreases n,
{
    if n < 10 {
        let mut s = String::new();
        s.push((48u8 + n as u8) as char);
        assert(s@ =~= decimal(n as nat));
        s
    } else {
        let mut s = decimal_of(n / 10);
        s.push((48u8 + (n % 10) as u8) as char);
        s
    }
}

fn magnitude(n: i64) -> (m: u64)
    ensures
        m == if n < 0 {
            -(n as int)
        } else {
            n as int
        },
{
    if n == i64::MIN {
        9223372036854775808
    } else if n < 0 {
        (-n) as u64
    } else {
        n as u64
    }
}

/// The decimal notation of a signed number.
pub fn signed_of(n: i64) -> (s: String)
    ensures
        s@ == signed(n as int),
{
    let d = decimal_of(magnitude(n));
    if n < 0 {
        let mut s = String::new();
        s.push('-');
        s.append(d.as_str());
        assert(s@ =~= signed(n as int));
        s
    } else {
        d
    }
}

/// The decimal notation of a signed number, filled with zeros to ten characters.
pub fn padded_of(n: i64) -> (s: String)
    ensures
        s@ == padded(n as int),
{
    let d = decimal_of(magnitude(n));
    let len = chars_of(d.as_str()).len();
    let mut s = String::new();
    let mut width: usize = 10;
    if n < 0 {
        s.push('-');
        width = 9;
    }
    let ghost sign = s@;
    let mut i: usize = len;
    while i < width
        invariant
            len <= i,
            i <= width || i == len,
            s@ == sign + Seq::new((i - len) as nat, |j: int| '0'),
        decreases width - i,
    {
        s.push('0');
        proof {
            assert(s@ =~= sign + Seq::new((i + 1 - len) as nat, |j: int| '0'));
        }
        i += 1;
    }
    s.append(d.as_str());
    proof {
        assert(s@ =~= padded(n as int));
    }
    s
}

proof fn value_grows(s: Seq<char>, t: Seq<char>)
    requires
        s.is_prefix_of(t),
    ensures
        value(s) <= value(t),
    decreases t.len(),
{
    if s.len() < t.len() {
        assert(s =~= t.drop_last().subrange(0, s.len() as int)) by {
            assert(t.drop_last().subrange(0, s.len() as int) =~= t.subrange(0, s.len() as int));
        }
        value_grows(s, t.drop_last());
    } else {
        assert(s =~= t);
    }
}

/// Reads an integer: an optional sign, then decimal digits, in the range of `i64`.
pub fn parse_i64(s: &str) -> (r: Option<i64>)
    ensures
        r == read_i64(s@),
{
    let v = chars_of(s);
    let mut start: usize = 0;
    let mut negative = false;
    if v.len() > 0 && (v[0] == '-' || v[0] == '+') {
        start = 1;
        negative = v[0] == '-';
    }
    let ghost body = v@.skip(start as int);
    if start == v.len() {
        return None;
    }
    let ghost sign = v@.len() > 0 && (v@[0] == '-' || v@[0] == '+');
    let mut acc: i128 = 0;
    let mut i: usize = start;
    while i < v.len()
        invariant
            v@ == s@,
            start <= i <= v@.len(),
            body == v@.skip(start as int),
            sign == (v@.len() > 0 && (v@[0] == '-' || v@[0] == '+')),
            start == if sign {
                1int
            } else {
                0int
            },
            forall|j: int| 0 <= j < i - start ==> '0' <= #[trigger] body[j] <= '9',
            0 <= acc,
            acc <= 9223372036854775808 ==> acc == value(body.take(i - start)),
            acc > 9223372036854775808 ==> value(body.take(i - start)) > 9223372036854775808,
            acc <= 92233720368547758089,
        decreases v@.len() - i,
    {
        let c = v[i];
        proof {
            assert(body[i - start] == c);
            assert(body.take(i + 1 - start).drop_last() =~= body.take(i - start));
            assert(body.take(i + 1 - start).last() == c);
            value_grows(body.take(i - start), body.take(i + 1 - start));
        }
        if c < '0' || c > '9' {
            proof {
                assert(!all_digits(body));
                assert(start == 0 ==> body =~= v@);
            }
            return None;
        }
        if acc <= 9223372036854775808 {
            acc = acc * 10 + (c as u32 - 48) as i128;
        }
        i += 1;
    }
    proof {
        assert(body.take(body.len() as int) =~= body);
        assert(start == 0 ==> body =~= v@);
    }
    if negative {
        if acc <= 9223372036854775808 {
            Some((-acc) as i64)
        } else {
            None
        }
    } else if acc <= 9223372036854775807 {
        Some(acc as i64)
    } else {
        None
    }
}

/// The decimal notation of a natural number is made of digits, has no zero in front unless it is
/// the zero itself, and denotes the number.
pub proof fn decimals_denote_their_number(n: nat)
    ensures
        decimal(n).len() > 0,
        forall|i: int| 0 <= i < decimal(n).len() ==> '0' <= #[trigger] decimal(n)[i] <= '9',
        decimal(n)[0] == '0' ==> n == 0 && decimal(n).len() == 1,
        read_int(decimal(n)) == Some(n as int),
    decreases n,
{
    decimal_is_digits(n);
    assert('0' <= decimal(n)[0] <= '9');
    if n >= 10 {
        decimals_denote_their_number(n / 10);
        assert(decimal(n)[0] == decimal(n / 10)[0]);
    }
}

/// What digits denote: a digit behind a run of digits counts once, and the run ten times.
pub proof fn digits_count_by_their_place(s: Seq<char>, c: char)
    requires
        '0' <= c <= '9',
        forall|i: int| 0 <= i < s.len() ==> '0' <= #[trigger] s[i] <= '9',
    ensures
        read_int(seq![c]) == Some(c as int - '0' as int),
        s.len() > 0 ==> (read_int(s) matches Some(n) && read_int(s.push(c)) == Some(
            10 * n + (c as int - '0' as int),
        )),
{
    let t = s.push(c);
    assert(seq![c].drop_last() =~= Seq::<char>::empty());
    reveal_with_fuel(value, 2);
    assert('0' <= seq![c][0] <= '9');
    if s.len() > 0 {
        assert('0' <= s[0] <= '9');
        assert(t[0] == s[0]);
        assert(t.drop_last() =~= s);
        assert forall|i: int| 0 <= i < t.len() implies '0' <= #[trigger] t[i] <= '9' by {
            if i < s.len() {
                assert(t[i] == s[i]);
            }
        }
    }
}

/// Which texts are integers: digits, with a sign in front or none; a minus makes the number
/// negative, a plus changes nothing. Anything else is none, and neither is a number beyond 64
/// bits.
pub proof fn which_texts_are_integers(s: Seq<char>)
    ensures
        s.len() > 0 && (forall|i: int| 0 <= i < s.len() ==> '0' <= #[trigger] s[i] <= '9')
            ==> read_int(s) is Some && read_int(seq!['+'] + s) == read_int(s) && read_int(
            seq!['-'] + s,
        ) == Some(-(read_int(s)->0)),
        s.len() == 0 ==> read_int(s) is None,
        (exists|i: int| 0 < i < s.len() && !('0' <= #[trigger] s[i] <= '9')) ==> read_int(s) is None,
        s.len() > 0 && s[0] != '+' && s[0] != '-' && !('0' <= s[0] <= '9') ==> read_int(s) is None,
        s.len() == 1 && !('0' <= s[0] <= '9') ==> read_int(s) is None,
        read_i64(s) is Some <==> (read_int(s) matches Some(n) && i64::MIN <= n <= i64::MAX),
        read_i64(s) matches Some(n) ==> read_int(s) == Some(n as int),
{
    assert((seq!['+'] + s).skip(1) =~= s);
    assert((seq!['-'] + s).skip(1) =~= s);
    if exists|i: int| 0 < i < s.len() && !('0' <= #[trigger] s[i] <= '9') {
        let i = choose|i: int| 0 < i < s.len() && !('0' <= #[trigger] s[i] <= '9');
        assert(s.skip(1)[i - 1] == s[i]);
    }
    if s.len() > 0 {
        assert(!('0' <= s[0] <= '9') ==> !all_digits(s));
    }
    if all_digits(s) {
        assert('0' <= s[0] <= '9');
    }
}

/// A number of ten digits at most is filled with zeros to just ten characters, a longer one is
/// left as it is.
pub proof fn numbers_are_filled_to_ten(n: nat)
    ensures
        decimal(n).len() <= 10 ==> padded(n as int).len() == 10,
        decimal(n).len() >= 10 ==> padded(n as int) == decimal(n),
{
    if decimal(n).len() >= 10 {
        assert(padded(n as int) =~= decimal(n));
    }
}

} // verus!
