//! Decimal numerals as character sequences: the spec-level grammar, verified
//! printing and parsing, and the round-trip facts the persistence format of
//! the backup store is built on.

use vstd::prelude::*;
use vstd::string::*;

verus! {

/// The character for one decimal digit.
pub open spec fn digit_char(d: int) -> char
    recommends
        0 <= d < 10,
{
    if d == 0 {
        '0'
    } else if d == 1 {
        '1'
    } else if d == 2 {
        '2'
    } else if d == 3 {
        '3'
    } else if d == 4 {
        '4'
    } else if d == 5 {
        '5'
    } else if d == 6 {
        '6'
    } else if d == 7 {
        '7'
    } else if d == 8 {
        '8'
    } else {
        '9'
    }
}

pub open spec fn is_digit(c: char) -> bool {
    48 <= c as int && c as int <= 57
}

pub open spec fn digit_val(c: char) -> int {
    c as int - 48
}

/// Canonical numeral of a natural number, most significant digit first.
pub open spec fn dec_nat(n: nat) -> Seq<char>
    decreases n,
{
    if n < 10 {
        seq![digit_char(n as int)]
    } else {
        dec_nat(n / 10).push(digit_char((n % 10) as int))
    }
}

/// Canonical numeral of an integer: a minus sign for negative values.
pub open spec fn dec_int(i: int) -> Seq<char> {
    if i < 0 {
        seq!['-'] + dec_nat((-i) as nat)
    } else {
        dec_nat(i as nat)
    }
}

pub open spec fn all_digits(s: Seq<char>) -> bool {
    forall|i: int| 0 <= i < s.len() ==> is_digit(#[trigger] s[i])
}

/// Digit strings that `dec_nat` can produce: nonempty, no leading zero.
pub open spec fn canonical_digits(s: Seq<char>) -> bool {
    &&& s.len() >= 1
    &&& all_digits(s)
    &&& (s.len() > 1 ==> s[0] != '0')
}

/// Value of a digit string, most significant digit first.
pub open spec fn dec_val(s: Seq<char>) -> int
    decreases s.len(),
{
    if s.len() == 0 {
        0
    } else {
        dec_val(s.drop_last()) * 10 + digit_val(s.last())
    }
}

/// Value of a canonical numeral with an optional leading minus sign, or
/// `None` if the sequence is not one.
pub open spec fn parse_sint(s: Seq<char>) -> Option<int> {
    if s.len() >= 1 && s[0] == '-' {
        let mag = s.subrange(1, s.len() as int);
        if canonical_digits(mag) && dec_val(mag) > 0 {
            Some(-dec_val(mag))
        } else {
            None
        }
    } else if canonical_digits(s) {
        Some(dec_val(s))
    } else {
        None
    }
}

pub open spec fn pow10(k: nat) -> int
    decreases k,
{
    if k == 0 {
        1
    } else {
        10 * pow10((k - 1) as nat)
    }
}

proof fn lemma_pow10_pos(k: nat)
    ensures
        pow10(k) >= 1,
    decreases k,
{
    if k > 0 {
        lemma_pow10_pos((k - 1) as nat);
    }
}

pub proof fn lemma_pow10_monotone(a: nat, b: nat)
    requires
        a <= b,
    ensures
        1 <= pow10(a) <= pow10(b),
    decreases b,
{
    lemma_pow10_pos(a);
    if a < b {
        lemma_pow10_monotone(a, (b - 1) as nat);
    }
}

pub proof fn lemma_pow10_19_value()
    ensures
        pow10(19) == 10_000_000_000_000_000_000,
{
    reveal_with_fuel(pow10, 21);
}

/// Index of the first occurrence of `c` in `s`, or `s.len()` if absent.
pub open spec fn find_char(s: Seq<char>, c: char) -> nat
    decreases s.len(),
{
    if s.len() == 0 {
        0
    } else if s[0] == c {
        0
    } else {
        1 + find_char(s.drop_first(), c)
    }
}

pub proof fn lemma_find_char_props(s: Seq<char>, c: char)
    ensures
        find_char(s, c) <= s.len(),
        find_char(s, c) < s.len() ==> s[find_char(s, c) as int] == c,
        forall|i: int| 0 <= i < find_char(s, c) ==> s[i] != c,
    decreases s.len(),
{
    if s.len() == 0 {
    } else if s[0] == c {
    } else {
        lemma_find_char_props(s.drop_first(), c);
        assert forall|i: int| 0 <= i < find_char(s, c) implies s[i] != c by {
            if i > 0 {
                assert(s.drop_first()[i - 1] == s[i]);
            }
        }
    }
}

/// `find_char` is pinned by any witness index with the first-occurrence shape.
pub proof fn lemma_find_char_at(s: Seq<char>, c: char, k: int)
    requires
        0 <= k <= s.len(),
        forall|i: int| 0 <= i < k ==> s[i] != c,
        k < s.len() ==> s[k] == c,
    ensures
        find_char(s, c) == k,
{
    lemma_find_char_props(s, c);
    let f = find_char(s, c) as int;
    if f < k {
        assert(s[f] != c);
    } else if f > k {
        assert(s[k] != c);
    }
}

pub proof fn lemma_dec_nat_shape(n: nat)
    ensures
        dec_nat(n).len() >= 1,
        all_digits(dec_nat(n)),
        n >= 1 ==> dec_nat(n)[0] != '0',
        canonical_digits(dec_nat(n)),
        n < 10 <==> dec_nat(n).len() == 1,
    decreases n,
{
    if n < 10 {
        assert(dec_nat(n) =~= seq![digit_char(n as int)]);
        assert(is_digit(digit_char(n as int)));
    } else {
        lemma_dec_nat_shape(n / 10);
        let t = dec_nat(n / 10);
        let s = dec_nat(n);
        assert(s == t.push(digit_char((n % 10) as int)));
        assert(is_digit(digit_char((n % 10) as int)));
        assert forall|i: int| 0 <= i < s.len() implies is_digit(s[i]) by {
            if i < t.len() {
                assert(s[i] == t[i]);
            } else {
                assert(s[i] == digit_char((n % 10) as int));
            }
        }
        assert(s[0] == t[0]);
    }
}

pub proof fn lemma_dec_val_dec_nat(n: nat)
    ensures
        dec_val(dec_nat(n)) == n,
    decreases n,
{
    if n < 10 {
        reveal_with_fuel(dec_val, 2);
        let s = seq![digit_char(n as int)];
        assert(s.drop_last() =~= Seq::<char>::empty());
        assert(digit_val(digit_char(n as int)) == n);
    } else {
        lemma_dec_val_dec_nat(n / 10);
        let t = dec_nat(n / 10);
        let c = digit_char((n % 10) as int);
        assert(t.push(c).drop_last() =~= t);
        assert(t.push(c).last() == c);
        assert(digit_val(c) == n % 10);
    }
}

/// A digit string without a leading zero denotes at least `pow10(len - 1)`.
pub proof fn lemma_dec_val_lower(s: Seq<char>)
    requires
        s.len() >= 1,
        all_digits(s),
        s[0] != '0',
    ensures
        dec_val(s) >= pow10((s.len() - 1) as nat),
    decreases s.len(),
{
    if s.len() == 1 {
        reveal_with_fuel(dec_val, 2);
        assert(s.drop_last() =~= Seq::<char>::empty());
        assert(is_digit(s[0]));
        assert(digit_val(s.last()) >= 1);
    } else {
        let t = s.drop_last();
        assert(t[0] == s[0]);
        assert(all_digits(t)) by {
            assert(forall|i: int| 0 <= i < t.len() ==> #[trigger] t[i] == s[i]);
        }
        lemma_dec_val_lower(t);
        assert(is_digit(s.last()));
        assert(digit_val(s.last()) >= 0);
        let l = s.len() as int;
        assert(pow10((l - 1) as nat) == 10 * pow10((l - 2) as nat));
        assert(dec_val(s) == dec_val(t) * 10 + digit_val(s.last()));
        assert(dec_val(t) * 10 >= pow10((l - 2) as nat) * 10);
    }
}

/// Printing then parsing an integer numeral gives the integer back.
pub proof fn lemma_dec_roundtrip(i: int)
    ensures
        parse_sint(dec_int(i)) == Some(i),
{
    if i < 0 {
        let m = (-i) as nat;
        let s = seq!['-'] + dec_nat(m);
        lemma_dec_nat_shape(m);
        lemma_dec_val_dec_nat(m);
        assert(s[0] == '-');
        assert(s.subrange(1, s.len() as int) =~= dec_nat(m));
    } else {
        let s = dec_nat(i as nat);
        lemma_dec_nat_shape(i as nat);
        lemma_dec_val_dec_nat(i as nat);
        assert(is_digit(s[0]));
        assert(s[0] != '-');
    }
}

/// One decimal digit as a string slice.
fn digit_str(d: u64) -> (s: &'static str)
    requires
        d < 10,
    ensures
        s@ == seq![digit_char(d as int)],
{
    let s: &'static str = if d == 0 {
        "0"
    } else if d == 1 {
        "1"
    } else if d == 2 {
        "2"
    } else if d == 3 {
        "3"
    } else if d == 4 {
        "4"
    } else if d == 5 {
        "5"
    } else if d == 6 {
        "6"
    } else if d == 7 {
        "7"
    } else if d == 8 {
        "8"
    } else {
        "9"
    };
    proof {
        reveal_strlit("0");
        reveal_strlit("1");
        reveal_strlit("2");
        reveal_strlit("3");
        reveal_strlit("4");
        reveal_strlit("5");
        reveal_strlit("6");
        reveal_strlit("7");
        reveal_strlit("8");
        reveal_strlit("9");
        assert(s@ =~= seq![digit_char(d as int)]);
    }
    s
}

pub fn u64_to_dec(n: u64) -> (s: String)
    ensures
        s@ == dec_nat(n as nat),
    decreases n,
{
    if n < 10 {
        String::from_str(digit_str(n))
    } else {
        let mut s = u64_to_dec(n / 10);
        s.append(digit_str(n % 10));
        proof {
            let t = dec_nat((n / 10) as nat);
            let c = digit_char((n % 10) as int);
            assert(t.push(c) =~= t + seq![c]);
        }
        s
    }
}

pub fn i64_to_dec(n: i64) -> (s: String)
    ensures
        s@ == dec_int(n as int),
{
    if n >= 0 {
        u64_to_dec(n as u64)
    } else {
        let wide: i128 = -(n as i128);
        proof {
            assert(1 <= wide <= 0x8000_0000_0000_0000i128);
        }
        let mag: u64 = wide as u64;
        let mut s = String::from_str("-");
        let rest = u64_to_dec(mag);
        s.append(rest.as_str());
        proof {
            reveal_strlit("-");
            assert(s@ =~= seq!['-'] + dec_nat((-(n as int)) as nat));
        }
        s
    }
}

/// First position of `c` in `s` at or after `start`; `s@.len()` if absent.
pub fn find_char_in(s: &str, start: usize, c: char) -> (r: usize)
    requires
        start as int <= s@.len(),
    ensures
        start <= r,
        r as int <= s@.len(),
        forall|i: int| start as int <= i < r as int ==> s@[i] != c,
        (r as int) < s@.len() ==> s@[r as int] == c,
{
    let n = s.unicode_len();
    let mut j = start;
    while j < n && s.get_char(j) != c
        invariant
            start <= j <= n,
            n as int == s@.len(),
            forall|i: int| start as int <= i < j as int ==> s@[i] != c,
        decreases n - j,
    {
        j = j + 1;
    }
    j
}

/// Parses a canonical, optionally negative decimal numeral that fits `i64`.
#[verifier::loop_isolation(false)]
pub fn parse_i64(s: &str) -> (r: Option<i64>)
    ensures
        r is Some <==> (parse_sint(s@) matches Some(v) && i64::MIN <= v <= i64::MAX),
        r matches Some(x) ==> parse_sint(s@) == Some(x as int),
{
    let n = s.unicode_len();
    if n == 0 {
        return None;
    }
    let neg = s.get_char(0) == '-';
    let start: usize = if neg { 1 } else { 0 };
    let ghost mag_seq = s@.subrange(start as int, n as int);
    proof {
        if !neg {
            assert(mag_seq =~= s@);
        }
    }
    if start >= n {
        proof {
            assert(mag_seq.len() == 0);
        }
        return None;
    }

    // every character after the sign must be a digit
    let mut j = start;
    while j < n
        invariant
            start <= j <= n,
            forall|i: int| start as int <= i < j as int ==> is_digit(#[trigger] s@[i]),
        decreases n - j,
    {
        let c = s.get_char(j);
        let v = c as u32;
        if v < 48 || v > 57 {
            proof {
                assert(!is_digit(s@[j as int]));
                assert(mag_seq[j - start] == s@[j as int]);
                assert(!all_digits(mag_seq));
            }
            return None;
        }
        j = j + 1;
    }
    proof {
        assert forall|i: int| 0 <= i < mag_seq.len() implies is_digit(#[trigger] mag_seq[i]) by {
            assert(mag_seq[i] == s@[i + start]);
        }
    }

    // no leading zero in a multi-digit numeral
    if n - start > 1 && s.get_char(start) == '0' {
        proof {
            assert(mag_seq[0] == s@[start as int]);
            assert(!canonical_digits(mag_seq));
        }
        return None;
    }
    proof {
        assert(mag_seq[0] == s@[start as int]);
        assert(canonical_digits(mag_seq));
    }

    // more than 19 digits cannot fit an i64
    if n - start > 19 {
        proof {
            lemma_dec_val_lower(mag_seq);
            lemma_pow10_monotone(19, (mag_seq.len() - 1) as nat);
            lemma_pow10_19_value();
        }
        return None;
    }

    // accumulate the magnitude
    proof {
        assert(s@.subrange(start as int, start as int) =~= Seq::<char>::empty());
    }
    let mut acc: u64 = 0;
    let mut k = start;
    while k < n
        invariant
            start <= k <= n,
            acc as int == dec_val(s@.subrange(start as int, k as int)),
            (acc as int) < pow10((k - start) as nat),
        decreases n - k,
    {
        let c = s.get_char(k);
        proof {
            assert(mag_seq[k - start] == s@[k as int]);
            assert(is_digit(s@[k as int]));
        }
        let d: u64 = (c as u32 - 48) as u64;
        proof {
            lemma_pow10_monotone((k - start + 1) as nat, 19);
            lemma_pow10_19_value();
            let pre = s@.subrange(start as int, k as int);
            let post = s@.subrange(start as int, k as int + 1);
            assert(post.drop_last() =~= pre);
            assert(post.last() == s@[k as int]);
            assert(digit_val(s@[k as int]) == d as int);
        }
        acc = acc * 10 + d;
        k = k + 1;
    }
    proof {
        assert(s@.subrange(start as int, n as int) == mag_seq);
        assert(acc as int == dec_val(mag_seq));
    }

    if neg {
        proof {
            assert(s@[0] == '-');
            assert(s@.subrange(1, s@.len() as int) == mag_seq);
        }
        if acc == 0 {
            return None;
        }
        if acc > 0x8000_0000_0000_0000u64 {
            return None;
        }
        if acc == 0x8000_0000_0000_0000u64 {
            Some(i64::MIN)
        } else {
            Some(-(acc as i64))
        }
    } else {
        proof {
            assert(s@[0] != '-');
        }
        if acc > i64::MAX as u64 {
            return None;
        }
        Some(acc as i64)
    }
}

} // verus!
