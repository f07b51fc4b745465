//! ASCII helpers shared by the parsers: case folding, decimal numbers and
//! searches for a character or a two-character pattern.

use vstd::prelude::*;
use crate::text::{push_char, trim, trim_end_len, trim_start_len, trim_end, trim_start};

verus! {

/// `c` lowercased if it is an ASCII capital letter.
pub open spec fn lower_char(c: char) -> char {
    if 65 <= c as u32 <= 90 {
        ((c as u32) + 32) as char
    } else {
        c
    }
}

/// `s` with every ASCII capital letter lowercased.
pub open spec fn ascii_lower(s: Seq<char>) -> Seq<char> {
    Seq::new(s.len(), |i: int| lower_char(s[i]))
}

/// An ASCII decimal digit.
pub open spec fn is_digit(c: char) -> bool {
    48 <= c as u32 <= 57
}

/// The value of a decimal digit.
pub open spec fn digit_val(c: char) -> nat {
    (c as u32 - 48) as nat
}

/// Every character of `s` is a decimal digit.
pub open spec fn all_digits(s: Seq<char>) -> bool {
    forall|i: int| 0 <= i < s.len() ==> is_digit(#[trigger] s[i])
}

/// The value of a run of decimal digits.
pub open spec fn digits_value(s: Seq<char>) -> nat
    decreases s.len(),
{
    if s.len() == 0 {
        0
    } else {
        digits_value(s.drop_last()) * 10 + digit_val(s.last())
    }
}

/// `s` read as an unsigned decimal number the way `usize::from_str` reads
/// it: an optional `+`, then one or more digits, with a value that fits.
pub open spec fn parse_usize_spec(s: Seq<char>) -> Option<usize> {
    let b = if s.len() > 0 && s[0] == '+' { s.skip(1) } else { s };
    if b.len() > 0 && all_digits(b) && digits_value(b) <= usize::MAX {
        Some(digits_value(b) as usize)
    } else {
        None
    }
}

/// The decimal digit character for `d < 10`.
pub open spec fn digit_char(d: nat) -> char {
    ((48 + d) as u32) as char
}

/// The decimal rendering of `n`, without leading zeros.
pub open spec fn decimal(n: nat) -> Seq<char>
    decreases n,
{
    if n < 10 {
        seq![digit_char(n)]
    } else {
        decimal(n / 10).push(digit_char(n % 10))
    }
}

/// The first index at or after `i` where `c` occurs in `s`, or -1.
pub open spec fn find_char_from(s: Seq<char>, c: char, i: int) -> int
    decreases s.len() - i,
{
    if i < 0 || i >= s.len() {
        -1
    } else if s[i] == c {
        i
    } else {
        find_char_from(s, c, i + 1)
    }
}

/// `a` followed by `b` occurs in `s` at `i`.
pub open spec fn pair_at(s: Seq<char>, i: int, a: char, b: char) -> bool {
    0 <= i && i + 1 < s.len() && s[i] == a && s[i + 1] == b
}

/// The first index at or after `i` where `a` followed by `b` occurs, or -1.
pub open spec fn find_pair_from(s: Seq<char>, a: char, b: char, i: int) -> int
    decreases s.len() - i,
{
    if i < 0 || i + 1 >= s.len() {
        -1
    } else if pair_at(s, i, a, b) {
        i
    } else {
        find_pair_from(s, a, b, i + 1)
    }
}

/// `a` followed by `b` occurs somewhere in `s`.
pub open spec fn has_pair(s: Seq<char>, a: char, b: char) -> bool {
    find_pair_from(s, a, b, 0) >= 0
}

/// The characters `from..to` of `v`.
pub fn sub_chars(v: &[char], from: usize, to: usize) -> (r: Vec<char>)
    requires
        from <= to <= v@.len(),
    ensures
        r@ == v@.subrange(from as int, to as int),
{
    let mut r: Vec<char> = Vec::new();
    let mut i: usize = from;
    while i < to
        invariant
            from <= i <= to <= v@.len(),
            r@ == v@.subrange(from as int, i as int),
        decreases to - i,
    {
        r.push(v[i]);
        i = i + 1;
        assert(r@ =~= v@.subrange(from as int, i as int));
    }
    r
}

/// `v` without leading and trailing whitespace.
pub fn trim_chars(v: &[char]) -> (r: Vec<char>)
    ensures
        r@ == trim(v@),
{
    let e = trim_end_len(v);
    let head = sub_chars(v, 0, e);
    assert(head@ == trim_end(v@));
    let b = trim_start_len(head.as_slice());
    let r = sub_chars(head.as_slice(), b, head.len());
    assert(r@ =~= head@.skip(b as int));
    r
}

/// `v` with ASCII capitals lowercased.
pub fn lower_chars(v: &[char]) -> (r: Vec<char>)
    ensures
        r@ == ascii_lower(v@),
{
    let mut r: Vec<char> = Vec::new();
    let mut i: usize = 0;
    while i < v.len()
        invariant
            i <= v@.len(),
            r@ == ascii_lower(v@.take(i as int)),
        decreases v@.len() - i,
    {
        let c = v[i];
        let u = c as u32;
        let l = if 65 <= u && u <= 90 {
            let w = u + 32;
            assert(w == 97 || w == 98 || w == 99 || w == 100 || w == 101 || w == 102 || w == 103 || w
                == 104 || w == 105 || w == 106 || w == 107 || w == 108 || w == 109 || w == 110 || w == 111
                || w == 112 || w == 113 || w == 114 || w == 115 || w == 116 || w == 117 || w == 118 || w
                == 119 || w == 120 || w == 121 || w == 122);
            char_from_ascii(w)
        } else {
            c
        };
        r.push(l);
        i = i + 1;
        assert(r@ =~= ascii_lower(v@.take(i as int)));
    }
    assert(v@.take(i as int) =~= v@);
    r
}

/// The character with ASCII code `u`.
fn char_from_ascii(u: u32) -> (c: char)
    requires
        u < 128,
    ensures
        c as u32 == u,
{
    let b = u as u8;
    b as char
}

/// Whether `c` is a decimal digit.
pub fn is_digit_char(c: char) -> (r: bool)
    ensures
        r == is_digit(c),
{
    let u = c as u32;
    48 <= u && u <= 57
}

proof fn lemma_digits_value_prefix(s: Seq<char>, k: int)
    requires
        0 <= k <= s.len(),
    ensures
        digits_value(s.take(k)) <= digits_value(s),
    decreases s.len() - k,
{
    if k < s.len() {
        lemma_digits_value_prefix(s, k + 1);
        assert(s.take(k + 1).drop_last() =~= s.take(k));
    } else {
        assert(s.take(k) =~= s);
    }
}

/// Reads `v` as an unsigned decimal number (see [`parse_usize_spec`]).
pub fn parse_usize(v: &[char]) -> (r: Option<usize>)
    ensures
        r == parse_usize_spec(v@),
{
    let start: usize = if v.len() > 0 && v[0] == '+' { 1 } else { 0 };
    let ghost b = if v@.len() > 0 && v@[0] == '+' { v@.skip(1) } else { v@ };
    assert(b =~= v@.skip(start as int));
    if start >= v.len() {
        return None;
    }
    let mut value: usize = 0;
    let mut i: usize = start;
    while i < v.len()
        invariant
            start <= i <= v@.len(),
            b == v@.skip(start as int),
            b == (if v@.len() > 0 && v@[0] == '+' { v@.skip(1) } else { v@ }),
            b.len() > 0,
            all_digits(b.take(i - start)),
            value == digits_value(b.take(i - start)),
        decreases v@.len() - i,
    {
        let c = v[i];
        if !is_digit_char(c) {
            proof {
                assert(b[i - start] == c);
                assert(!all_digits(b));
            }
            return None;
        }
        let d = (c as u32 - 48) as usize;
        let ghost t = b.take(i + 1 - start);
        proof {
            assert(t.drop_last() =~= b.take(i - start));
            assert(t.last() == c);
        }
        let m = value.checked_mul(10);
        match m {
            None => {
                proof {
                    lemma_digits_value_prefix(b, i + 1 - start);
                }
                return None;
            },
            Some(m) => {
                let a = m.checked_add(d);
                match a {
                    None => {
                        proof {
                            lemma_digits_value_prefix(b, i + 1 - start);
                        }
                        return None;
                    },
                    Some(a) => {
                        value = a;
                    },
                }
            },
        }
        i = i + 1;
        proof {
            assert forall|j: int| 0 <= j < t.len() implies is_digit(#[trigger] t[j]) by {
                if j < t.len() - 1 {
                    assert(t[j] == b.take(i - 1 - start)[j]);
                }
            }
        }
    }
    assert(b.take(i - start) =~= b);
    Some(value)
}

/// Appends the decimal rendering of `n` to `s`.
pub fn push_decimal(s: &mut String, n: usize)
    ensures
        final(s)@ == old(s)@ + decimal(n as nat),
    decreases n,
{
    if n >= 10 {
        push_decimal(s, n / 10);
    }
    let d = (n % 10) as u32;
    let c = char_from_ascii(48 + d);
    push_char(s, c);
    proof {
        assert(c == digit_char((n % 10) as nat));
        if n >= 10 {
            assert(decimal(n as nat) == decimal((n / 10) as nat).push(digit_char((n % 10) as nat)));
        }
    }
    assert(s@ =~= old(s)@ + decimal(n as nat));
}

/// Appends the decimal rendering of `n` (up to 128 bits) to `s`.
pub fn push_decimal_wide(s: &mut String, n: u128)
    ensures
        final(s)@ == old(s)@ + decimal(n as nat),
    decreases n,
{
    if n >= 10 {
        push_decimal_wide(s, n / 10);
    }
    let d = (n % 10) as u32;
    let c = char_from_ascii(48 + d);
    push_char(s, c);
    proof {
        assert(c == digit_char((n % 10) as nat));
        if n >= 10 {
            assert(decimal(n as nat) == decimal((n / 10) as nat).push(digit_char((n % 10) as nat)));
        }
    }
    assert(s@ =~= old(s)@ + decimal(n as nat));
}

/// The decimal rendering of `n`.
pub fn format_usize(n: usize) -> (s: String)
    ensures
        s@ == decimal(n as nat),
{
    let mut s = String::new();
    push_decimal(&mut s, n);
    assert(s@ =~= decimal(n as nat));
    s
}

/// The first index of `c` in `v`, if any.
pub fn find_char(v: &[char], c: char) -> (r: Option<usize>)
    ensures
        match r {
            Some(i) => i == find_char_from(v@, c, 0) && i < v@.len() && v@[i as int] == c,
            None => find_char_from(v@, c, 0) == -1,
        },
        find_char_from(v@, c, 0) == -1 <==> !v@.contains(c),
{
    let mut i: usize = 0;
    while i < v.len()
        invariant
            i <= v@.len(),
            find_char_from(v@, c, 0) == find_char_from(v@, c, i as int),
            forall|j: int| 0 <= j < i ==> v@[j] != c,
        decreases v@.len() - i,
    {
        if v[i] == c {
            proof {
                assert(v@.contains(c));
                lemma_find_char_found(v@, c, i as int);
            }
            return Some(i);
        }
        i = i + 1;
    }
    proof {
        assert(!v@.contains(c));
    }
    None
}

proof fn lemma_find_char_found(s: Seq<char>, c: char, i: int)
    requires
        0 <= i < s.len(),
        s[i] == c,
        forall|j: int| 0 <= j < i ==> s[j] != c,
    ensures
        find_char_from(s, c, 0) == i,
        find_char_from(s, c, 0) != -1,
{
    lemma_find_char_skip(s, c, 0, i);
}

proof fn lemma_find_char_skip(s: Seq<char>, c: char, from: int, i: int)
    requires
        0 <= from <= i < s.len(),
        s[i] == c,
        forall|j: int| from <= j < i ==> s[j] != c,
    ensures
        find_char_from(s, c, from) == i,
    decreases i - from,
{
    if from < i {
        lemma_find_char_skip(s, c, from + 1, i);
    }
}

/// The first index where `a` followed by `b` occurs in `v`, if any.
pub fn find_pair(v: &[char], a: char, b: char) -> (r: Option<usize>)
    ensures
        match r {
            Some(i) => i == find_pair_from(v@, a, b, 0) && pair_at(v@, i as int, a, b),
            None => find_pair_from(v@, a, b, 0) == -1,
        },
{
    let n = v.len();
    if n < 2 {
        return None;
    }
    let mut i: usize = 0;
    while i < n - 1
        invariant
            n == v@.len(),
            n >= 2,
            i <= n - 1,
            find_pair_from(v@, a, b, 0) == find_pair_from(v@, a, b, i as int),
        decreases n - i,
    {
        if v[i] == a && v[i + 1] == b {
            return Some(i);
        }
        i = i + 1;
    }
    None
}


/// `q` occurs in `s` at index `i`.
pub open spec fn sub_at(s: Seq<char>, i: int, q: Seq<char>) -> bool {
    0 <= i && i + q.len() <= s.len() && s.subrange(i, i + q.len()) == q
}

/// `q` occurs somewhere in `s` (the empty text occurs everywhere).
pub open spec fn has_sub(s: Seq<char>, q: Seq<char>) -> bool {
    exists|i: int| sub_at(s, i, q)
}

/// Whether `q` occurs in `s` at `i`.
pub(crate) fn matches_at(s: &[char], i: usize, q: &[char]) -> (r: bool)
    requires
        i + q@.len() <= s@.len(),
    ensures
        r == sub_at(s@, i as int, q@),
{
    let _n = s.len();
    let mut k: usize = 0;
    while k < q.len()
        invariant
            s@.len() <= usize::MAX,
            k <= q@.len(),
            i + q@.len() <= s@.len(),
            forall|j: int| 0 <= j < k ==> s@[i + j] == q@[j],
        decreases q@.len() - k,
    {
        if s[i + k] != q[k] {
            proof {
                assert(s@.subrange(i as int, i + q@.len())[k as int] != q@[k as int]);
            }
            return false;
        }
        k = k + 1;
    }
    assert(s@.subrange(i as int, i + q@.len()) =~= q@);
    true
}

/// Whether `q` occurs in `s`.
pub fn contains_chars(s: &[char], q: &[char]) -> (r: bool)
    ensures
        r == has_sub(s@, q@),
{
    if q.len() > s.len() {
        proof {
            assert forall|i: int| !sub_at(s@, i, q@) by {}
        }
        return false;
    }
    if q.len() == 0 {
        assert(sub_at(s@, 0, q@)) by {
            assert(s@.subrange(0, 0) =~= q@);
        }
        return true;
    }
    let last = s.len() - q.len();
    let mut i: usize = 0;
    while i <= last
        invariant
            last == s@.len() - q@.len(),
            last < s@.len() <= usize::MAX,
            i <= last + 1,
            forall|j: int| 0 <= j < i ==> !sub_at(s@, j, q@),
        decreases last + 1 - i,
    {
        if matches_at(s, i, q) {
            return true;
        }
        i = i + 1;
    }
    proof {
        assert forall|j: int| !sub_at(s@, j, q@) by {
            if 0 <= j < i {
            }
        }
    }
    false
}


/// The decimal rendering of `n` is a non-empty run of digits whose value
/// is `n`.
pub proof fn lemma_decimal_digits(n: nat)
    ensures
        decimal(n).len() >= 1,
        all_digits(decimal(n)),
        digits_value(decimal(n)) == n,
    decreases n,
{
    assert(digit_val(digit_char(n % 10)) == n % 10) by {
        let u: u32 = (48 + n % 10) as u32;
        vstd::utf8::char_u32_cast(u as char, u);
    }
    if n >= 10 {
        lemma_decimal_digits(n / 10);
        let d = decimal(n / 10);
        let e = d.push(digit_char(n % 10));
        assert(e.drop_last() =~= d);
        assert(digits_value(e) == digits_value(d) * 10 + digit_val(digit_char(n % 10)));
        assert((n / 10) * 10 + n % 10 == n) by (nonlinear_arith);
        assert forall|i: int| 0 <= i < e.len() implies is_digit(#[trigger] e[i]) by {
            if i < d.len() {
                assert(e[i] == d[i]);
            }
        }
    } else {
        let e = decimal(n);
        assert(e.drop_last() =~= Seq::<char>::empty());
        assert(digits_value(e.drop_last()) == 0);
        assert(e.last() == digit_char(n));
        assert(n % 10 == n);
    }
}

/// Reading the decimal rendering of `n` gives `n` back.
pub proof fn lemma_parse_decimal(n: usize)
    ensures
        parse_usize_spec(decimal(n as nat)) == Some(n),
{
    lemma_decimal_digits(n as nat);
    let d = decimal(n as nat);
    assert(is_digit(d[0]));
}

/// Text without `a` has no pair starting with `a`.
pub proof fn lemma_no_pair(s: Seq<char>, a: char, b: char, i: int)
    requires
        !s.contains(a),
        i >= 0,
    ensures
        find_pair_from(s, a, b, i) == -1,
    decreases s.len() - i,
{
    if i + 1 < s.len() {
        assert(s[i] != a);
        lemma_no_pair(s, a, b, i + 1);
    }
}

/// In text whose first occurrence of `c` is at `k`, the search finds `k`.
pub proof fn lemma_find_char_at(s: Seq<char>, c: char, k: int)
    requires
        0 <= k < s.len(),
        s[k] == c,
        forall|j: int| 0 <= j < k ==> s[j] != c,
    ensures
        find_char_from(s, c, 0) == k,
{
    lemma_find_char_found(s, c, k);
}

} // verus!
