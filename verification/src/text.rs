//! Character-level helpers on strings: conversion between `String` and
//! `Vec<char>`, and the small text predicates the rest of the crate uses.

use vstd::prelude::*;
use vstd::utf8::is_ascii_chars;

verus! {

/// The characters of `s`, in order.
pub fn chars_of(s: &str) -> (v: Vec<char>)
    ensures
        v@ == s@,
{
    let mut v: Vec<char> = Vec::new();
    for c in it: s.chars()
        invariant
            v@ == it.seq().take(it.index() as int),
    {
        v.push(c);
    }
    v
}

/// `a` sorts strictly before `b` in the order of `str`'s `Ord`: code point by
/// code point, a proper prefix first (UTF-8 byte order equals code point order).
pub open spec fn lex_lt(a: Seq<char>, b: Seq<char>) -> bool
    decreases a.len(),
{
    if a.len() == 0 {
        b.len() > 0
    } else if b.len() == 0 {
        false
    } else if a[0] != b[0] {
        (a[0] as u32) < (b[0] as u32)
    } else {
        lex_lt(a.drop_first(), b.drop_first())
    }
}

/// Whether `a` sorts strictly before `b`; see `lex_lt`.
pub fn chars_lt(a: &Vec<char>, b: &Vec<char>) -> (r: bool)
    ensures
        r == lex_lt(a@, b@),
{
    let mut i: usize = 0;
    assert(a@.skip(0) == a@);
    assert(b@.skip(0) == b@);
    while i < a.len() && i < b.len() && a[i] == b[i]
        invariant
            i <= a@.len(),
            i <= b@.len(),
            lex_lt(a@, b@) == lex_lt(a@.skip(i as int), b@.skip(i as int)),
        decreases a.len() - i,
    {
        assert(a@.skip(i as int).drop_first() == a@.skip(i + 1));
        assert(b@.skip(i as int).drop_first() == b@.skip(i + 1));
        i = i + 1;
    }
    if i == a.len() {
        i < b.len()
    } else if i == b.len() {
        false
    } else {
        (a[i] as u32) < (b[i] as u32)
    }
}

/// A `String` holding exactly the characters of `v`.
pub fn string_from_chars(v: &Vec<char>) -> (s: String)
    ensures
        s@ == v@,
{
    let mut s = String::new();
    for i in 0..v.len()
        invariant
            s@ == v@.take(i as int),
    {
        push_char(&mut s, v[i]);
        assert(v@.take(i + 1) == v@.take(i as int).push(v@[i as int]));
    }
    assert(v@.take(v.len() as int) == v@);
    s
}

/// Appends one character with `String::push`.
#[verifier::external_body]
pub(crate) fn push_char(s: &mut String, c: char)
    ensures
        final(s)@ == old(s)@.push(c),
{
    s.push(c);
}


/// Appends the characters of `t` to `s`.
pub fn push_str(s: &mut String, t: &str)
    ensures
        final(s)@ == old(s)@ + t@,
{
    let cs = chars_of(t);
    let ghost s0 = s@;
    for i in 0..cs.len()
        invariant
            s@ == s0 + cs@.take(i as int),
    {
        push_char(s, cs[i]);
        assert(cs@.take(i + 1) == cs@.take(i as int).push(cs@[i as int]));
    }
    assert(cs@.take(cs.len() as int) == cs@);
}

/// The character of decimal digit `d` (`d < 10`).
pub open spec fn digit_char(d: nat) -> char {
    ((d + 48) as u8) as char
}

/// The decimal notation of `n`: its digits, most significant first, without
/// leading zeros (`"0"` for zero).
pub open spec fn decimal(n: nat) -> Seq<char>
    decreases n,
{
    if n < 10 {
        seq![digit_char(n)]
    } else {
        decimal(n / 10).push(digit_char(n % 10))
    }
}

/// Appends the decimal notation of `n` to `s`.
pub fn push_decimal(s: &mut String, n: u64)
    ensures
        final(s)@ == old(s)@ + decimal(n as nat),
    decreases n,
{
    if n >= 10 {
        push_decimal(s, n / 10);
    }
    let d: u8 = (n % 10) as u8;
    push_char(s, (d + 48u8) as char);
    proof {
        if n >= 10 {
            assert(decimal(n as nat) == decimal((n / 10) as nat).push(digit_char((n % 10) as nat)));
        } else {
            assert(decimal(n as nat) == seq![digit_char(n as nat)]);
        }
    }
}

/// `p` occurs in `h` as a contiguous run.
pub open spec fn has_substring(h: Seq<char>, p: Seq<char>) -> bool {
    exists|i: int| 0 <= i && i + p.len() <= h.len() && #[trigger] h.subrange(i, i + p.len()) == p
}

/// `p` is a prefix of `s`.
pub open spec fn has_prefix(s: Seq<char>, p: Seq<char>) -> bool {
    p.len() <= s.len() && s.take(p.len() as int) == p
}

/// `h[i..i + p.len()] == p`.
fn matches_at(h: &Vec<char>, p: &Vec<char>, i: usize) -> (r: bool)
    requires
        i + p@.len() <= h@.len(),
    ensures
        r == (h@.subrange(i as int, i + p@.len()) == p@),
{
    let hl = h.len();
    let mut k: usize = 0;
    while k < p.len()
        invariant
            hl == h@.len(),
            i + p@.len() <= h@.len(),
            k <= p@.len(),
            forall|q: int| 0 <= q < k ==> h@[i + q] == p@[q],
        decreases p.len() - k,
    {
        if h[i + k] != p[k] {
            assert(h@.subrange(i as int, i + p@.len())[k as int] != p@[k as int]);
            return false;
        }
        k = k + 1;
    }
    assert(h@.subrange(i as int, i + p@.len()) =~= p@);
    true
}

/// Whether `p` occurs in `h`.
pub fn contains_chars(h: &Vec<char>, p: &Vec<char>) -> (r: bool)
    ensures
        r == has_substring(h@, p@),
{
    if p.len() > h.len() {
        return false;
    }
    let last = h.len() - p.len();
    let mut i: usize = 0;
    loop
        invariant
            last == h@.len() - p@.len(),
            p@.len() <= h@.len(),
            i <= last,
            forall|q: int| 0 <= q < i ==> #[trigger] h@.subrange(q, q + p@.len()) != p@,
        decreases last - i,
    {
        if matches_at(h, p, i) {
            return true;
        }
        if i == last {
            return false;
        }
        i = i + 1;
    }
}

/// Whether `s` starts with `p`.
pub fn starts_with_chars(s: &Vec<char>, p: &Vec<char>) -> (r: bool)
    ensures
        r == has_prefix(s@, p@),
{
    if p.len() > s.len() {
        return false;
    }
    let r = matches_at(s, p, 0);
    assert(s@.subrange(0, p@.len() as int) == s@.take(p@.len() as int));
    r
}

/// The lower-case mapping of `str::to_lowercase` (full Unicode case mapping).
pub uninterp spec fn lowercase(s: Seq<char>) -> Seq<char>;

/// Text of ASCII characters other than the capital letters `A` to `Z`.
pub open spec fn ascii_lower_text(t: Seq<char>) -> bool {
    &&& is_ascii_chars(t)
    &&& forall|i: int| 0 <= i < t.len() ==> !('A' <= #[trigger] t[i] <= 'Z')
}

/// Calls `str::to_lowercase`; the result is `lowercase` of the input. Text
/// of ASCII characters other than the capital letters comes back unchanged:
/// under Unicode's case mapping, which the method follows, the capital
/// letters are the only ASCII characters with a lower-case form of their own.
#[verifier::external_body]
pub(crate) fn to_lowercase(s: &str) -> (r: String)
    ensures
        r@ == lowercase(s@),
        ascii_lower_text(s@) ==> r@ == s@,
{
    s.to_lowercase()
}

/// `lex_lt` is a strict total order on character sequences.
pub proof fn lemma_lex_order(a: Seq<char>, b: Seq<char>)
    ensures
        !lex_lt(a, a),
        lex_lt(a, b) ==> !lex_lt(b, a),
        a != b ==> lex_lt(a, b) || lex_lt(b, a),
    decreases a.len(),
{
    if a.len() > 0 {
        lemma_lex_order(a.drop_first(), a.drop_first());
        if b.len() > 0 {
            lemma_lex_order(a.drop_first(), b.drop_first());
            if a[0] != b[0] {
                vstd::utf8::char_u32_cast(a[0], a[0] as u32);
                vstd::utf8::char_u32_cast(b[0], b[0] as u32);
            }
            if a[0] == b[0] && a != b {
                assert(a.drop_first() != b.drop_first()) by {
                    if a.drop_first() == b.drop_first() {
                        assert(a =~= seq![a[0]] + a.drop_first());
                        assert(b =~= seq![b[0]] + b.drop_first());
                    }
                }
            }
        }
    } else {
        if b.len() == 0 {
            assert(a =~= b);
        }
    }
}

/// `lex_lt` is transitive.
pub proof fn lemma_lex_trans(a: Seq<char>, b: Seq<char>, c: Seq<char>)
    requires
        lex_lt(a, b),
        lex_lt(b, c),
    ensures
        lex_lt(a, c),
    decreases a.len(),
{
    if a.len() > 0 && b.len() > 0 && c.len() > 0 {
        if a[0] == b[0] && b[0] == c[0] {
            lemma_lex_trans(a.drop_first(), b.drop_first(), c.drop_first());
        }
    }
}

/// Removes the last character with `String::pop`.
#[verifier::external_body]
pub(crate) fn pop_char(s: &mut String) -> (r: Option<char>)
    ensures
        old(s)@.len() == 0 ==> r is None && final(s)@ == old(s)@,
        old(s)@.len() > 0 ==> r == Some(old(s)@.last()) && final(s)@ == old(s)@.drop_last(),
{
    s.pop()
}

/// Number of distinct entries of `s`.
pub open spec fn distinct_count(s: Seq<Seq<char>>) -> nat
    decreases s.len(),
{
    if s.len() == 0 {
        0
    } else {
        distinct_count(s.drop_last()) + if s.drop_last().contains(s.last()) { 0nat } else { 1nat }
    }
}

/// The characters of each string slice.
pub open spec fn str_views(v: Seq<&str>) -> Seq<Seq<char>> {
    v.map_values(|s: &str| s@)
}

/// The characters of each character vector.
pub open spec fn char_vec_views(v: Seq<Vec<char>>) -> Seq<Seq<char>> {
    v.map_values(|c: Vec<char>| c@)
}

/// Whether two character vectors are equal.
pub fn chars_eq(a: &Vec<char>, b: &Vec<char>) -> (r: bool)
    ensures
        r == (a@ == b@),
{
    if a.len() != b.len() {
        return false;
    }
    let mut j: usize = 0;
    while j < a.len()
        invariant
            j <= a@.len(),
            a@.len() == b@.len(),
            forall|q: int| 0 <= q < j ==> a@[q] == b@[q],
        decreases a.len() - j,
    {
        if a[j] != b[j] {
            return false;
        }
        j = j + 1;
    }
    assert(a@ =~= b@);
    true
}

/// Counts the distinct strings of `v`.
pub fn count_distinct(v: &Vec<&str>) -> (n: usize)
    ensures
        n == distinct_count(str_views(v@)),
{
    let ghost vs = str_views(v@);
    let mut seen: Vec<Vec<char>> = Vec::new();
    let mut n: usize = 0;
    for i in 0..v.len()
        invariant
            vs == str_views(v@),
            n == distinct_count(vs.take(i as int)),
            n == seen@.len(),
            n <= i,
            forall|x: Seq<char>| vs.take(i as int).contains(x) <==> #[trigger] char_vec_views(seen@).contains(x),
    {
        let c = chars_of(v[i]);
        let ghost pre = vs.take(i as int);
        proof {
            assert(vs.take(i + 1).drop_last() == pre);
            assert(vs.take(i + 1).last() == c@);
            assert(vs.take(i + 1) == pre.push(c@));
        }
        let mut found = false;
        let mut k: usize = 0;
        while k < seen.len()
            invariant
                k <= seen@.len(),
                !found ==> forall|q: int| 0 <= q < k ==> seen@[q]@ != c@,
                found ==> char_vec_views(seen@).contains(c@),
            decreases seen.len() - k,
        {
            if !found && chars_eq(&seen[k], &c) {
                assert(char_vec_views(seen@)[k as int] == c@);
                found = true;
            }
            k = k + 1;
        }
        let ghost sv = char_vec_views(seen@);
        assert(pre.contains(c@) == sv.contains(c@));
        if !found {
            assert(!sv.contains(c@)) by {
                if sv.contains(c@) {
                    let q = choose|q: int| 0 <= q < sv.len() && #[trigger] sv[q] == c@;
                    assert(seen@[q]@ == c@);
                }
            }
            seen.push(c);
            n = n + 1;
            proof {
                assert(char_vec_views(seen@) == sv.push(vs.take(i + 1).last()));
                assert forall|x: Seq<char>| vs.take(i + 1).contains(x) <==> #[trigger] char_vec_views(seen@).contains(x) by {
                    crate::graph::lemma_push_contains(pre, vs.take(i + 1).last(), x);
                    crate::graph::lemma_push_contains(sv, vs.take(i + 1).last(), x);
                }
            }
        } else {
            proof {
                assert forall|x: Seq<char>| vs.take(i + 1).contains(x) <==> #[trigger] char_vec_views(seen@).contains(x) by {
                    crate::graph::lemma_push_contains(pre, vs.take(i + 1).last(), x);
                }
            }
        }
    }
    assert(vs.take(v.len() as int) == vs);
    n
}

} // verus!
