//! String primitives shared by the parsers: conversion between strings and
//! character vectors, and the byte order on strings.

use vstd::prelude::*;
use vstd::string::StringSliceAdditionalSpecFns;
use vstd::utf8::encode_utf8;

verus! {

broadcast use vstd::string::group_string_axioms;

/// The characters of each string of `list`.
pub open spec fn views(list: Seq<String>) -> Seq<Seq<char>> {
    Seq::new(list.len(), |i: int| list[i]@)
}

/// A list with the same strings.
pub fn copy_strings(list: &Vec<String>) -> (r: Vec<String>)
    ensures
        views(r@) == views(list@),
{
    let mut r: Vec<String> = Vec::new();
    let mut i: usize = 0;
    while i < list.len()
        invariant
            i <= list@.len(),
            r@.len() == i,
            forall|j: int| 0 <= j < i ==> (#[trigger] r@[j])@ == list@[j]@,
        decreases list@.len() - i,
    {
        r.push(list[i].clone());
        i += 1;
    }
    r
}

/// A copy of the string, where there is one.
pub fn copy_optional(s: &Option<String>) -> (r: Option<String>)
    ensures
        optional_view(r) == optional_view(*s),
{
    match s {
        Some(s) => Some(s.clone()),
        None => None,
    }
}

/// The characters of the string, where there is one.
pub open spec fn optional_view(s: Option<String>) -> Option<Seq<char>> {
    match s {
        Some(s) => Some(s@),
        None => None,
    }
}

/// Appends one character to a string.
///
/// Trusted: `String::push` is documented to append the given `char` to the end
/// of the string; the contract says exactly that of the string's characters.
#[verifier::external_body]
pub(crate) fn push_char(s: &mut String, c: char)
    ensures
        final(s)@ == old(s)@.push(c),
{
    s.push(c);
}

/// The characters of `s`, in order.
pub fn chars_of(s: &str) -> (v: Vec<char>)
    ensures
        v@ == s@,
{
    let mut v: Vec<char> = Vec::new();
    for c in it: s.chars()
        invariant
            it.seq() == s@,
            v@ == s@.take(it.index()),
    {
        v.push(c);
    }
    v
}

/// The string made of the characters of `v`, in order.
pub fn string_of(v: &[char]) -> (s: String)
    ensures
        s@ == v@,
{
    let mut s = String::new();
    let mut i: usize = 0;
    while i < v.len()
        invariant
            i <= v.len(),
            s@ == v@.take(i as int),
        decreases v.len() - i,
    {
        push_char(&mut s, v[i]);
        i += 1;
    }
    s
}

/// `a` and `b` agree on their first `i` bytes, and `a` is the smaller at
/// position `i`: it ends there while `b` goes on, or it holds the smaller byte.
pub open spec fn smaller_at(a: Seq<u8>, b: Seq<u8>, i: int) -> bool {
    &&& 0 <= i <= a.len()
    &&& i < b.len()
    &&& a.take(i) == b.take(i)
    &&& (i < a.len() ==> a[i] < b[i])
}

/// Strict lexicographic order on byte sequences.
pub open spec fn bytes_less(a: Seq<u8>, b: Seq<u8>) -> bool {
    exists|i: int| smaller_at(a, b, i)
}

/// The order in which keys are kept: strict lexicographic order of the UTF-8
/// encodings, which is the order of `str` itself.
pub open spec fn key_less(a: Seq<char>, b: Seq<char>) -> bool {
    bytes_less(encode_utf8(a), encode_utf8(b))
}

proof fn lemma_take_index(a: Seq<u8>, b: Seq<u8>, n: int, i: int)
    requires
        0 <= i < n <= a.len(),
        n <= b.len(),
        a.take(n) == b.take(n),
    ensures
        a[i] == b[i],
{
    assert(a.take(n)[i] == a[i]);
}

proof fn lemma_take_shorter(a: Seq<u8>, b: Seq<u8>, n: int, m: int)
    requires
        0 <= m <= n <= a.len(),
        n <= b.len(),
        a.take(n) == b.take(n),
    ensures
        a.take(m) == b.take(m),
{
}

/// The byte order is transitive.
pub proof fn lemma_bytes_less_transitive(a: Seq<u8>, b: Seq<u8>, c: Seq<u8>)
    requires
        bytes_less(a, b),
        bytes_less(b, c),
    ensures
        bytes_less(a, c),
{
    let i = choose|i: int| smaller_at(a, b, i);
    let j = choose|j: int| smaller_at(b, c, j);
    if i <= j {
        lemma_take_shorter(b, c, j, i);
        if i < j {
            lemma_take_index(b, c, j, i);
        }
        assert(smaller_at(a, c, i));
    } else {
        lemma_take_shorter(a, b, i, j);
        lemma_take_index(a, b, i, j);
        assert(smaller_at(a, c, j));
    }
}

proof fn lemma_bytes_compare_from(a: Seq<u8>, b: Seq<u8>, i: int)
    requires
        0 <= i <= a.len(),
        i <= b.len(),
        a.take(i) == b.take(i),
    ensures
        a == b || bytes_less(a, b) || bytes_less(b, a),
    decreases a.len() - i,
{
    if i == a.len() {
        if i == b.len() {
            assert(a.take(i) == a);
        } else {
            assert(smaller_at(a, b, i));
        }
    } else if i == b.len() {
        assert(smaller_at(b, a, i));
    } else if a[i] < b[i] {
        assert(smaller_at(a, b, i));
    } else if b[i] < a[i] {
        assert(smaller_at(b, a, i));
    } else {
        assert(a.take(i + 1) =~= a.take(i).push(a[i]));
        assert(b.take(i + 1) =~= b.take(i).push(b[i]));
        lemma_bytes_compare_from(a, b, i + 1);
    }
}

/// Two distinct byte sequences are ordered one way or the other.
pub proof fn lemma_bytes_less_total(a: Seq<u8>, b: Seq<u8>)
    ensures
        a == b || bytes_less(a, b) || bytes_less(b, a),
{
    assert(a.take(0) =~= b.take(0));
    lemma_bytes_compare_from(a, b, 0);
}

/// The key order is transitive.
pub proof fn lemma_key_less_transitive(a: Seq<char>, b: Seq<char>, c: Seq<char>)
    requires
        key_less(a, b),
        key_less(b, c),
    ensures
        key_less(a, c),
{
    lemma_bytes_less_transitive(encode_utf8(a), encode_utf8(b), encode_utf8(c));
}

/// Two distinct keys are ordered one way or the other.
pub proof fn lemma_key_less_total(a: Seq<char>, b: Seq<char>)
    ensures
        a == b || key_less(a, b) || key_less(b, a),
{
    lemma_bytes_less_total(encode_utf8(a), encode_utf8(b));
    vstd::utf8::encode_utf8_decode_utf8(a);
    vstd::utf8::encode_utf8_decode_utf8(b);
}

/// Whether `a` and `b` hold the same characters.
pub fn str_eq(a: &str, b: &str) -> (r: bool)
    ensures
        r == (a@ == b@),
{
    let x = a.as_bytes();
    let y = b.as_bytes();
    proof {
        vstd::utf8::encode_utf8_decode_utf8(a@);
        vstd::utf8::encode_utf8_decode_utf8(b@);
    }
    if x.len() != y.len() {
        return false;
    }
    let mut i: usize = 0;
    while i < x.len()
        invariant
            i <= x.len(),
            x.len() == y.len(),
            x@ == encode_utf8(a@),
            y@ == encode_utf8(b@),
            x@.take(i as int) == y@.take(i as int),
        decreases x.len() - i,
    {
        if x[i] != y[i] {
            return false;
        }
        i += 1;
    }
    assert(x@.take(x@.len() as int) == x@);
    assert(y@.take(y@.len() as int) == y@);
    true
}

/// Whether `a` comes before `b` in the order of `str`.
pub fn str_less(a: &str, b: &str) -> (r: bool)
    ensures
        r == key_less(a@, b@),
{
    let x = a.as_bytes();
    let y = b.as_bytes();
    let mut i: usize = 0;
    while i < x.len() && i < y.len() && x[i] == y[i]
        invariant
            i <= x.len(),
            i <= y.len(),
            x@.take(i as int) == y@.take(i as int),
        decreases x.len() - i,
    {
        i += 1;
    }
    let r = i < y.len() && (i == x.len() || x[i] < y[i]);
    proof {
        if r {
            assert(smaller_at(x@, y@, i as int));
        } else {
            assert forall|j: int| !smaller_at(x@, y@, j) by {
                if smaller_at(x@, y@, j) {
                    if j < i {
                        lemma_take_index(x@, y@, i as int, j);
                    } else if j > i {
                        lemma_take_index(x@, y@, j, i as int);
                    }
                }
            }
        }
    }
    r
}

/// Whether `s` begins with `prefix`.
pub open spec fn starts_with(s: Seq<char>, prefix: Seq<char>) -> bool {
    s.len() >= prefix.len() && s.take(prefix.len() as int) == prefix
}

/// Whether `s` ends with `suffix`.
pub open spec fn ends_with(s: Seq<char>, suffix: Seq<char>) -> bool {
    s.len() >= suffix.len() && s.skip(s.len() - suffix.len()) == suffix
}

/// `s` without `prefix` at its start, as often as it stands there.
pub open spec fn strip_prefix(s: Seq<char>, prefix: Seq<char>) -> Seq<char>
    decreases s.len(),
{
    if prefix.len() > 0 && starts_with(s, prefix) {
        strip_prefix(s.skip(prefix.len() as int), prefix)
    } else {
        s
    }
}

/// `s` without `suffix` at its end, as often as it stands there.
pub open spec fn strip_suffix(s: Seq<char>, suffix: Seq<char>) -> Seq<char>
    decreases s.len(),
{
    if suffix.len() > 0 && ends_with(s, suffix) {
        strip_suffix(s.take(s.len() - suffix.len()), suffix)
    } else {
        s
    }
}

/// Whether `pattern` stands in `s` at position `at`.
pub open spec fn occurs_at(s: Seq<char>, at: int, pattern: Seq<char>) -> bool {
    0 <= at && at + pattern.len() <= s.len() && s.subrange(at, at + pattern.len()) == pattern
}

/// Whether `pattern` stands in `s` at position `at`.
pub fn matches_at(s: &[char], at: usize, pattern: &[char]) -> (r: bool)
    ensures
        r == occurs_at(s@, at as int, pattern@),
{
    if at > s.len() || pattern.len() > s.len() - at {
        return false;
    }
    let mut i: usize = 0;
    while i < pattern.len()
        invariant
            i <= pattern.len(),
            at + pattern.len() <= s.len(),
            s@.subrange(at as int, at + i) == pattern@.take(i as int),
        decreases pattern.len() - i,
    {
        if s[at + i] != pattern[i] {
            return false;
        }
        i += 1;
    }
    assert(pattern@.take(pattern@.len() as int) =~= pattern@);
    true
}

/// Where what is left of the characters of `s` between `from` and `to`
/// begins, once `prefix` is taken from its start as often as it stands there.
pub(crate) fn strip_prefix_start(s: &[char], from: usize, to: usize, prefix: &[char]) -> (n: usize)
    requires
        from <= to <= s.len(),
    ensures
        from <= n <= to,
        s@.subrange(n as int, to as int) == strip_prefix(
            s@.subrange(from as int, to as int),
            prefix@,
        ),
{
    let mut n: usize = from;
    if prefix.len() == 0 {
        return n;
    }
    while to - n >= prefix.len() && matches_at(s, n, prefix)
        invariant
            from <= n <= to <= s.len(),
            prefix@.len() > 0,
            strip_prefix(s@.subrange(n as int, to as int), prefix@) == strip_prefix(
                s@.subrange(from as int, to as int),
                prefix@,
            ),
        decreases to - n,
    {
        proof {
            let rest = s@.subrange(n as int, to as int);
            assert(rest.take(prefix@.len() as int) =~= s@.subrange(
                n as int,
                n + prefix@.len(),
            ));
            assert(rest.skip(prefix@.len() as int) =~= s@.subrange(
                n + prefix@.len(),
                to as int,
            ));
        }
        n = n + prefix.len();
    }
    proof {
        let rest = s@.subrange(n as int, to as int);
        if to - n >= prefix@.len() {
            assert(rest.take(prefix@.len() as int) =~= s@.subrange(
                n as int,
                n + prefix@.len(),
            ));
        }
    }
    n
}

/// Where what is left of the characters of `s` between `from` and `to` ends,
/// once `suffix` is taken from its end as often as it stands there.
pub(crate) fn strip_suffix_end(s: &[char], from: usize, to: usize, suffix: &[char]) -> (n: usize)
    requires
        from <= to <= s.len(),
    ensures
        from <= n <= to,
        s@.subrange(from as int, n as int) == strip_suffix(
            s@.subrange(from as int, to as int),
            suffix@,
        ),
{
    let mut n: usize = to;
    if suffix.len() == 0 {
        return n;
    }
    while n - from >= suffix.len() && matches_at(s, n - suffix.len(), suffix)
        invariant
            from <= n <= to <= s.len(),
            suffix@.len() > 0,
            strip_suffix(s@.subrange(from as int, n as int), suffix@) == strip_suffix(
                s@.subrange(from as int, to as int),
                suffix@,
            ),
        decreases n,
    {
        proof {
            let rest = s@.subrange(from as int, n as int);
            assert(rest.skip(rest.len() - suffix@.len()) =~= s@.subrange(
                n - suffix@.len(),
                n as int,
            ));
            assert(rest.take(rest.len() - suffix@.len()) =~= s@.subrange(
                from as int,
                n - suffix@.len(),
            ));
        }
        n = n - suffix.len();
    }
    proof {
        let rest = s@.subrange(from as int, n as int);
        if n - from >= suffix@.len() {
            assert(rest.skip(rest.len() - suffix@.len()) =~= s@.subrange(
                n - suffix@.len(),
                n as int,
            ));
        }
    }
    n
}

} // verus!
