//! Version comparison and fuzzy matching.
use vstd::prelude::*;
use std::cmp::Ordering;

verus! {

/// The parts of `s` between dots (an empty `s` has one empty part).
pub open spec fn dot_parts(s: Seq<char>) -> Seq<Seq<char>>
    decreases s.len(),
{
    if s.len() == 0 {
        seq![seq![]]
    } else {
        let w = dot_parts(s.drop_last());
        if s.last() == '.' {
            w.push(seq![])
        } else {
            w.drop_last().push(w.last().push(s.last()))
        }
    }
}

pub open spec fn is_digit(c: char) -> bool {
    '0' <= c <= '9'
}

/// Value of a string of decimal digits.
pub open spec fn digits_value(s: Seq<char>) -> nat
    decreases s.len(),
{
    if s.len() == 0 {
        0
    } else {
        digits_value(s.drop_last()) * 10 + ((s.last() as u32) - 48) as nat
    }
}

/// `u32::from_str`: an optional `+` then at least one digit, and a value
/// that fits.
pub open spec fn parses_as_u32(s: Seq<char>) -> bool {
    let d = unsigned_digits(s);
    d.len() > 0 && all_digits(d) && digits_value(d) <= u32::MAX
}

/// `s` without its leading `+`, if any.
pub open spec fn unsigned_digits(s: Seq<char>) -> Seq<char> {
    if s.len() > 0 && s[0] == '+' {
        s.drop_first()
    } else {
        s
    }
}

pub open spec fn all_digits(d: Seq<char>) -> bool {
    forall|i: int| 0 <= i < d.len() ==> is_digit(#[trigger] d[i])
}

/// A version part: its number, or 0 where it is no number.
pub open spec fn part_value(s: Seq<char>) -> nat {
    if parses_as_u32(s) {
        digits_value(unsigned_digits(s))
    } else {
        0
    }
}

/// Part `i` of a version, 0 past its end.
pub open spec fn version_part(s: Seq<char>, i: int) -> nat {
    if 0 <= i < dot_parts(s).len() {
        part_value(dot_parts(s)[i])
    } else {
        0
    }
}

/// Comparison of the parts of two versions from `i` on, the shorter padded with zeros.
pub open spec fn cmp_parts_from(a: Seq<char>, b: Seq<char>, i: int) -> Ordering
    decreases (if dot_parts(a).len() > dot_parts(b).len() { dot_parts(a).len() } else { dot_parts(b).len() }) - i,
{
    let n = if dot_parts(a).len() > dot_parts(b).len() { dot_parts(a).len() } else { dot_parts(b).len() };
    if i < 0 || i >= n {
        Ordering::Equal
    } else if version_part(a, i) < version_part(b, i) {
        Ordering::Less
    } else if version_part(a, i) > version_part(b, i) {
        Ordering::Greater
    } else {
        cmp_parts_from(a, b, i + 1)
    }
}

/// Splits a version at its dots and reads each part.
fn version_parts(s: &str) -> (r: Vec<u32>)
    ensures
        r@.len() == dot_parts(s@).len(),
        forall|i: int| 0 <= i < r@.len() ==> r@[i] as nat == part_value(dot_parts(s@)[i]),
{
    let len = s.unicode_len();
    let mut out: Vec<u32> = Vec::new();
    let mut start: usize = 0;
    let mut i: usize = 0;
    assert(s@.take(0) =~= Seq::<char>::empty());
    while i < len
        invariant
            len == s@.len(),
            start <= i <= len,
            dot_parts(s@.take(i as int)) == dot_parts(s@.take(start as int)).take(out@.len() as int).push(s@.subrange(start as int, i as int)),
            out@.len() + 1 == dot_parts(s@.take(i as int)).len(),
            forall|j: int| 0 <= j < out@.len() ==> out@[j] as nat == part_value(dot_parts(s@.take(i as int))[j]),
        decreases len - i,
    {
        let c = s.get_char(i);
        assert(s@.take(i + 1).drop_last() =~= s@.take(i as int));
        assert(s@.take(i + 1).last() == c);
        if c == '.' {
            let v = part_number(s, start, i);
            out.push(v);
            start = i + 1;
            proof {
                assert(s@.subrange(start as int, i + 1) =~= Seq::<char>::empty());
            }
        } else {
            proof {
                assert(s@.subrange(start as int, i + 1) =~= s@.subrange(start as int, i as int).push(c));
            }
        }
        i = i + 1;
    }
    let v = part_number(s, start, len);
    out.push(v);
    assert(s@.take(len as int) =~= s@);
    out
}

/// The number a version part stands for, 0 where it is no number.
fn part_number(s: &str, a: usize, b: usize) -> (r: u32)
    requires
        a <= b <= s@.len(),
    ensures
        r as nat == part_value(s@.subrange(a as int, b as int)),
{
    let ghost p = s@.subrange(a as int, b as int);
    let mut i = a;
    if i < b && s.get_char(i) == '+' {
        i = i + 1;
    }
    let ghost d = s@.subrange(i as int, b as int);
    proof {
        if p.len() > 0 && p[0] == '+' {
            assert(d =~= p.drop_first());
        } else {
            assert(d =~= p);
        }
        assert(d == unsigned_digits(p));
    }
    if i == b {
        return 0;
    }
    let first = i;
    let mut v: u64 = 0;
    assert(d.take(0) =~= Seq::<char>::empty());
    while i < b
        invariant
            a <= first <= i <= b <= s@.len(),
            first < b,
            d == s@.subrange(first as int, b as int),
            p == s@.subrange(a as int, b as int),
            d == unsigned_digits(p),
            v as nat == digits_value(d.take(i - first)),
            v <= u32::MAX,
            forall|j: int| 0 <= j < i - first ==> is_digit(#[trigger] d[j]),
        decreases b - i,
    {
        let c = s.get_char(i);
        assert(d.take(i - first + 1).drop_last() =~= d.take(i - first));
        assert(d.take(i - first + 1).last() == c);
        if !('0' <= c && c <= '9') {
            assert(d[i - first] == c);
            assert(!is_digit(d[i - first]));
            assert(!all_digits(d));
            assert(!parses_as_u32(p));
            return 0;
        }
        let next = v * 10 + (c as u64 - 48);
        if next > u32::MAX as u64 {
            proof {
                if all_digits(d) {
                    lemma_digits_grow(d, (i - first + 1) as int);
                    assert(digits_value(d) > u32::MAX);
                }
                assert(!parses_as_u32(p));
            }
            return 0;
        }
        v = next;
        i = i + 1;
    }
    assert(d.take(i - first) =~= d);
    v as u32
}

/// A longer run of digits is worth at least as much.
proof fn lemma_digits_grow(d: Seq<char>, k: int)
    requires
        0 <= k <= d.len(),
        forall|j: int| 0 <= j < d.len() ==> is_digit(#[trigger] d[j]),
    ensures
        digits_value(d.take(k)) <= digits_value(d),
    decreases d.len() - k,
{
    if k < d.len() {
        lemma_digits_grow(d, k + 1);
        assert(d.take(k + 1).drop_last() =~= d.take(k));
    } else {
        assert(d.take(k) =~= d);
    }
}

/// Compares two dotted versions part by part as numbers, the shorter padded
/// with zeros; a part that is no number counts as 0.
pub fn compare_semver(a: &str, b: &str) -> (r: Ordering)
    ensures
        r == cmp_parts_from(a@, b@, 0),
{
    let va = version_parts(a);
    let vb = version_parts(b);
    let n = if va.len() > vb.len() { va.len() } else { vb.len() };
    let mut i: usize = n;
    let mut r = Ordering::Equal;
    while i > 0
        invariant
            i <= n,
            n == (if dot_parts(a@).len() > dot_parts(b@).len() { dot_parts(a@).len() } else { dot_parts(b@).len() }),
            va@.len() == dot_parts(a@).len(),
            vb@.len() == dot_parts(b@).len(),
            forall|j: int| 0 <= j < va@.len() ==> va@[j] as nat == part_value(dot_parts(a@)[j]),
            forall|j: int| 0 <= j < vb@.len() ==> vb@[j] as nat == part_value(dot_parts(b@)[j]),
            r == cmp_parts_from(a@, b@, i as int),
        decreases i,
    {
        i = i - 1;
        let x: u32 = if i < va.len() { va[i] } else { 0 };
        let y: u32 = if i < vb.len() { vb[i] } else { 0 };
        if x < y {
            r = Ordering::Less;
        } else if x > y {
            r = Ordering::Greater;
        }
    }
    r
}

// ====== Fuzzy matching ==========

pub open spec fn ascii_lower(c: char) -> char {
    if 'A' <= c <= 'Z' {
        (((c as u32) + 32) as u8) as char
    } else {
        c
    }
}

fn to_ascii_lower(c: char) -> (r: char)
    ensures
        r == ascii_lower(c),
{
    if 'A' <= c && c <= 'Z' {
        (((c as u32) + 32) as u8) as char
    } else {
        c
    }
}

/// The characters of `p` occur in `s` in order, ignoring ASCII case.
pub open spec fn fuzzy_contains(s: Seq<char>, p: Seq<char>) -> bool
    decreases s.len(),
{
    if p.len() == 0 {
        true
    } else if s.len() == 0 {
        false
    } else if ascii_lower(s[0]) == ascii_lower(p[0]) {
        fuzzy_contains(s.drop_first(), p.drop_first())
    } else {
        fuzzy_contains(s.drop_first(), p)
    }
}

/// Whether the characters of `pattern` occur in `string` in order, ignoring ASCII case.
pub fn string_fuzzy_contains(string: &str, pattern: &str) -> (r: bool)
    ensures
        r == fuzzy_contains(string@, pattern@),
{
    let n = string.unicode_len();
    let m = pattern.unicode_len();
    let mut i: usize = 0;
    let mut j: usize = 0;
    assert(string@.skip(0) =~= string@);
    assert(pattern@.skip(0) =~= pattern@);
    while i < n && j < m
        invariant
            n == string@.len(),
            m == pattern@.len(),
            i <= n,
            j <= m,
            fuzzy_contains(string@, pattern@) == fuzzy_contains(string@.skip(i as int), pattern@.skip(j as int)),
        decreases n - i,
    {
        let c = string.get_char(i);
        let d = pattern.get_char(j);
        assert(string@.skip(i as int).drop_first() =~= string@.skip(i + 1));
        assert(pattern@.skip(j as int).drop_first() =~= pattern@.skip(j + 1));
        if to_ascii_lower(c) == to_ascii_lower(d) {
            j = j + 1;
        }
        i = i + 1;
    }
    j == m
}

} // verus!
