//! Work on text: whether a name begins or ends with a given word, and the
//! short form of a number written with decimals.

use vstd::prelude::*;
use vstd::string::StrSliceExecFns;

verus! {

/// Whether `s` begins with `prefix`.
pub fn starts_with(s: &str, prefix: &str) -> (b: bool)
    ensures
        b == prefix@.is_prefix_of(s@),
{
    let n: usize = s.unicode_len();
    let m: usize = prefix.unicode_len();
    if m > n {
        return false;
    }
    let mut i: usize = 0;
    while i < m
        invariant
            m <= n,
            n == s@.len(),
            m == prefix@.len(),
            i <= m,
            forall|j: int| 0 <= j < i ==> s@[j] == prefix@[j],
        decreases m - i,
    {
        if s.get_char(i) != prefix.get_char(i) {
            assert(s@.subrange(0, m as int)[i as int] != prefix@[i as int]);
            return false;
        }
        i += 1;
    }
    assert(s@.subrange(0, m as int) =~= prefix@);
    true
}

/// Whether `s` ends with `suffix`.
pub fn ends_with(s: &str, suffix: &str) -> (b: bool)
    ensures
        b == suffix@.is_suffix_of(s@),
{
    let n: usize = s.unicode_len();
    let m: usize = suffix.unicode_len();
    if m > n {
        return false;
    }
    let offset: usize = n - m;
    let mut i: usize = 0;
    while i < m
        invariant
            m <= n,
            n == s@.len(),
            m == suffix@.len(),
            offset == n - m,
            i <= m,
            forall|j: int| 0 <= j < i ==> s@[offset + j] == suffix@[j],
        decreases m - i,
    {
        if s.get_char(offset + i) != suffix.get_char(i) {
            assert(s@.subrange(offset as int, n as int)[i as int] != suffix@[i as int]);
            return false;
        }
        i += 1;
    }
    assert(s@.subrange(offset as int, n as int) =~= suffix@);
    true
}

/// `s` without the characters `c` at its end.
pub open spec fn strip_end(s: Seq<char>, c: char) -> Seq<char>
    decreases s.len(),
{
    if s.len() > 0 && s.last() == c {
        strip_end(s.drop_last(), c)
    } else {
        s
    }
}

/// The short form of a number written with decimals: a text that holds a
/// point loses the zeros at its end and then the points at its end; a text
/// of which nothing is left stands for nought.
pub open spec fn trim_number_spec(s: Seq<char>) -> Seq<char> {
    let t = if s.contains('.') {
        strip_end(strip_end(s, '0'), '.')
    } else {
        s
    };
    if t.len() == 0 {
        "0"@
    } else {
        t
    }
}

/// How much of the first `end` characters of `s` is left when the
/// characters `c` at their end are taken away.
fn strip_to(s: &str, end: usize, c: char) -> (r: usize)
    requires
        end <= s@.len(),
    ensures
        r <= end,
        s@.subrange(0, r as int) == strip_end(s@.subrange(0, end as int), c),
{
    let mut r: usize = end;
    while r > 0 && s.get_char(r - 1) == c
        invariant
            r <= end,
            end <= s@.len(),
            strip_end(s@.subrange(0, r as int), c) == strip_end(s@.subrange(0, end as int), c),
        decreases r,
    {
        assert(s@.subrange(0, r as int).drop_last() =~= s@.subrange(0, r - 1));
        r -= 1;
    }
    r
}

/// The short form of a number written with decimals.
pub fn trim_number(text: &str) -> (r: String)
    ensures
        r@ == trim_number_spec(text@),
{
    let n: usize = text.unicode_len();
    let mut has_point: bool = false;
    let mut i: usize = 0;
    while i < n
        invariant
            n == text@.len(),
            i <= n,
            has_point == exists|j: int| 0 <= j < i && text@[j] == '.',
        decreases n - i,
    {
        if text.get_char(i) == '.' {
            has_point = true;
        }
        i += 1;
    }
    assert(has_point == text@.contains('.'));
    assert(text@.subrange(0, n as int) =~= text@);
    let end: usize = if has_point {
        let zeros: usize = strip_to(text, n, '0');
        strip_to(text, zeros, '.')
    } else {
        n
    };
    if end == 0 {
        "0".to_string()
    } else {
        text.substring_char(0, end).to_string()
    }
}

} // verus!
