//! Case-insensitive substring search over character sequences.
//!
//! Tag markers such as `<head` are matched by lowercasing each input
//! character (ASCII letters only) and comparing it with the pattern,
//! which is given in lowercase. The spec-level searcher
//! [`first_match_from`] is the reference for every tag search the
//! library performs.

use vstd::prelude::*;

verus! {

/// Lowercase an ASCII letter; leave every other character unchanged.
pub open spec fn lower_char(c: char) -> char {
    if 'A' <= c && c <= 'Z' {
        ((c as u32) + 32) as char
    } else {
        c
    }
}

/// Lowercase an ASCII letter; leave every other character unchanged.
pub fn lower_char_x(c: char) -> (r: char)
    ensures
        r == lower_char(c),
{
    if 'A' <= c && c <= 'Z' {
        (((c as u32) + 32) as u8) as char
    } else {
        c
    }
}

/// `pat` (lowercase) matches `s` at position `i`, lowercasing `s`.
pub open spec fn match_at(s: Seq<char>, pat: Seq<char>, i: int) -> bool {
    &&& 0 <= i
    &&& i + pat.len() <= s.len()
    &&& forall|j: int| 0 <= j < pat.len() ==> lower_char(s[i + j]) == pat[j]
}

/// `pat` matches `s` nowhere.
pub open spec fn no_match_in(s: Seq<char>, pat: Seq<char>) -> bool {
    forall|k: int| !match_at(s, pat, k)
}

/// Position of the first match of `pat` in `s` at or after `from`.
pub open spec fn first_match_from(s: Seq<char>, pat: Seq<char>, from: int) -> Option<int>
    decreases s.len() - from,
{
    if from + pat.len() > s.len() {
        None
    } else if match_at(s, pat, from) {
        Some(from)
    } else {
        first_match_from(s, pat, from + 1)
    }
}

/// A found position is a match, and no earlier position at or after
/// `from` is one.
pub proof fn lemma_first_match_some(s: Seq<char>, pat: Seq<char>, from: int, i: int)
    requires
        first_match_from(s, pat, from) == Some(i),
    ensures
        from <= i,
        match_at(s, pat, i),
        forall|k: int| from <= k < i ==> !match_at(s, pat, k),
    decreases s.len() - from,
{
    if from + pat.len() > s.len() {
    } else if match_at(s, pat, from) {
    } else {
        lemma_first_match_some(s, pat, from + 1, i);
    }
}

/// A failed search means no position at or after `from` matches.
pub proof fn lemma_first_match_none(s: Seq<char>, pat: Seq<char>, from: int, k: int)
    requires
        first_match_from(s, pat, from) is None,
        from <= k,
    ensures
        !match_at(s, pat, k),
    decreases s.len() - from,
{
    if from + pat.len() > s.len() {
    } else if match_at(s, pat, from) {
    } else {
        if from < k {
            lemma_first_match_none(s, pat, from + 1, k);
        }
    }
}

/// A match at `i` with none earlier is what the search returns.
pub proof fn lemma_first_match_found(s: Seq<char>, pat: Seq<char>, from: int, i: int)
    requires
        from <= i,
        match_at(s, pat, i),
        forall|k: int| from <= k < i ==> !match_at(s, pat, k),
    ensures
        first_match_from(s, pat, from) == Some(i),
    decreases s.len() - from,
{
    if from < i {
        lemma_first_match_found(s, pat, from + 1, i);
    }
}

/// A match whose window lies inside a segment of `s` is a match on
/// that segment, and conversely.
pub proof fn lemma_match_in_segment(s: Seq<char>, seg: Seq<char>, a: int, pat: Seq<char>, k: int)
    requires
        0 <= a,
        a + seg.len() <= s.len(),
        s.subrange(a, a + seg.len() as int) == seg,
        a <= k,
        k + pat.len() <= a + seg.len(),
    ensures
        match_at(s, pat, k) <==> match_at(seg, pat, k - a),
{
    if match_at(s, pat, k) {
        assert forall|j: int| 0 <= j < pat.len() implies lower_char(seg[k - a + j]) == pat[j] by {
            assert(seg[k - a + j] == s.subrange(a, a + seg.len() as int)[k - a + j]);
            assert(lower_char(s[k + j]) == pat[j]);
        }
    }
    if match_at(seg, pat, k - a) {
        assert forall|j: int| 0 <= j < pat.len() implies lower_char(s[k + j]) == pat[j] by {
            assert(seg[k - a + j] == s.subrange(a, a + seg.len() as int)[k - a + j]);
            assert(lower_char(seg[k - a + j]) == pat[j]);
        }
    }
}

/// Lowercasing maps a character to a given non-lowercase-letter target
/// only if it already is that character.
pub proof fn lemma_lower_fixed(c: char, d: char)
    requires
        !('a' <= d && d <= 'z'),
        !('A' <= d && d <= 'Z'),
    ensures
        lower_char(c) == d <==> c == d,
{
    if 'A' <= c && c <= 'Z' {
        assert(65 <= c as u32 <= 90);
        assert((((c as u32) + 32) as char) as u32 == (c as u32) + 32);
        assert(97 <= lower_char(c) as u32 <= 122);
        assert(!(97 <= d as u32 <= 122));
        assert(lower_char(c) as u32 != d as u32);
    }
}

/// A pattern whose characters after the first are never `<` cannot
/// match across a position that holds `<`.
pub proof fn lemma_no_cross(s: Seq<char>, pat: Seq<char>, boundary: int, k: int)
    requires
        0 <= k < boundary,
        boundary < s.len(),
        s[boundary] == '<',
        forall|j: int| 1 <= j < pat.len() ==> pat[j] != '<',
        k + pat.len() > boundary,
    ensures
        !match_at(s, pat, k),
{
    if match_at(s, pat, k) {
        let j = boundary - k;
        assert(lower_char(s[k + j]) == pat[j]);
    }
}

/// Whether `pat` matches `s` at position `i`.
pub fn match_at_x(s: &str, pat: &str, i: usize) -> (r: bool)
    requires
        i + pat@.len() <= s@.len(),
    ensures
        r == match_at(s@, pat@, i as int),
{
    let n = s.unicode_len();
    let m = pat.unicode_len();
    let mut j: usize = 0;
    while j < m
        invariant
            n == s@.len(),
            m == pat@.len(),
            i + m <= n,
            j <= m,
            forall|t: int| 0 <= t < j ==> lower_char(s@[i + t]) == pat@[t],
        decreases m - j,
    {
        let cs = s.get_char(i + j);
        let cp = pat.get_char(j);
        if lower_char_x(cs) != cp {
            assert(!match_at(s@, pat@, i as int)) by {
                assert(lower_char(s@[i + j]) != pat@[j as int]);
            }
            return false;
        }
        j += 1;
    }
    true
}

/// First position at or after `from` where `pat` matches `s`.
pub fn find_from(s: &str, pat: &str, from: usize) -> (r: Option<usize>)
    ensures
        match r {
            Some(i) => first_match_from(s@, pat@, from as int) == Some(i as int),
            None => first_match_from(s@, pat@, from as int) is None,
        },
{
    let n = s.unicode_len();
    let m = pat.unicode_len();
    if m > n || from > n - m {
        proof {
            if first_match_from(s@, pat@, from as int) is Some {
                let i = first_match_from(s@, pat@, from as int)->0;
                lemma_first_match_some(s@, pat@, from as int, i);
            }
        }
        return None;
    }
    let mut i: usize = from;
    while i <= n - m
        invariant
            m <= n,
            n == s@.len(),
            m == pat@.len(),
            from <= i,
            forall|k: int| from <= k < i ==> !match_at(s@, pat@, k),
        decreases n - i,
    {
        if match_at_x(s, pat, i) {
            proof {
                lemma_first_match_found(s@, pat@, from as int, i as int);
            }
            return Some(i);
        }
        i += 1;
    }
    proof {
        if first_match_from(s@, pat@, from as int) is Some {
            let t = first_match_from(s@, pat@, from as int)->0;
            lemma_first_match_some(s@, pat@, from as int, t);
            assert(match_at(s@, pat@, t));
            assert(false);
        }
    }
    None
}

} // verus!
