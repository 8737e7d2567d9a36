//! Character-level text utilities.
//!
//! Conversation content, tool names and queries are all plain text; the
//! helpers here give the rest of the crate exact, character-level contracts
//! for trimming, searching, case folding and replacement.

use vstd::prelude::*;

verus! {

/// Whether `c` has the Unicode `White_Space` property (the set of characters
/// that `char::is_whitespace` accepts).
pub open spec fn is_wsp(c: char) -> bool {
    (c as u32) == 32 || (c as u32) == 9 || (c as u32) == 10 || (c as u32) == 11 || (c as u32)
        == 12 || (c as u32) == 13 || (c as u32) == 0x85 || (c as u32) == 0xa0 || (c as u32)
        == 0x1680 || (0x2000 <= (c as u32) && (c as u32) <= 0x200a) || (c as u32) == 0x2028 || (
    c as u32) == 0x2029 || (c as u32) == 0x202f || (c as u32) == 0x205f || (c as u32) == 0x3000
}

/// Decides whether `c` is a whitespace character.
pub fn is_whitespace_char(c: char) -> (b: bool)
    ensures
        b == is_wsp(c),
{
    let u = c as u32;
    u == 32 || u == 9 || u == 10 || u == 11 || u == 12 || u == 13 || u == 0x85 || u == 0xa0 || u
        == 0x1680 || (0x2000 <= u && u <= 0x200a) || u == 0x2028 || u == 0x2029 || u == 0x202f || u
        == 0x205f || u == 0x3000
}

/// ASCII case folding of one character: `A`..`Z` map to `a`..`z`, everything
/// else is unchanged.
pub open spec fn lower_char(c: char) -> char {
    match c {
        'A' => 'a',
        'B' => 'b',
        'C' => 'c',
        'D' => 'd',
        'E' => 'e',
        'F' => 'f',
        'G' => 'g',
        'H' => 'h',
        'I' => 'i',
        'J' => 'j',
        'K' => 'k',
        'L' => 'l',
        'M' => 'm',
        'N' => 'n',
        'O' => 'o',
        'P' => 'p',
        'Q' => 'q',
        'R' => 'r',
        'S' => 's',
        'T' => 't',
        'U' => 'u',
        'V' => 'v',
        'W' => 'w',
        'X' => 'x',
        'Y' => 'y',
        'Z' => 'z',
        _ => c,
    }
}

/// ASCII case folding of a whole character sequence.
pub open spec fn lower_seq(s: Seq<char>) -> Seq<char> {
    Seq::new(s.len(), |i: int| lower_char(s[i]))
}

/// Folds one character to lower case (ASCII letters only).
pub fn to_lower_char(c: char) -> (r: char)
    ensures
        r == lower_char(c),
{
    match c {
        'A' => 'a',
        'B' => 'b',
        'C' => 'c',
        'D' => 'd',
        'E' => 'e',
        'F' => 'f',
        'G' => 'g',
        'H' => 'h',
        'I' => 'i',
        'J' => 'j',
        'K' => 'k',
        'L' => 'l',
        'M' => 'm',
        'N' => 'n',
        'O' => 'o',
        'P' => 'p',
        'Q' => 'q',
        'R' => 'r',
        'S' => 's',
        'T' => 't',
        'U' => 'u',
        'V' => 'v',
        'W' => 'w',
        'X' => 'x',
        'Y' => 'y',
        'Z' => 'z',
        _ => c,
    }
}

/// Folds every character of `v` to lower case (ASCII letters only).
pub fn lower_chars(v: &Vec<char>) -> (r: Vec<char>)
    ensures
        r@ == lower_seq(v@),
{
    let mut out: Vec<char> = Vec::new();
    let n = v.len();
    let mut i: usize = 0;
    while i < n
        invariant
            n == v@.len(),
            i <= n,
            out@.len() == i,
            forall|j: int| 0 <= j < i ==> out@[j] == lower_char(v@[j]),
        decreases n - i,
    {
        out.push(to_lower_char(v[i]));
        i = i + 1;
    }
    assert(out@ =~= lower_seq(v@));
    out
}

/// Collects the characters of a string slice into a vector.
pub fn to_chars(s: &str) -> (v: Vec<char>)
    ensures
        v@ == s@,
{
    let n = s.unicode_len();
    let mut out: Vec<char> = Vec::new();
    let mut i: usize = 0;
    while i < n
        invariant
            n == s@.len(),
            i <= n,
            out@ == s@.subrange(0, i as int),
        decreases n - i,
    {
        out.push(s.get_char(i));
        assert(out@ =~= s@.subrange(0, i + 1 as int));
        i = i + 1;
    }
    assert(out@ =~= s@);
    out
}

/// Relies on `String::push`: appends one character to the end of the string.
#[verifier::external_body]
fn push_char(s: &mut String, c: char)
    ensures
        final(s)@ == old(s)@.push(c),
{
    s.push(c)
}

/// Builds a `String` out of a vector of characters.
pub fn chars_to_string(v: &Vec<char>) -> (s: String)
    ensures
        s@ == v@,
{
    let mut out = String::new();
    let n = v.len();
    let mut i: usize = 0;
    while i < n
        invariant
            n == v@.len(),
            i <= n,
            out@ == v@.subrange(0, i as int),
        decreases n - i,
    {
        push_char(&mut out, v[i]);
        assert(out@ =~= v@.subrange(0, i + 1 as int));
        i = i + 1;
    }
    assert(out@ =~= v@);
    out
}

/// Copies the character range `lo..hi` of `v`.
pub fn slice_chars(v: &Vec<char>, lo: usize, hi: usize) -> (r: Vec<char>)
    requires
        lo <= hi <= v@.len(),
    ensures
        r@ == v@.subrange(lo as int, hi as int),
{
    let mut out: Vec<char> = Vec::new();
    let mut i: usize = lo;
    while i < hi
        invariant
            lo <= i <= hi <= v@.len(),
            out@ == v@.subrange(lo as int, i as int),
        decreases hi - i,
    {
        out.push(v[i]);
        assert(out@ =~= v@.subrange(lo as int, i + 1 as int));
        i = i + 1;
    }
    out
}

/// Compares two string slices character by character.
pub fn str_eq(a: &str, b: &str) -> (r: bool)
    ensures
        r == (a@ == b@),
{
    let na = a.unicode_len();
    let nb = b.unicode_len();
    if na != nb {
        return false;
    }
    let mut i: usize = 0;
    while i < na
        invariant
            na == a@.len(),
            na == b@.len(),
            i <= na,
            forall|j: int| 0 <= j < i ==> a@[j] == b@[j],
        decreases na - i,
    {
        if a.get_char(i) != b.get_char(i) {
            return false;
        }
        i = i + 1;
    }
    assert(a@ =~= b@);
    true
}

/// The pattern `p` occurs in `s` at position `i`.
pub open spec fn has_sub_at(s: Seq<char>, p: Seq<char>, i: int) -> bool {
    0 <= i && i + p.len() <= s.len() && s.subrange(i, i + p.len() as int) == p
}

/// The pattern `p` occurs somewhere in `s`.
pub open spec fn contains_sub(s: Seq<char>, p: Seq<char>) -> bool {
    exists|i: int| has_sub_at(s, p, i)
}

/// Compares the characters of `hay` starting at `at` with `pat`.
fn match_at(hay: &Vec<char>, pat: &Vec<char>, at: usize) -> (b: bool)
    requires
        at + pat@.len() <= hay@.len(),
    ensures
        b == (hay@.subrange(at as int, at + pat@.len() as int) == pat@),
{
    let m = pat.len();
    let hn = hay.len();
    let mut j: usize = 0;
    while j < m
        invariant
            m == pat@.len(),
            hn == hay@.len(),
            at + m <= hn,
            j <= m,
            forall|t: int| 0 <= t < j ==> hay@[at + t] == pat@[t],
        decreases m - j,
    {
        if hay[at + j] != pat[j] {
            assert(hay@.subrange(at as int, at + pat@.len() as int)[j as int] != pat@[j as int]);
            return false;
        }
        j = j + 1;
    }
    assert(hay@.subrange(at as int, at + pat@.len() as int) =~= pat@);
    true
}

/// Decides whether `pat` occurs anywhere in `hay`.
pub fn contains_chars(hay: &Vec<char>, pat: &Vec<char>) -> (b: bool)
    ensures
        b == contains_sub(hay@, pat@),
{
    let n = hay.len();
    let m = pat.len();
    if m > n {
        assert(forall|i: int| !has_sub_at(hay@, pat@, i));
        return false;
    }
    if m == 0 {
        assert(has_sub_at(hay@, pat@, 0)) by {
            assert(hay@.subrange(0, 0) =~= pat@);
        }
        return true;
    }
    let mut i: usize = 0;
    while i <= n - m
        invariant
            n == hay@.len(),
            m == pat@.len(),
            1 <= m <= n,
            i <= n - m + 1,
            forall|t: int| 0 <= t < i ==> !has_sub_at(hay@, pat@, t),
        decreases n - i,
    {
        if match_at(hay, pat, i) {
            assert(has_sub_at(hay@, pat@, i as int));
            return true;
        }
        i = i + 1;
    }
    assert(forall|t: int| !has_sub_at(hay@, pat@, t));
    false
}

/// The character `c` occurs in `s`.
pub open spec fn contains_ch(s: Seq<char>, c: char) -> bool {
    exists|i: int| 0 <= i < s.len() && s[i] == c
}

/// Decides whether the character `c` occurs in `v`.
pub fn contains_char(v: &Vec<char>, c: char) -> (b: bool)
    ensures
        b == contains_ch(v@, c),
{
    let n = v.len();
    let mut i: usize = 0;
    while i < n
        invariant
            n == v@.len(),
            i <= n,
            forall|j: int| 0 <= j < i ==> v@[j] != c,
        decreases n - i,
    {
        if v[i] == c {
            return true;
        }
        i = i + 1;
    }
    false
}

/// Finds the first occurrence of `c` in `v`.
pub fn find_first(v: &Vec<char>, c: char) -> (r: Option<usize>)
    ensures
        match r {
            Some(i) => i < v@.len() && v@[i as int] == c && forall|j: int|
                0 <= j < i ==> v@[j] != c,
            None => !contains_ch(v@, c),
        },
{
    let n = v.len();
    let mut i: usize = 0;
    while i < n
        invariant
            n == v@.len(),
            i <= n,
            forall|j: int| 0 <= j < i ==> v@[j] != c,
        decreases n - i,
    {
        if v[i] == c {
            return Some(i);
        }
        i = i + 1;
    }
    None
}

/// Finds the last occurrence of `c` in `v`.
pub fn find_last(v: &Vec<char>, c: char) -> (r: Option<usize>)
    ensures
        match r {
            Some(i) => i < v@.len() && v@[i as int] == c && forall|j: int|
                i < j < v@.len() ==> v@[j] != c,
            None => !contains_ch(v@, c),
        },
{
    let n = v.len();
    let mut i: usize = n;
    while i > 0
        invariant
            n == v@.len(),
            i <= n,
            forall|j: int| i <= j < n ==> v@[j] != c,
        decreases i,
    {
        i = i - 1;
        if v[i] == c {
            return Some(i);
        }
    }
    None
}

/// `s` starts with the prefix `p`.
pub open spec fn starts_with_spec(s: Seq<char>, p: Seq<char>) -> bool {
    p.len() <= s.len() && s.subrange(0, p.len() as int) == p
}

/// Decides whether `v` starts with the prefix `p`.
pub fn starts_with_chars(v: &Vec<char>, p: &Vec<char>) -> (b: bool)
    ensures
        b == starts_with_spec(v@, p@),
{
    if p.len() > v.len() {
        return false;
    }
    match_at(v, p, 0)
}

/// `s` with leading whitespace removed.
pub open spec fn trim_start_spec(s: Seq<char>) -> Seq<char>
    decreases s.len(),
{
    if s.len() > 0 && is_wsp(s[0]) {
        trim_start_spec(s.skip(1))
    } else {
        s
    }
}

/// `s` with trailing whitespace removed.
pub open spec fn trim_end_spec(s: Seq<char>) -> Seq<char>
    decreases s.len(),
{
    if s.len() > 0 && is_wsp(s.last()) {
        trim_end_spec(s.take(s.len() - 1))
    } else {
        s
    }
}

/// `s` with both leading and trailing whitespace removed.
pub open spec fn trim_spec(s: Seq<char>) -> Seq<char> {
    trim_end_spec(trim_start_spec(s))
}

/// Computes the bounds `lo..hi` of the whitespace-trimmed part of `v`.
pub fn trim_bounds(v: &Vec<char>) -> (b: (usize, usize))
    ensures
        b.0 <= b.1 <= v@.len(),
        v@.subrange(b.0 as int, b.1 as int) == trim_spec(v@),
        forall|j: int| 0 <= j < b.0 ==> is_wsp(v@[j]),
        forall|j: int| b.1 <= j < v@.len() ==> is_wsp(v@[j]),
{
    let n = v.len();
    let mut lo: usize = 0;
    assert(v@.skip(0) =~= v@);
    while lo < n && is_whitespace_char(v[lo])
        invariant
            n == v@.len(),
            lo <= n,
            trim_start_spec(v@) == trim_start_spec(v@.skip(lo as int)),
            forall|j: int| 0 <= j < lo ==> is_wsp(v@[j]),
        decreases n - lo,
    {
        assert(v@.skip(lo as int).skip(1) =~= v@.skip(lo + 1 as int));
        lo = lo + 1;
    }
    if lo == n {
        assert(v@.skip(lo as int) =~= Seq::<char>::empty());
        assert(trim_spec(v@) =~= v@.subrange(lo as int, lo as int));
        return (lo, lo);
    }
    assert(trim_start_spec(v@) == v@.skip(lo as int));
    let ghost s1 = v@.skip(lo as int);
    let mut hi: usize = n;
    assert(v@.subrange(lo as int, n as int) =~= s1);
    while hi > lo && is_whitespace_char(v[hi - 1])
        invariant
            n == v@.len(),
            lo < n,
            lo <= hi <= n,
            trim_end_spec(s1) == trim_end_spec(v@.subrange(lo as int, hi as int)),
            s1 == v@.skip(lo as int),
            forall|j: int| hi <= j < n ==> is_wsp(v@[j]),
        decreases hi,
    {
        assert(v@.subrange(lo as int, hi as int).take(hi - lo - 1) =~= v@.subrange(
            lo as int,
            hi - 1 as int,
        ));
        hi = hi - 1;
    }
    if hi == lo {
        assert(v@.subrange(lo as int, hi as int) =~= Seq::<char>::empty());
        return (lo, hi);
    }
    assert(trim_end_spec(v@.subrange(lo as int, hi as int)) == v@.subrange(lo as int, hi as int));
    (lo, hi)
}

/// Copies `v` with surrounding whitespace removed.
pub fn trim_chars(v: &Vec<char>) -> (r: Vec<char>)
    ensures
        r@ == trim_spec(v@),
{
    let (lo, hi) = trim_bounds(v);
    slice_chars(v, lo, hi)
}

/// `s` with every non-overlapping occurrence of `pat`, found left to right,
/// replaced by `rep`.
pub open spec fn replace_spec(s: Seq<char>, pat: Seq<char>, rep: Seq<char>) -> Seq<char>
    decreases s.len(),
{
    if pat.len() == 0 || s.len() < pat.len() {
        s
    } else if s.subrange(0, pat.len() as int) == pat {
        rep + replace_spec(s.skip(pat.len() as int), pat, rep)
    } else {
        seq![s[0]] + replace_spec(s.skip(1), pat, rep)
    }
}

/// Replaces every non-overlapping occurrence of `pat` in `s` by `rep`,
/// scanning left to right.
pub fn replace_chars(s: &Vec<char>, pat: &Vec<char>, rep: &Vec<char>) -> (r: Vec<char>)
    requires
        pat@.len() >= 1,
    ensures
        r@ == replace_spec(s@, pat@, rep@),
{
    let n = s.len();
    let m = pat.len();
    let mut out: Vec<char> = Vec::new();
    let mut i: usize = 0;
    assert(s@.skip(0) =~= s@);
    assert(out@ + replace_spec(s@, pat@, rep@) =~= replace_spec(s@, pat@, rep@));
    while i < n
        invariant
            n == s@.len(),
            m == pat@.len(),
            m >= 1,
            i <= n,
            out@ + replace_spec(s@.skip(i as int), pat@, rep@) == replace_spec(s@, pat@, rep@),
        decreases n - i,
    {
        let ghost t = s@.skip(i as int);
        if m <= n - i && match_at(s, pat, i) {
            assert(t.subrange(0, m as int) =~= s@.subrange(i as int, i + m as int));
            assert(t.skip(m as int) =~= s@.skip(i + m as int));
            assert(replace_spec(t, pat@, rep@) == rep@ + replace_spec(
                s@.skip(i + m as int),
                pat@,
                rep@,
            ));
            let mut j: usize = 0;
            let ghost out0 = out@;
            while j < rep.len()
                invariant
                    j <= rep@.len(),
                    out@ == out0 + rep@.subrange(0, j as int),
                decreases rep@.len() - j,
            {
                out.push(rep[j]);
                assert(out@ =~= out0 + rep@.subrange(0, j + 1 as int));
                j = j + 1;
            }
            assert(rep@.subrange(0, rep@.len() as int) =~= rep@);
            assert(out@ + replace_spec(s@.skip(i + m as int), pat@, rep@) =~= out0 + replace_spec(
                t,
                pat@,
                rep@,
            ));
            i = i + m;
        } else {
            if m <= n - i {
                assert(t.subrange(0, m as int) =~= s@.subrange(i as int, i + m as int));
                assert(t.subrange(0, m as int) != pat@);
                assert(replace_spec(t, pat@, rep@) == seq![t[0]] + replace_spec(
                    t.skip(1),
                    pat@,
                    rep@,
                ));
            } else {
                assert(t.len() < m);
                assert(replace_spec(t, pat@, rep@) == t);
                assert(t.skip(1).len() < m);
                assert(replace_spec(t.skip(1), pat@, rep@) == t.skip(1));
                assert(seq![t[0]] + t.skip(1) =~= t);
            }
            let ghost out0 = out@;
            out.push(s[i]);
            assert(t.skip(1) =~= s@.skip(i + 1 as int));
            assert(out@ + replace_spec(s@.skip(i + 1 as int), pat@, rep@) =~= out0 + replace_spec(
                t,
                pat@,
                rep@,
            ));
            i = i + 1;
        }
    }
    assert(s@.skip(n as int) =~= Seq::<char>::empty());
    assert(replace_spec(s@.skip(n as int), pat@, rep@) =~= Seq::<char>::empty());
    assert(out@ =~= out@ + Seq::<char>::empty());
    out
}

/// The index of the first occurrence of `c` in `s`, if any.
pub open spec fn find_spec(s: Seq<char>, c: char) -> Option<int>
    decreases s.len(),
{
    if s.len() == 0 {
        None
    } else if s[0] == c {
        Some(0)
    } else {
        match find_spec(s.skip(1), c) {
            Some(i) => Some(i + 1),
            None => None,
        }
    }
}

/// The index of the last occurrence of `c` in `s`, if any.
pub open spec fn rfind_spec(s: Seq<char>, c: char) -> Option<int>
    decreases s.len(),
{
    if s.len() == 0 {
        None
    } else if s.last() == c {
        Some(s.len() - 1)
    } else {
        rfind_spec(s.take(s.len() - 1), c)
    }
}

/// `find_spec` returns the first occurrence of `c`, or `None` when `c` does
/// not occur.
pub proof fn lemma_find_spec(s: Seq<char>, c: char)
    ensures
        match find_spec(s, c) {
            Some(i) => 0 <= i < s.len() && s[i] == c && forall|j: int| 0 <= j < i ==> s[j] != c,
            None => forall|j: int| 0 <= j < s.len() ==> s[j] != c,
        },
    decreases s.len(),
{
    if s.len() > 0 && s[0] != c {
        lemma_find_spec(s.skip(1), c);
        match find_spec(s.skip(1), c) {
            Some(i) => {
                assert(s[i + 1] == s.skip(1)[i]);
                assert forall|j: int| 0 <= j < i + 1 implies s[j] != c by {
                    if j > 0 {
                        assert(s[j] == s.skip(1)[j - 1]);
                    }
                }
            },
            None => {
                assert forall|j: int| 0 <= j < s.len() implies s[j] != c by {
                    if j > 0 {
                        assert(s[j] == s.skip(1)[j - 1]);
                    }
                }
            },
        }
    }
}

/// `rfind_spec` returns the last occurrence of `c`, or `None` when `c` does
/// not occur.
pub proof fn lemma_rfind_spec(s: Seq<char>, c: char)
    ensures
        match rfind_spec(s, c) {
            Some(i) => 0 <= i < s.len() && s[i] == c && forall|j: int|
                i < j < s.len() ==> s[j] != c,
            None => forall|j: int| 0 <= j < s.len() ==> s[j] != c,
        },
    decreases s.len(),
{
    if s.len() > 0 && s.last() != c {
        lemma_rfind_spec(s.take(s.len() - 1), c);
        match rfind_spec(s.take(s.len() - 1), c) {
            Some(i) => {
                assert(s[i] == s.take(s.len() - 1)[i]);
                assert forall|j: int| i < j < s.len() implies s[j] != c by {
                    if j < s.len() - 1 {
                        assert(s[j] == s.take(s.len() - 1)[j]);
                    }
                }
            },
            None => {
                assert forall|j: int| 0 <= j < s.len() implies s[j] != c by {
                    if j < s.len() - 1 {
                        assert(s[j] == s.take(s.len() - 1)[j]);
                    }
                }
            },
        }
    }
}

/// The index of the first whitespace character of `s`, if any.
pub open spec fn first_wsp_spec(s: Seq<char>) -> Option<int>
    decreases s.len(),
{
    if s.len() == 0 {
        None
    } else if is_wsp(s[0]) {
        Some(0)
    } else {
        match first_wsp_spec(s.skip(1)) {
            Some(i) => Some(i + 1),
            None => None,
        }
    }
}

/// `first_wsp_spec` returns the first whitespace position, or `None` when
/// there is none.
pub proof fn lemma_first_wsp_spec(s: Seq<char>)
    ensures
        match first_wsp_spec(s) {
            Some(i) => 0 <= i < s.len() && is_wsp(s[i]) && forall|j: int|
                0 <= j < i ==> !is_wsp(s[j]),
            None => forall|j: int| 0 <= j < s.len() ==> !is_wsp(s[j]),
        },
    decreases s.len(),
{
    if s.len() > 0 && !is_wsp(s[0]) {
        lemma_first_wsp_spec(s.skip(1));
        match first_wsp_spec(s.skip(1)) {
            Some(i) => {
                assert(s[i + 1] == s.skip(1)[i]);
                assert forall|j: int| 0 <= j < i + 1 implies !is_wsp(s[j]) by {
                    if j > 0 {
                        assert(s[j] == s.skip(1)[j - 1]);
                    }
                }
            },
            None => {
                assert forall|j: int| 0 <= j < s.len() implies !is_wsp(s[j]) by {
                    if j > 0 {
                        assert(s[j] == s.skip(1)[j - 1]);
                    }
                }
            },
        }
    }
}

/// Finds the first whitespace character of `v`.
pub fn find_first_wsp(v: &Vec<char>) -> (r: Option<usize>)
    ensures
        match r {
            Some(i) => first_wsp_spec(v@) == Some(i as int),
            None => first_wsp_spec(v@) is None,
        },
{
    let n = v.len();
    let mut i: usize = 0;
    while i < n
        invariant
            n == v@.len(),
            i <= n,
            forall|j: int| 0 <= j < i ==> !is_wsp(v@[j]),
        decreases n - i,
    {
        if is_whitespace_char(v[i]) {
            proof {
                lemma_first_wsp_spec(v@);
                match first_wsp_spec(v@) {
                    Some(k) => {
                        if k < i as int {
                            assert(is_wsp(v@[k]));
                            assert(!is_wsp(v@[k]));
                        }
                        if k > i as int {
                            assert(!is_wsp(v@[i as int]));
                        }
                    },
                    None => {
                        assert(!is_wsp(v@[i as int]));
                    },
                }
            }
            return Some(i);
        }
        i = i + 1;
    }
    proof {
        lemma_first_wsp_spec(v@);
        if let Some(k) = first_wsp_spec(v@) {
            assert(!is_wsp(v@[k]));
        }
    }
    None
}

/// Finds the first occurrence of `c` in `v` and relates it to `find_spec`.
pub fn find_char_at(v: &Vec<char>, c: char) -> (r: Option<usize>)
    ensures
        match r {
            Some(i) => find_spec(v@, c) == Some(i as int),
            None => find_spec(v@, c) is None,
        },
{
    proof {
        lemma_find_spec(v@, c);
    }
    match find_first(v, c) {
        Some(i) => {
            proof {
                match find_spec(v@, c) {
                    Some(k) => {
                        if k < i as int {
                            assert(v@[k] != c);
                        }
                        if k > i as int {
                            assert(v@[i as int] != c);
                        }
                    },
                    None => {
                        assert(v@[i as int] != c);
                    },
                }
            }
            Some(i)
        },
        None => {
            proof {
                if let Some(k) = find_spec(v@, c) {
                    assert(contains_ch(v@, c));
                }
            }
            None
        },
    }
}

/// Finds the last occurrence of `c` in `v` and relates it to `rfind_spec`.
pub fn rfind_char_at(v: &Vec<char>, c: char) -> (r: Option<usize>)
    ensures
        match r {
            Some(i) => rfind_spec(v@, c) == Some(i as int),
            None => rfind_spec(v@, c) is None,
        },
{
    proof {
        lemma_rfind_spec(v@, c);
    }
    match find_last(v, c) {
        Some(i) => {
            proof {
                match rfind_spec(v@, c) {
                    Some(k) => {
                        if k > i as int {
                            assert(v@[k] != c);
                        }
                        if k < i as int {
                            assert(v@[i as int] != c);
                        }
                    },
                    None => {
                        assert(v@[i as int] != c);
                    },
                }
            }
            Some(i)
        },
        None => {
            proof {
                if let Some(k) = rfind_spec(v@, c) {
                    assert(contains_ch(v@, c));
                }
            }
            None
        },
    }
}

/// The last position `< k` where `p` occurs in `s`, if any.
pub open spec fn rfind_sub_upto(s: Seq<char>, p: Seq<char>, k: int) -> Option<int>
    decreases k,
{
    if k <= 0 {
        None
    } else if has_sub_at(s, p, k - 1) {
        Some(k - 1)
    } else {
        rfind_sub_upto(s, p, k - 1)
    }
}

/// The position of the last occurrence of `p` in `s`, if any.
pub open spec fn rfind_sub_spec(s: Seq<char>, p: Seq<char>) -> Option<int> {
    if p.len() <= s.len() {
        rfind_sub_upto(s, p, s.len() - p.len() + 1)
    } else {
        None
    }
}

/// Finds the last occurrence of the pattern `p` in `v`.
pub fn rfind_sub(v: &Vec<char>, p: &Vec<char>) -> (r: Option<usize>)
    ensures
        match r {
            Some(i) => rfind_sub_spec(v@, p@) == Some(i as int),
            None => rfind_sub_spec(v@, p@) is None,
        },
{
    let n = v.len();
    let m = p.len();
    if m > n {
        return None;
    }
    if m == 0 {
        proof {
            assert(v@.subrange(n as int, n as int) =~= p@);
            assert(has_sub_at(v@, p@, n as int));
        }
        return Some(n);
    }
    let mut k: usize = n - m + 1;
    while k > 0
        invariant
            n == v@.len(),
            m == p@.len(),
            m <= n,
            k <= n - m + 1,
            rfind_sub_spec(v@, p@) == rfind_sub_upto(v@, p@, k as int),
        decreases k,
    {
        if match_at(v, p, k - 1) {
            assert(has_sub_at(v@, p@, k - 1));
            return Some(k - 1);
        }
        assert(!has_sub_at(v@, p@, k - 1));
        k = k - 1;
    }
    None
}

/// A found last occurrence is in range and is a real occurrence.
pub proof fn lemma_rfind_sub_bound(s: Seq<char>, p: Seq<char>, k: int)
    ensures
        match rfind_sub_upto(s, p, k) {
            Some(i) => 0 <= i < k && has_sub_at(s, p, i),
            None => true,
        },
    decreases k,
{
    if k > 0 && !has_sub_at(s, p, k - 1) {
        lemma_rfind_sub_bound(s, p, k - 1);
    }
}

/// Decides whether `pat` occurs in `hay` at position `i`, phrased as a
/// prefix of the remainder.
pub fn sub_matches_at(hay: &Vec<char>, pat: &Vec<char>, i: usize) -> (b: bool)
    requires
        i <= hay@.len(),
    ensures
        b == starts_with_spec(hay@.skip(i as int), pat@),
{
    let n = hay.len();
    let m = pat.len();
    if m > n - i {
        return false;
    }
    let r = match_at(hay, pat, i);
    proof {
        assert(hay@.skip(i as int).subrange(0, m as int) =~= hay@.subrange(i as int, i + m as int));
    }
    r
}

/// Position `i` starts a word: it holds a non-whitespace character that is
/// either at the start of `s` or preceded by whitespace.
pub open spec fn word_boundary(s: Seq<char>, i: int) -> bool {
    0 <= i < s.len() && !is_wsp(s[i]) && (i == 0 || is_wsp(s[i - 1]))
}

/// The number of word starts among the first `k` positions of `s`.
pub open spec fn wc_prefix(s: Seq<char>, k: int) -> int
    decreases k,
{
    if k <= 0 {
        0
    } else {
        wc_prefix(s, k - 1) + if word_boundary(s, k - 1) {
            1int
        } else {
            0int
        }
    }
}

/// The number of whitespace-separated words in `s`.
pub open spec fn word_count_spec(s: Seq<char>) -> int {
    wc_prefix(s, s.len() as int)
}

/// Counts the whitespace-separated words of `v`.
pub fn word_count_chars(v: &Vec<char>) -> (n: usize)
    ensures
        n == word_count_spec(v@),
{
    let len = v.len();
    let mut count: usize = 0;
    let mut i: usize = 0;
    while i < len
        invariant
            len == v@.len(),
            i <= len,
            count == wc_prefix(v@, i as int),
            count <= i,
        decreases len - i,
    {
        if !is_whitespace_char(v[i]) && (i == 0 || is_whitespace_char(v[i - 1])) {
            count = count + 1;
        }
        i = i + 1;
    }
    count
}

} // verus!
