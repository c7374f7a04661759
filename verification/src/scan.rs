//! Scanning primitives over character sequences: finding line breaks,
//! skipping whitespace from either end, and splitting a document into
//! trimmed lines.

use vstd::prelude::*;
use crate::chars::{is_space, is_space_x};

verus! {

/// Index of the first line feed in `s[i..end)`, or `end` if there is none.
pub open spec fn find_nl(s: Seq<char>, i: int, end: int) -> int
    decreases end - i,
{
    if i >= end {
        end
    } else if s[i] == '\n' {
        i
    } else {
        find_nl(s, i + 1, end)
    }
}

/// Index of the first non-whitespace character in `s[i..end)`, or `end`.
pub open spec fn first_ns(s: Seq<char>, i: int, end: int) -> int
    decreases end - i,
{
    if i >= end {
        end
    } else if is_space(s[i]) {
        first_ns(s, i + 1, end)
    } else {
        i
    }
}

/// One past the last non-whitespace character in `s[i..end)`, or `i` if the
/// whole range is whitespace.
pub open spec fn last_ns(s: Seq<char>, i: int, end: int) -> int
    decreases end - i,
{
    if end <= i {
        i
    } else if is_space(s[end - 1]) {
        last_ns(s, i, end - 1)
    } else {
        end
    }
}

pub proof fn lemma_find_nl(s: Seq<char>, i: int, end: int)
    requires
        0 <= i <= end <= s.len(),
    ensures
        i <= find_nl(s, i, end) <= end,
        find_nl(s, i, end) < end ==> s[find_nl(s, i, end)] == '\n',
        forall|j: int| i <= j < find_nl(s, i, end) ==> s[j] != '\n',
    decreases end - i,
{
    if i < end && s[i] != '\n' {
        lemma_find_nl(s, i + 1, end);
    }
}

pub proof fn lemma_find_nl_is(s: Seq<char>, i: int, end: int, k: int)
    requires
        0 <= i <= k <= end <= s.len(),
        forall|j: int| i <= j < k ==> s[j] != '\n',
        k < end ==> s[k] == '\n',
    ensures
        find_nl(s, i, end) == k,
{
    lemma_find_nl(s, i, end);
    let f = find_nl(s, i, end);
    if f < k {
        assert(s[f] != '\n');
    }
    if k < f {
        assert(s[k] != '\n');
    }
}

pub proof fn lemma_first_ns(s: Seq<char>, i: int, end: int)
    requires
        0 <= i <= end <= s.len(),
    ensures
        i <= first_ns(s, i, end) <= end,
        first_ns(s, i, end) < end ==> !is_space(s[first_ns(s, i, end)]),
        forall|j: int| i <= j < first_ns(s, i, end) ==> is_space(s[j]),
    decreases end - i,
{
    if i < end && is_space(s[i]) {
        lemma_first_ns(s, i + 1, end);
    }
}

pub proof fn lemma_first_ns_is(s: Seq<char>, i: int, end: int, k: int)
    requires
        0 <= i <= k <= end <= s.len(),
        forall|j: int| i <= j < k ==> is_space(s[j]),
        k < end ==> !is_space(s[k]),
    ensures
        first_ns(s, i, end) == k,
{
    lemma_first_ns(s, i, end);
    let f = first_ns(s, i, end);
    if f < k {
        assert(!is_space(s[f]));
    }
    if k < f {
        assert(!is_space(s[k]));
    }
}

pub proof fn lemma_last_ns(s: Seq<char>, i: int, end: int)
    requires
        0 <= i <= end <= s.len(),
    ensures
        i <= last_ns(s, i, end) <= end,
        last_ns(s, i, end) > i ==> !is_space(s[last_ns(s, i, end) - 1]),
        forall|j: int| last_ns(s, i, end) <= j < end ==> is_space(s[j]),
    decreases end - i,
{
    if i < end && is_space(s[end - 1]) {
        lemma_last_ns(s, i, end - 1);
    }
}

pub proof fn lemma_last_ns_is(s: Seq<char>, i: int, end: int, k: int)
    requires
        0 <= i <= k <= end <= s.len(),
        forall|j: int| k <= j < end ==> is_space(s[j]),
        k > i ==> !is_space(s[k - 1]),
    ensures
        last_ns(s, i, end) == k,
{
    lemma_last_ns(s, i, end);
    let f = last_ns(s, i, end);
    if f < k {
        assert(is_space(s[k - 1]));
    }
    if k < f {
        assert(is_space(s[f - 1]));
    }
}

/// The trimmed lines of `s[pos..hi)`, split on line feeds, each line reduced
/// to its content between its first and last non-whitespace characters.
pub open spec fn lines_from(s: Seq<char>, pos: int, hi: int) -> Seq<Seq<char>>
    decreases hi - pos,
{
    if pos < 0 || pos >= hi || hi > s.len() {
        Seq::empty()
    } else {
        let e = find_nl(s, pos, hi);
        let ta = first_ns(s, pos, e);
        let tb = last_ns(s, ta, e);
        let line = s.subrange(ta, tb);
        proof {
            lemma_find_nl(s, pos, hi);
        }
        if e >= hi {
            seq![line]
        } else {
            seq![line] + lines_from(s, e + 1, hi)
        }
    }
}

/// Converts a string to the vector of its characters.
pub fn str_to_chars(s: &str) -> (r: Vec<char>)
    ensures
        r@ == s@,
{
    let n = s.unicode_len();
    let mut v: Vec<char> = Vec::new();
    let mut i: usize = 0;
    while i < n
        invariant
            n == s@.len(),
            i <= n,
            v@ =~= s@.subrange(0, i as int),
        decreases n - i,
    {
        let c = s.get_char(i);
        v.push(c);
        i += 1;
    }
    assert(v@ =~= s@);
    v
}

/// First line feed at or after `pos`, before `hi`.
pub fn find_nl_x(chars: &Vec<char>, pos: usize, hi: usize) -> (r: usize)
    requires
        pos <= hi <= chars@.len(),
    ensures
        r == find_nl(chars@, pos as int, hi as int),
        pos <= r <= hi,
{
    let mut i: usize = pos;
    while i < hi
        invariant
            pos <= i <= hi <= chars@.len(),
            forall|j: int| pos <= j < i ==> chars@[j] != '\n',
        decreases hi - i,
    {
        if chars[i] == '\n' {
            proof {
                lemma_find_nl_is(chars@, pos as int, hi as int, i as int);
            }
            return i;
        }
        i += 1;
    }
    proof {
        lemma_find_nl_is(chars@, pos as int, hi as int, hi as int);
    }
    hi
}

/// First non-whitespace character at or after `pos`, before `hi`.
pub fn first_ns_x(chars: &Vec<char>, pos: usize, hi: usize) -> (r: usize)
    requires
        pos <= hi <= chars@.len(),
    ensures
        r == first_ns(chars@, pos as int, hi as int),
        pos <= r <= hi,
{
    let mut i: usize = pos;
    while i < hi
        invariant
            pos <= i <= hi <= chars@.len(),
            forall|j: int| pos <= j < i ==> is_space(chars@[j]),
        decreases hi - i,
    {
        if !is_space_x(chars[i]) {
            proof {
                lemma_first_ns_is(chars@, pos as int, hi as int, i as int);
            }
            return i;
        }
        i += 1;
    }
    proof {
        lemma_first_ns_is(chars@, pos as int, hi as int, hi as int);
    }
    hi
}

/// One past the last non-whitespace character in `chars[pos..hi)`.
pub fn last_ns_x(chars: &Vec<char>, pos: usize, hi: usize) -> (r: usize)
    requires
        pos <= hi <= chars@.len(),
    ensures
        r == last_ns(chars@, pos as int, hi as int),
        pos <= r <= hi,
{
    let mut i: usize = hi;
    while i > pos
        invariant
            pos <= i <= hi <= chars@.len(),
            forall|j: int| i <= j < hi ==> is_space(chars@[j]),
        decreases i,
    {
        if !is_space_x(chars[i - 1]) {
            proof {
                lemma_last_ns_is(chars@, pos as int, hi as int, i as int);
            }
            return i;
        }
        i -= 1;
    }
    proof {
        lemma_last_ns_is(chars@, pos as int, hi as int, pos as int);
    }
    pos
}

/// Copies `chars[a..b)` into a fresh vector.
pub fn extract(chars: &Vec<char>, a: usize, b: usize) -> (r: Vec<char>)
    requires
        a <= b <= chars@.len(),
    ensures
        r@ == chars@.subrange(a as int, b as int),
{
    let mut v: Vec<char> = Vec::new();
    let mut i: usize = a;
    while i < b
        invariant
            a <= i <= b <= chars@.len(),
            v@ =~= chars@.subrange(a as int, i as int),
        decreases b - i,
    {
        let c = chars[i];
        v.push(c);
        i += 1;
    }
    assert(v@ =~= chars@.subrange(a as int, b as int));
    v
}

} // verus!
