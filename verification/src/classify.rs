//! Line classification: case-insensitive keyword matching against the fixed
//! opener and closer rule sets, plus the brace rules.

use vstd::prelude::*;
use crate::chars::{is_word_char, is_word_char_x, lower_char, lower_char_x};
use crate::scan::{first_ns, first_ns_x, str_to_chars};

verus! {

/// The keyword `kw` occurs, case-insensitively, at position `j` of `s`.
/// Keywords are written in lowercase; `s` is folded through `lower_char`.
pub open spec fn matches_ci_at(s: Seq<char>, j: int, kw: Seq<char>) -> bool {
    0 <= j && j + kw.len() <= s.len() && (forall|i: int|
        0 <= i < kw.len() ==> lower_char(s[j + i]) == kw[i])
}

/// `s` starts, case-insensitively, with `kw`.
pub open spec fn starts_with_ci(s: Seq<char>, kw: Seq<char>) -> bool {
    matches_ci_at(s, 0, kw)
}

/// Position `k` sits on a word boundary: the end of the line, or a
/// character that is not a word character.
pub open spec fn boundary_at(s: Seq<char>, k: int) -> bool {
    k == s.len() || (0 <= k < s.len() && !is_word_char(s[k]))
}

/// `s` starts with the keyword `kw` followed by a word boundary, the form
/// required of every closer keyword.
pub open spec fn kw_prefix_wb(s: Seq<char>, kw: Seq<char>) -> bool {
    starts_with_ci(s, kw) && boundary_at(s, kw.len() as int)
}

/// The two-word closer: `end`, any run of whitespace, `note`, then a word
/// boundary.
pub open spec fn end_note(s: Seq<char>) -> bool {
    starts_with_ci(s, "end"@) && {
        let j = first_ns(s, "end"@.len() as int, s.len() as int);
        matches_ci_at(s, j, "note"@) && boundary_at(s, j + "note"@.len())
    }
}

/// `s` ends with the character `c`.
pub open spec fn ends_with(s: Seq<char>, c: char) -> bool {
    s.len() >= 1 && s[s.len() - 1] == c
}

/// The brace opener rule: the line ends with `{` and some word character
/// stands before that brace.
pub open spec fn brace_opener(s: Seq<char>) -> bool {
    ends_with(s, '{') && (exists|i: int| 0 <= i < s.len() - 1 && is_word_char(s[i]))
}

/// The `note` opener in its block form: the line starts with `note` and no
/// colon follows the keyword anywhere on the line.  A colon marks the
/// inline-text form, which opens no block.
pub open spec fn note_opener(s: Seq<char>) -> bool {
    starts_with_ci(s, "note"@) && !(exists|i: int|
        "note"@.len() <= i < s.len() && s[i] == ':')
}

/// The closer rule set: one of the closer keywords as a prefix followed by
/// a word boundary, or a line ending in `}`.
pub open spec fn spec_is_closer(s: Seq<char>) -> bool {
    kw_prefix_wb(s, "endif"@) || kw_prefix_wb(s, "endwhile"@) || kw_prefix_wb(s, "endfork"@)
        || end_note(s) || kw_prefix_wb(s, "endgroup"@) || kw_prefix_wb(s, "end"@)
        || kw_prefix_wb(s, "stop"@) || kw_prefix_wb(s, "endrepeat"@)
        || kw_prefix_wb(s, "endpackage"@) || kw_prefix_wb(s, "endnamespace"@)
        || kw_prefix_wb(s, "else"@) || kw_prefix_wb(s, "elseif"@)
        || ends_with(s, '}')
}

/// The opener rule set: one of the opener keywords as a prefix (no word
/// boundary required), with the colon exclusion for `note`, or a line whose
/// final `{` is preceded by a word character.
pub open spec fn spec_is_opener(s: Seq<char>) -> bool {
    starts_with_ci(s, "if"@) || starts_with_ci(s, "while"@) || starts_with_ci(s, "fork"@)
        || starts_with_ci(s, "package"@) || starts_with_ci(s, "namespace"@)
        || note_opener(s) || starts_with_ci(s, "group"@) || starts_with_ci(s, "loop"@)
        || starts_with_ci(s, "repeat"@) || starts_with_ci(s, "alt"@)
        || starts_with_ci(s, "opt"@) || starts_with_ci(s, "critical"@)
        || starts_with_ci(s, "else"@) || starts_with_ci(s, "elseif"@)
        || brace_opener(s)
}

fn match_ci_at_x(line: &Vec<char>, j: usize, kw: &str) -> (r: bool)
    ensures
        r == matches_ci_at(line@, j as int, kw@),
{
    let m = kw.unicode_len();
    if j > line.len() || line.len() - j < m {
        return false;
    }
    let mut i: usize = 0;
    while i < m
        invariant
            i <= m,
            m == kw@.len(),
            j + m <= line@.len(),
            line@.len() <= usize::MAX,
            forall|t: int| 0 <= t < i ==> lower_char(line@[j + t]) == kw@[t],
        decreases m - i,
    {
        if lower_char_x(line[j + i]) != kw.get_char(i) {
            return false;
        }
        i += 1;
    }
    true
}

fn boundary_at_x(line: &Vec<char>, k: usize) -> (r: bool)
    requires
        k <= line@.len(),
    ensures
        r == boundary_at(line@, k as int),
{
    k == line.len() || !is_word_char_x(line[k])
}

fn kw_wb_x(line: &Vec<char>, kw: &str) -> (r: bool)
    ensures
        r == kw_prefix_wb(line@, kw@),
{
    let m = kw.unicode_len();
    if match_ci_at_x(line, 0, kw) {
        boundary_at_x(line, m)
    } else {
        false
    }
}

fn end_note_x(line: &Vec<char>) -> (r: bool)
    ensures
        r == end_note(line@),
{
    let m_end = "end".unicode_len();
    if !match_ci_at_x(line, 0, "end") {
        return false;
    }
    let j = first_ns_x(line, m_end, line.len());
    if match_ci_at_x(line, j, "note") {
        let m_note = "note".unicode_len();
        boundary_at_x(line, j + m_note)
    } else {
        false
    }
}

fn colon_from_x(line: &Vec<char>, from: usize) -> (r: bool)
    ensures
        r == exists|i: int| from <= i < line@.len() && line@[i] == ':',
{
    let mut i: usize = from;
    while i < line.len()
        invariant
            from <= i,
            forall|j: int| from <= j < i ==> line@[j] != ':',
        decreases line@.len() - i,
    {
        if line[i] == ':' {
            return true;
        }
        i += 1;
    }
    false
}

fn word_char_before_x(line: &Vec<char>, end: usize) -> (r: bool)
    requires
        end <= line@.len(),
    ensures
        r == exists|i: int| 0 <= i < end && is_word_char(line@[i]),
{
    let mut i: usize = 0;
    while i < end
        invariant
            i <= end <= line@.len(),
            forall|j: int| 0 <= j < i ==> !is_word_char(line@[j]),
        decreases end - i,
    {
        if is_word_char_x(line[i]) {
            return true;
        }
        i += 1;
    }
    false
}

fn ends_with_x(line: &Vec<char>, c: char) -> (r: bool)
    ensures
        r == ends_with(line@, c),
{
    line.len() >= 1 && line[line.len() - 1] == c
}

/// Whether a stripped line matches the closer rule set.
pub fn line_is_closer(line: &Vec<char>) -> (r: bool)
    ensures
        r == spec_is_closer(line@),
{
    kw_wb_x(line, "endif") || kw_wb_x(line, "endwhile") || kw_wb_x(line, "endfork")
        || end_note_x(line) || kw_wb_x(line, "endgroup") || kw_wb_x(line, "end")
        || kw_wb_x(line, "stop") || kw_wb_x(line, "endrepeat")
        || kw_wb_x(line, "endpackage") || kw_wb_x(line, "endnamespace")
        || kw_wb_x(line, "else") || kw_wb_x(line, "elseif") || ends_with_x(line, '}')
}

fn note_opener_x(line: &Vec<char>) -> (r: bool)
    ensures
        r == note_opener(line@),
{
    let m = "note".unicode_len();
    match_ci_at_x(line, 0, "note") && !colon_from_x(line, m)
}

fn brace_opener_x(line: &Vec<char>) -> (r: bool)
    ensures
        r == brace_opener(line@),
{
    if ends_with_x(line, '{') {
        word_char_before_x(line, line.len() - 1)
    } else {
        false
    }
}

/// Whether a stripped line matches the opener rule set.
pub fn line_is_opener(line: &Vec<char>) -> (r: bool)
    ensures
        r == spec_is_opener(line@),
{
    match_ci_at_x(line, 0, "if") || match_ci_at_x(line, 0, "while")
        || match_ci_at_x(line, 0, "fork") || match_ci_at_x(line, 0, "package")
        || match_ci_at_x(line, 0, "namespace") || note_opener_x(line)
        || match_ci_at_x(line, 0, "group") || match_ci_at_x(line, 0, "loop")
        || match_ci_at_x(line, 0, "repeat") || match_ci_at_x(line, 0, "alt")
        || match_ci_at_x(line, 0, "opt") || match_ci_at_x(line, 0, "critical")
        || match_ci_at_x(line, 0, "else") || match_ci_at_x(line, 0, "elseif")
        || brace_opener_x(line)
}

/// The classification of one line, in the order the rules are tried:
/// blank, then comment, then closer, then opener, then plain.
#[derive(Clone, Copy, Debug, PartialEq, Eq, Structural)]
pub enum LineKind {
    Blank,
    Comment,
    Closer,
    Opener,
    Plain,
}

/// Classification of a stripped line.  `else` and `elseif` match both rule
/// sets and are reported here as `Closer`, the first set tried; the emitter
/// applies both of their effects.
pub open spec fn spec_classify(s: Seq<char>) -> LineKind {
    if s.len() == 0 {
        LineKind::Blank
    } else if s[0] == '\'' {
        LineKind::Comment
    } else if spec_is_closer(s) {
        LineKind::Closer
    } else if spec_is_opener(s) {
        LineKind::Opener
    } else {
        LineKind::Plain
    }
}

/// Classifies one line, given as its content with surrounding whitespace
/// already stripped.
pub fn classify(line: &str) -> (k: LineKind)
    ensures
        k == spec_classify(line@),
{
    let v = str_to_chars(line);
    if v.len() == 0 {
        LineKind::Blank
    } else if v[0] == '\'' {
        LineKind::Comment
    } else if line_is_closer(&v) {
        LineKind::Closer
    } else if line_is_opener(&v) {
        LineKind::Opener
    } else {
        LineKind::Plain
    }
}

} // verus!
