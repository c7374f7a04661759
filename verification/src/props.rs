//! Properties of the formatter, stated over its specification model and
//! proved once and for all: blank-run collapsing, the depth floor, comment
//! neutrality, note disambiguation, the trailing line feed, and idempotence.

use vstd::prelude::*;
use crate::chars::{is_space, lower_char, spaces};
use crate::classify::{
    brace_opener, end_note, kw_prefix_wb, note_opener, spec_is_closer, spec_is_opener,
    starts_with_ci,
};
use crate::emit::{collapse, collapse_from, emit_depth, emit_lines, line_out, next_depth};
use crate::scan::{
    find_nl, first_ns, last_ns, lemma_find_nl, lemma_find_nl_is, lemma_first_ns,
    lemma_first_ns_is, lemma_last_ns, lemma_last_ns_is, lines_from,
};
use crate::{doc_line_seq, spec_format};

verus! {

/// A well-formed line for the emitter: no line feed inside, and no
/// whitespace at either end.
pub open spec fn line_ok(l: Seq<char>) -> bool {
    &&& forall|j: int| 0 <= j < l.len() ==> l[j] != '\n'
    &&& l.len() > 0 ==> !is_space(l[0]) && !is_space(l[l.len() - 1])
}

/// No two blank lines stand next to each other.
pub open spec fn no_adjacent_blanks(ls: Seq<Seq<char>>) -> bool {
    forall|i: int| 0 <= i < ls.len() - 1 ==> !(#[trigger] ls[i].len() == 0 && ls[i + 1].len() == 0)
}

/// A run of `n` blank lines.
pub open spec fn blanks(n: nat) -> Seq<Seq<char>> {
    Seq::new(n, |i: int| Seq::<char>::empty())
}

proof fn lemma_collapse_keeps_line_ok(ls: Seq<Seq<char>>, pb: bool)
    requires
        forall|i: int| 0 <= i < ls.len() ==> line_ok(#[trigger] ls[i]),
    ensures
        forall|i: int|
            0 <= i < collapse_from(ls, pb).len() ==> line_ok(#[trigger] collapse_from(ls, pb)[i]),
    decreases ls.len(),
{
    if ls.len() > 0 {
        let rest = ls.drop_first();
        assert(forall|i: int| 0 <= i < rest.len() ==> line_ok(#[trigger] rest[i])) by {
            assert forall|i: int| 0 <= i < rest.len() implies line_ok(#[trigger] rest[i]) by {
                assert(rest[i] == ls[i + 1]);
            }
        }
        lemma_collapse_keeps_line_ok(rest, ls[0].len() == 0);
        let r = collapse_from(ls, pb);
        let rr = collapse_from(rest, ls[0].len() == 0);
        if !(ls[0].len() == 0 && pb) {
            assert forall|i: int| 0 <= i < r.len() implies line_ok(#[trigger] r[i]) by {
                if i == 0 {
                    assert(r[i] == ls[0]);
                } else {
                    assert(r[i] == rr[i - 1]);
                }
            }
        }
    }
}

/// Collapsing keeps the first line whenever nothing blank precedes.
proof fn lemma_collapse_head(ls: Seq<Seq<char>>)
    requires
        ls.len() > 0,
    ensures
        collapse_from(ls, false).len() > 0,
        collapse_from(ls, false)[0] == ls[0],
{
    let rr = collapse_from(ls.drop_first(), ls[0].len() == 0);
    assert(collapse_from(ls, false) == seq![ls[0]] + rr);
}

/// Collapsing keeps a final non-blank line as the final line.
proof fn lemma_collapse_last(ls: Seq<Seq<char>>, pb: bool)
    requires
        ls.len() > 0,
        ls.last().len() > 0,
    ensures
        collapse_from(ls, pb).len() > 0,
        collapse_from(ls, pb).last() == ls.last(),
    decreases ls.len(),
{
    let r = collapse_from(ls, pb);
    let rest = ls.drop_first();
    if ls.len() == 1 {
        assert(ls[0] == ls.last());
        assert(collapse_from(rest, false) =~= Seq::<Seq<char>>::empty());
        assert(r =~= seq![ls[0]]);
    } else {
        assert(rest.last() == ls.last());
        lemma_collapse_last(rest, ls[0].len() == 0);
        let rr = collapse_from(rest, ls[0].len() == 0);
        if ls[0].len() == 0 && pb {
            assert(r == rr);
        } else {
            assert(r == seq![ls[0]] + rr);
            assert(r.last() == rr.last());
        }
    }
}

/// What collapsing produces never has two adjacent blank lines, and starts
/// with a non-blank line when a blank line came just before.
proof fn lemma_collapse_no2adj(ls: Seq<Seq<char>>, pb: bool)
    ensures
        no_adjacent_blanks(collapse_from(ls, pb)),
        pb && collapse_from(ls, pb).len() > 0 ==> collapse_from(ls, pb)[0].len() > 0,
    decreases ls.len(),
{
    if ls.len() > 0 {
        let rest = ls.drop_first();
        lemma_collapse_no2adj(rest, ls[0].len() == 0);
        let r = collapse_from(ls, pb);
        let rr = collapse_from(rest, ls[0].len() == 0);
        if !(ls[0].len() == 0 && pb) {
            assert(r == seq![ls[0]] + rr);
            assert forall|i: int| 0 <= i < r.len() - 1 implies !(#[trigger] r[i].len() == 0 && r[i
                + 1].len() == 0) by {
                if i == 0 {
                    assert(r[0] == ls[0]);
                    if ls[0].len() == 0 {
                        assert(rr.len() > 0 ==> rr[0].len() > 0);
                        assert(r[1] == rr[0]);
                    }
                } else {
                    assert(r[i] == rr[i - 1]);
                    assert(r[i + 1] == rr[i]);
                }
            }
        }
    }
}

/// Collapsing a line sequence with no adjacent blank lines changes nothing.
proof fn lemma_collapse_noop(ls: Seq<Seq<char>>, pb: bool)
    requires
        no_adjacent_blanks(ls),
        pb && ls.len() > 0 ==> ls[0].len() > 0,
    ensures
        collapse_from(ls, pb) == ls,
    decreases ls.len(),
{
    if ls.len() > 0 {
        let rest = ls.drop_first();
        assert(forall|i: int|
            0 <= i < rest.len() - 1 ==> !(#[trigger] rest[i].len() == 0 && rest[i + 1].len()
                == 0)) by {
            assert forall|i: int|
                0 <= i < rest.len() - 1 implies !(#[trigger] rest[i].len() == 0 && rest[i
                + 1].len() == 0) by {
                assert(rest[i] == ls[i + 1]);
                assert(rest[i + 1] == ls[i + 2]);
            }
        }
        if ls[0].len() == 0 && rest.len() > 0 {
            assert(rest[0] == ls[1]);
        }
        lemma_collapse_noop(rest, ls[0].len() == 0);
        assert(collapse_from(ls, pb) == seq![ls[0]] + rest);
        assert(seq![ls[0]] + rest =~= ls);
    }
}

proof fn lemma_blanks_skip(b: Seq<Seq<char>>, n: nat)
    ensures
        collapse_from(blanks(n) + b, true) == collapse_from(b, true),
    decreases n,
{
    if n == 0 {
        assert(blanks(0) + b =~= b);
    } else {
        let ls = blanks(n) + b;
        assert(ls[0].len() == 0);
        assert(ls.drop_first() =~= blanks((n - 1) as nat) + b);
        lemma_blanks_skip(b, (n - 1) as nat);
    }
}

/// Blank-run collapse: a run of any positive number of blank lines leaves
/// exactly what a single blank line leaves; in particular every run of two
/// or more blanks collapses to one, and a lone blank line is preserved.
pub proof fn lemma_blank_run_collapse(
    a: Seq<Seq<char>>,
    b: Seq<Seq<char>>,
    n: nat,
    pb: bool,
)
    requires
        n >= 1,
    ensures
        collapse_from(a + blanks(n) + b, pb) == collapse_from(a + blanks(1) + b, pb),
    decreases a.len(),
{
    if a.len() == 0 {
        let lsn = a + blanks(n) + b;
        let ls1 = a + blanks(1) + b;
        assert(lsn =~= blanks(n) + b);
        assert(ls1 =~= blanks(1) + b);
        assert(lsn[0].len() == 0);
        assert(ls1[0].len() == 0);
        assert(lsn.drop_first() =~= blanks((n - 1) as nat) + b);
        assert(ls1.drop_first() =~= blanks(0) + b);
        lemma_blanks_skip(b, (n - 1) as nat);
        lemma_blanks_skip(b, 0);
        if pb {
        } else {
            assert(collapse_from(lsn, pb) == seq![lsn[0]] + collapse_from(
                lsn.drop_first(),
                true,
            ));
            assert(collapse_from(ls1, pb) == seq![ls1[0]] + collapse_from(
                ls1.drop_first(),
                true,
            ));
        }
    } else {
        let lsn = a + blanks(n) + b;
        let ls1 = a + blanks(1) + b;
        assert(lsn[0] == a[0]);
        assert(ls1[0] == a[0]);
        assert(lsn.drop_first() =~= a.drop_first() + blanks(n) + b);
        assert(ls1.drop_first() =~= a.drop_first() + blanks(1) + b);
        lemma_blank_run_collapse(a.drop_first(), b, n, a[0].len() == 0);
    }
}

/// Depth floor: the emit depth never sinks below zero and never more than
/// one below the current depth; a closer met at depth zero is emitted at
/// depth zero, a no-op rather than a negative indentation.  Every non-blank
/// line is emitted behind emit-depth × unit spaces, so the indentation of
/// every output line is a nonnegative multiple of the unit width.
pub proof fn lemma_depth_floor(l: Seq<char>, depth: nat, w: nat)
    ensures
        emit_depth(l, depth) <= depth,
        depth > 0 ==> emit_depth(l, depth) >= depth - 1,
        depth == 0 ==> emit_depth(l, 0) == 0,
        l.len() > 0 ==> line_out(l, w, depth) == spaces(emit_depth(l, depth) * w) + l
            + seq!['\n'],
{
}

/// Comment neutrality: a line starting with `'` is emitted at the current
/// depth and never changes the depth, whatever else it contains.
pub proof fn lemma_comment_neutral(l: Seq<char>, depth: nat)
    requires
        l.len() > 0,
        l[0] == '\'',
    ensures
        emit_depth(l, depth) == depth,
        next_depth(l, depth) == depth,
{
}

/// Structural facts about splitting a region into trimmed lines: there is
/// at least one line, every line is trimmed and free of line feeds, and a
/// region with non-whitespace at its edges begins and ends with a non-blank
/// line.
pub proof fn lemma_lines_from_props(s: Seq<char>, pos: int, hi: int)
    requires
        0 <= pos < hi <= s.len(),
    ensures
        lines_from(s, pos, hi).len() >= 1,
        forall|i: int|
            0 <= i < lines_from(s, pos, hi).len() ==> line_ok(
                #[trigger] lines_from(s, pos, hi)[i],
            ),
        !is_space(s[pos]) ==> lines_from(s, pos, hi)[0].len() > 0,
        !is_space(s[hi - 1]) ==> lines_from(s, pos, hi).last().len() > 0,
    decreases hi - pos,
{
    let e = find_nl(s, pos, hi);
    lemma_find_nl(s, pos, hi);
    let ta = first_ns(s, pos, e);
    lemma_first_ns(s, pos, e);
    let tb = last_ns(s, ta, e);
    lemma_last_ns(s, ta, e);
    let l = s.subrange(ta, tb);
    assert(line_ok(l)) by {
        if l.len() > 0 {
            assert(l[0] == s[ta]);
            assert(l[l.len() - 1] == s[tb - 1]);
        }
        assert(forall|j: int| 0 <= j < l.len() ==> #[trigger] l[j] == s[ta + j]);
    }
    if !is_space(s[pos]) {
        assert(ta == pos);
        assert(pos < e);
        assert(tb > ta);
    }
    let ls = lines_from(s, pos, hi);
    if e >= hi {
        assert(ls =~= seq![l]);
        if !is_space(s[hi - 1]) {
            assert(e == hi);
            assert(tb == hi) by {
                if tb < hi {
                    assert(is_space(s[hi - 1]));
                }
            }
            assert(ta < hi) by {
                if ta == hi {
                    assert(tb == hi);
                    assert(is_space(s[hi - 1]));
                }
            }
        }
    } else if e + 1 == hi {
        assert(s[hi - 1] == '\n');
        assert(is_space(s[hi - 1]));
        assert(lines_from(s, e + 1, hi) =~= Seq::<Seq<char>>::empty());
        assert(ls =~= seq![l]);
    } else {
        lemma_lines_from_props(s, e + 1, hi);
        let rest = lines_from(s, e + 1, hi);
        assert(ls =~= seq![l] + rest);
        assert(ls.last() == rest.last());
        assert forall|i: int| 0 <= i < ls.len() implies line_ok(#[trigger] ls[i]) by {
            if i == 0 {
                assert(ls[0] == l);
            } else {
                assert(ls[i] == rest[i - 1]);
            }
        }
    }
}

/// The output of the emitter for well-formed lines ending in content: at
/// least two characters, a final line feed, and non-whitespace just before
/// it.
proof fn lemma_emit_trailing(ls: Seq<Seq<char>>, w: nat, d: nat)
    requires
        ls.len() > 0,
        forall|i: int| 0 <= i < ls.len() ==> line_ok(#[trigger] ls[i]),
        ls.last().len() > 0,
    ensures
        emit_lines(ls, w, d).len() >= 2,
        emit_lines(ls, w, d).last() == '\n',
        !is_space(emit_lines(ls, w, d)[emit_lines(ls, w, d).len() - 2]),
    decreases ls.len(),
{
    let out = emit_lines(ls, w, d);
    let l0 = ls[0];
    let rest = ls.drop_first();
    if ls.len() == 1 {
        assert(l0 == ls.last());
        assert(emit_lines(rest, w, next_depth(l0, d)) =~= Seq::<char>::empty());
        let ind = spaces(emit_depth(l0, d) * w);
        assert(out =~= ind + l0 + seq!['\n']);
        assert(out.last() == '\n');
        assert(out[out.len() - 2] == l0[l0.len() - 1]);
    } else {
        assert(forall|i: int| 0 <= i < rest.len() ==> line_ok(#[trigger] rest[i])) by {
            assert forall|i: int| 0 <= i < rest.len() implies line_ok(#[trigger] rest[i]) by {
                assert(rest[i] == ls[i + 1]);
            }
        }
        assert(rest.last() == ls.last());
        lemma_emit_trailing(rest, w, next_depth(l0, d));
        let ro = emit_lines(rest, w, next_depth(l0, d));
        assert(out == line_out(l0, w, d) + ro);
        assert(out.last() == ro.last());
        assert(out[out.len() - 2] == ro[ro.len() - 2]);
    }
}

/// Trailing line feed: the formatted output always ends with exactly one
/// line feed, whatever the input ended with.
pub proof fn lemma_trailing_newline(t: Seq<char>, w: nat)
    ensures
        spec_format(t, w).len() >= 1,
        spec_format(t, w).last() == '\n',
        spec_format(t, w).len() >= 2 ==> spec_format(t, w)[spec_format(t, w).len() - 2] != '\n',
{
    let n = t.len() as int;
    let lo = first_ns(t, 0, n);
    let hi = last_ns(t, lo, n);
    lemma_first_ns(t, 0, n);
    lemma_last_ns(t, lo, n);
    let ls0 = doc_line_seq(t);
    let ls = collapse(ls0);
    if ls.len() == 0 {
        assert(spec_format(t, w) =~= seq!['\n']);
    } else {
        assert(lo < hi) by {
            if lo >= hi {
                assert(ls0 =~= Seq::<Seq<char>>::empty());
                assert(ls =~= Seq::<Seq<char>>::empty());
            }
        }
        lemma_lines_from_props(t, lo, hi);
        assert(!is_space(t[hi - 1]));
        lemma_collapse_last(ls0, false);
        lemma_collapse_keeps_line_ok(ls0, false);
        lemma_emit_trailing(ls, w, 0);
        assert(is_space('\n'));
    }
}

/// Branch keywords close and reopen: `else` and `elseif` match both rule
/// sets, so such a line is emitted one level shallower and the lines after
/// it return to the depth of the lines before it.
pub proof fn lemma_else_reopens(l: Seq<char>, depth: nat)
    requires
        kw_prefix_wb(l, "else"@) || kw_prefix_wb(l, "elseif"@),
    ensures
        spec_is_closer(l),
        spec_is_opener(l),
        depth > 0 ==> emit_depth(l, depth) == depth - 1 && next_depth(l, depth) == depth,
        emit_depth(l, 0) == 0 && next_depth(l, 0) == 1,
{
    reveal_strlit("else");
    reveal_strlit("elseif");
    if kw_prefix_wb(l, "else"@) {
        assert(lower_char(l[0int + 0]) == "else"@[0]);
    } else {
        assert(lower_char(l[0int + 0]) == "elseif"@[0]);
    }
    assert(lower_char(l[0]) == 'e');
    assert(l[0] != '\'') by {
        if l[0] == '\'' {
            assert(lower_char('\'') == '\'');
        }
    }
}

/// Note disambiguation, block form: a line starting with `note` (in any
/// case) and containing no colon after the keyword opens a block; if it
/// does not end in a brace either, it closes nothing, so the following
/// lines sit exactly one level deeper.
pub proof fn lemma_note_block_opens(l: Seq<char>, depth: nat)
    requires
        starts_with_ci(l, "note"@),
        forall|i: int| "note"@.len() <= i < l.len() ==> l[i] != ':',
    ensures
        spec_is_opener(l),
        l[l.len() - 1] != '}' ==> next_depth(l, depth) == depth + 1,
{
    assert(note_opener(l));
    reveal_strlit("note");
    assert(lower_char(l[0int + 0]) == "note"@[0]);
    assert(lower_char(l[0]) == 'n');
    assert(l[0] != '\'') by {
        if l[0] == '\'' {
            assert(lower_char('\'') == '\'');
        }
    }
    if l[l.len() - 1] != '}' {
        assert(!spec_is_closer(l)) by {
            lemma_no_closer_starts_with_n(l);
        }
    }
}

/// No line whose first character folds to `n` matches the closer rule set,
/// unless it ends with a closing brace.
proof fn lemma_no_closer_starts_with_n(l: Seq<char>)
    requires
        l.len() > 0,
        lower_char(l[0]) == 'n',
        l[l.len() - 1] != '}',
    ensures
        !spec_is_closer(l),
{
    reveal_strlit("endif");
    reveal_strlit("endwhile");
    reveal_strlit("endfork");
    reveal_strlit("end");
    reveal_strlit("endgroup");
    reveal_strlit("stop");
    reveal_strlit("endrepeat");
    reveal_strlit("endpackage");
    reveal_strlit("endnamespace");
    reveal_strlit("else");
    reveal_strlit("elseif");
    if kw_prefix_wb(l, "endif"@) {
        assert(lower_char(l[0int + 0]) == "endif"@[0]);
    }
    if kw_prefix_wb(l, "endwhile"@) {
        assert(lower_char(l[0int + 0]) == "endwhile"@[0]);
    }
    if kw_prefix_wb(l, "endfork"@) {
        assert(lower_char(l[0int + 0]) == "endfork"@[0]);
    }
    if end_note(l) {
        assert(lower_char(l[0int + 0]) == "end"@[0]);
    }
    if kw_prefix_wb(l, "endgroup"@) {
        assert(lower_char(l[0int + 0]) == "endgroup"@[0]);
    }
    if kw_prefix_wb(l, "end"@) {
        assert(lower_char(l[0int + 0]) == "end"@[0]);
    }
    if kw_prefix_wb(l, "stop"@) {
        assert(lower_char(l[0int + 0]) == "stop"@[0]);
    }
    if kw_prefix_wb(l, "endrepeat"@) {
        assert(lower_char(l[0int + 0]) == "endrepeat"@[0]);
    }
    if kw_prefix_wb(l, "endpackage"@) {
        assert(lower_char(l[0int + 0]) == "endpackage"@[0]);
    }
    if kw_prefix_wb(l, "endnamespace"@) {
        assert(lower_char(l[0int + 0]) == "endnamespace"@[0]);
    }
    if kw_prefix_wb(l, "else"@) {
        assert(lower_char(l[0int + 0]) == "else"@[0]);
    }
    if kw_prefix_wb(l, "elseif"@) {
        assert(lower_char(l[0int + 0]) == "elseif"@[0]);
    }
}

/// Note disambiguation, inline form: a line starting with `note` that
/// carries a colon after the keyword opens nothing — unless its final
/// character is an opening brace, which matches the independent brace rule
/// — and, if it does not end in a brace, it leaves the depth unchanged.
pub proof fn lemma_note_inline_opens_nothing(l: Seq<char>, depth: nat)
    requires
        starts_with_ci(l, "note"@),
        exists|i: int| "note"@.len() <= i < l.len() && l[i] == ':',
        l[l.len() - 1] != '{',
        l[l.len() - 1] != '}',
    ensures
        !spec_is_opener(l),
        next_depth(l, depth) == depth,
{
    reveal_strlit("note");
    reveal_strlit("if");
    reveal_strlit("while");
    reveal_strlit("fork");
    reveal_strlit("package");
    reveal_strlit("namespace");
    reveal_strlit("group");
    reveal_strlit("loop");
    reveal_strlit("repeat");
    reveal_strlit("alt");
    reveal_strlit("opt");
    reveal_strlit("critical");
    reveal_strlit("else");
    reveal_strlit("elseif");
    assert(l.len() >= 4);
    assert(lower_char(l[0int + 0]) == "note"@[0]);
    assert(lower_char(l[0int + 1]) == "note"@[1]);
    assert(lower_char(l[0]) == 'n');
    assert(lower_char(l[1]) == 'o');
    if starts_with_ci(l, "if"@) {
        assert(lower_char(l[0int + 0]) == "if"@[0]);
    }
    if starts_with_ci(l, "while"@) {
        assert(lower_char(l[0int + 0]) == "while"@[0]);
    }
    if starts_with_ci(l, "fork"@) {
        assert(lower_char(l[0int + 0]) == "fork"@[0]);
    }
    if starts_with_ci(l, "package"@) {
        assert(lower_char(l[0int + 0]) == "package"@[0]);
    }
    if starts_with_ci(l, "namespace"@) {
        assert(lower_char(l[0int + 1]) == "namespace"@[1]);
    }
    if starts_with_ci(l, "group"@) {
        assert(lower_char(l[0int + 0]) == "group"@[0]);
    }
    if starts_with_ci(l, "loop"@) {
        assert(lower_char(l[0int + 0]) == "loop"@[0]);
    }
    if starts_with_ci(l, "repeat"@) {
        assert(lower_char(l[0int + 0]) == "repeat"@[0]);
    }
    if starts_with_ci(l, "alt"@) {
        assert(lower_char(l[0int + 0]) == "alt"@[0]);
    }
    if starts_with_ci(l, "opt"@) {
        assert(lower_char(l[0int + 0]) == "opt"@[0]);
    }
    if starts_with_ci(l, "critical"@) {
        assert(lower_char(l[0int + 0]) == "critical"@[0]);
    }
    if starts_with_ci(l, "else"@) {
        assert(lower_char(l[0int + 0]) == "else"@[0]);
    }
    if starts_with_ci(l, "elseif"@) {
        assert(lower_char(l[0int + 0]) == "elseif"@[0]);
    }
    assert(!brace_opener(l));
    assert(!note_opener(l));
    assert(l[0] != '\'') by {
        if l[0] == '\'' {
            assert(lower_char('\'') == '\'');
        }
    }
    lemma_no_closer_starts_with_n(l);
}

proof fn lemma_find_nl_shift(s: Seq<char>, pos: int, hi: int, a: int, b: int)
    requires
        0 <= pos <= a <= b <= hi <= s.len(),
    ensures
        find_nl(s, a, b) == pos + find_nl(s.subrange(pos, hi), a - pos, b - pos),
{
    let u = s.subrange(pos, hi);
    lemma_find_nl(u, a - pos, b - pos);
    let f = find_nl(u, a - pos, b - pos);
    assert forall|j: int| a <= j < pos + f implies s[j] != '\n' by {
        assert(u[j - pos] == s[j]);
    }
    if pos + f < b {
        assert(s[pos + f] == u[f]);
    }
    lemma_find_nl_is(s, a, b, pos + f);
}

proof fn lemma_first_ns_shift(s: Seq<char>, pos: int, hi: int, a: int, b: int)
    requires
        0 <= pos <= a <= b <= hi <= s.len(),
    ensures
        first_ns(s, a, b) == pos + first_ns(s.subrange(pos, hi), a - pos, b - pos),
{
    let u = s.subrange(pos, hi);
    lemma_first_ns(u, a - pos, b - pos);
    let f = first_ns(u, a - pos, b - pos);
    assert forall|j: int| a <= j < pos + f implies is_space(s[j]) by {
        assert(u[j - pos] == s[j]);
    }
    if pos + f < b {
        assert(s[pos + f] == u[f]);
    }
    lemma_first_ns_is(s, a, b, pos + f);
}

proof fn lemma_last_ns_shift(s: Seq<char>, pos: int, hi: int, a: int, b: int)
    requires
        0 <= pos <= a <= b <= hi <= s.len(),
    ensures
        last_ns(s, a, b) == pos + last_ns(s.subrange(pos, hi), a - pos, b - pos),
{
    let u = s.subrange(pos, hi);
    lemma_last_ns(u, a - pos, b - pos);
    let f = last_ns(u, a - pos, b - pos);
    assert forall|j: int| pos + f <= j < b implies is_space(s[j]) by {
        assert(u[j - pos] == s[j]);
    }
    if pos + f > a {
        assert(s[pos + f - 1] == u[f - 1]);
    }
    lemma_last_ns_is(s, a, b, pos + f);
}

/// Splitting a region into lines depends only on the region: the lines of
/// `s[a..hi)` are the lines of the same range taken inside the subrange
/// `s[pos..hi)`.
proof fn lemma_lines_shift(s: Seq<char>, pos: int, hi: int, a: int)
    requires
        0 <= pos <= a <= hi <= s.len(),
    ensures
        lines_from(s, a, hi) == lines_from(s.subrange(pos, hi), a - pos, hi - pos),
    decreases hi - a,
{
    let u = s.subrange(pos, hi);
    if a >= hi {
        assert(lines_from(s, a, hi) =~= Seq::<Seq<char>>::empty());
        assert(lines_from(u, a - pos, hi - pos) =~= Seq::<Seq<char>>::empty());
    } else {
        let e = find_nl(s, a, hi);
        lemma_find_nl(s, a, hi);
        lemma_find_nl_shift(s, pos, hi, a, hi);
        let ta = first_ns(s, a, e);
        lemma_first_ns(s, a, e);
        lemma_first_ns_shift(s, pos, hi, a, e);
        let tb = last_ns(s, ta, e);
        lemma_last_ns(s, ta, e);
        lemma_last_ns_shift(s, pos, hi, ta, e);
        assert(s.subrange(ta, tb) =~= u.subrange(ta - pos, tb - pos)) by {
            assert forall|j: int| 0 <= j < tb - ta implies s.subrange(ta, tb)[j] == u.subrange(
                ta - pos,
                tb - pos,
            )[j] by {
                assert(s.subrange(ta, tb)[j] == s[ta + j]);
                assert(u.subrange(ta - pos, tb - pos)[j] == u[ta - pos + j]);
                assert(u[ta - pos + j] == s[ta + j]);
            }
        }
        if e < hi {
            lemma_lines_shift(s, pos, hi, e + 1);
            assert(lines_from(s, a, hi) == seq![s.subrange(ta, tb)] + lines_from(s, e + 1, hi));
            assert(lines_from(u, a - pos, hi - pos) == seq![u.subrange(ta - pos, tb - pos)]
                + lines_from(u, e + 1 - pos, hi - pos));
        }
    }
}

/// Re-splitting what the emitter produced gives back exactly the lines it
/// was handed: indentation and the final line feed are the only additions,
/// and per-line trimming removes the indentation again.
proof fn lemma_resplit(ls: Seq<Seq<char>>, w: nat, d: nat)
    requires
        ls.len() > 0,
        forall|i: int| 0 <= i < ls.len() ==> line_ok(#[trigger] ls[i]),
        ls.last().len() > 0,
    ensures
        lines_from(emit_lines(ls, w, d), 0, emit_lines(ls, w, d).len() - 1) == ls,
    decreases ls.len(),
{
    let out = emit_lines(ls, w, d);
    let l0 = ls[0];
    let rest = ls.drop_first();
    let dd = emit_depth(l0, d);
    let ind = spaces(dd * w);
    let head = line_out(l0, w, d);
    lemma_emit_trailing(ls, w, d);
    if ls.len() == 1 {
        assert(l0 == ls.last());
        assert(emit_lines(rest, w, next_depth(l0, d)) =~= Seq::<char>::empty());
        assert(out =~= ind + l0 + seq!['\n']);
        let hi = out.len() - 1;
        assert(hi == ind.len() + l0.len());
        assert forall|j: int| 0 <= j < hi implies out[j] != '\n' by {
            if j < ind.len() {
                assert(out[j] == ' ');
            } else {
                assert(out[j] == l0[j - ind.len()]);
            }
        }
        lemma_find_nl_is(out, 0, hi, hi);
        assert forall|j: int| 0 <= j < ind.len() implies is_space(out[j]) by {
            assert(out[j] == ' ');
        }
        assert(out[ind.len() as int] == l0[0]);
        lemma_first_ns_is(out, 0, hi, ind.len() as int);
        assert(out[hi - 1] == l0[l0.len() - 1]);
        lemma_last_ns_is(out, ind.len() as int, hi, hi);
        assert(out.subrange(ind.len() as int, hi) =~= l0);
        assert(lines_from(out, 0, hi) =~= seq![l0]);
        assert(seq![l0] =~= ls);
    } else {
        let d2 = next_depth(l0, d);
        let ro = emit_lines(rest, w, d2);
        assert(out == head + ro);
        assert(forall|i: int| 0 <= i < rest.len() ==> line_ok(#[trigger] rest[i])) by {
            assert forall|i: int| 0 <= i < rest.len() implies line_ok(#[trigger] rest[i]) by {
                assert(rest[i] == ls[i + 1]);
            }
        }
        assert(rest.last() == ls.last());
        lemma_resplit(rest, w, d2);
        lemma_emit_trailing(rest, w, d2);
        let hm = head.len() as int;
        let hi = out.len() - 1;
        assert(hi == hm + ro.len() - 1);
        assert(hm - 1 < hi);
        // the head is indentation, the line, then its line feed
        if l0.len() == 0 {
            assert(head =~= seq!['\n']);
            assert(hm == 1);
        } else {
            assert(head =~= ind + l0 + seq!['\n']);
            assert(hm == ind.len() + l0.len() + 1);
        }
        assert forall|j: int| 0 <= j < hm - 1 implies out[j] != '\n' by {
            assert(out[j] == head[j]);
            if l0.len() > 0 {
                if j < ind.len() {
                    assert(head[j] == ' ');
                } else {
                    assert(head[j] == l0[j - ind.len()]);
                }
            }
        }
        assert(out[hm - 1] == head[hm - 1]);
        assert(head[hm - 1] == '\n');
        lemma_find_nl_is(out, 0, hi, hm - 1);
        let e = hm - 1;
        let ta: int = if l0.len() == 0 { 0 } else { ind.len() as int };
        assert forall|j: int| 0 <= j < ta implies is_space(out[j]) by {
            assert(out[j] == head[j]);
            assert(head[j] == ' ');
        }
        if l0.len() > 0 {
            assert(out[ta] == head[ta]);
            assert(head[ta] == l0[0]);
        }
        lemma_first_ns_is(out, 0, e, ta);
        let tb: int = if l0.len() == 0 { 0 } else { e };
        if l0.len() > 0 {
            assert(out[tb - 1] == head[tb - 1]);
            assert(head[tb - 1] == l0[l0.len() - 1]);
        }
        lemma_last_ns_is(out, ta, e, tb);
        assert(out.subrange(ta, tb) =~= l0) by {
            assert forall|j: int| 0 <= j < tb - ta implies out.subrange(ta, tb)[j] == l0[j] by {
                assert(out.subrange(ta, tb)[j] == out[ta + j]);
                assert(out[ta + j] == head[ta + j]);
                assert(head[ta + j] == l0[j]);
            }
        }
        assert(lines_from(out, 0, hi) == seq![l0] + lines_from(out, hm, hi));
        // the remainder of the output is the emission of the remaining lines
        lemma_lines_shift(out, hm, hi, hm);
        lemma_lines_shift(ro, 0, ro.len() - 1, 0);
        assert(out.subrange(hm, hi) =~= ro.subrange(0, ro.len() - 1)) by {
            assert forall|j: int| 0 <= j < hi - hm implies out.subrange(hm, hi)[j] == ro.subrange(
                0,
                ro.len() - 1,
            )[j] by {
                assert(out.subrange(hm, hi)[j] == out[hm + j]);
                assert(out[hm + j] == ro[j]);
                assert(ro.subrange(0, ro.len() - 1)[j] == ro[j]);
            }
        }
        assert(lines_from(out, hm, hi) == rest);
        assert(seq![l0] + rest =~= ls);
    }
}

/// Idempotence: formatting already-formatted output changes nothing.
pub proof fn lemma_format_idempotent(t: Seq<char>, w: nat)
    ensures
        spec_format(spec_format(t, w), w) == spec_format(t, w),
{
    let n = t.len() as int;
    let lo = first_ns(t, 0, n);
    let hi = last_ns(t, lo, n);
    lemma_first_ns(t, 0, n);
    lemma_last_ns(t, lo, n);
    let ls0 = doc_line_seq(t);
    let ls = collapse(ls0);
    let out = spec_format(t, w);
    if ls.len() == 0 {
        assert(out =~= seq!['\n']);
        assert(is_space('\n'));
        assert(first_ns(out, 1, 1) == 1);
        assert(first_ns(out, 0, 1) == 1);
        assert(last_ns(out, 1, 1) == 1);
        assert(lines_from(out, 1, 1) =~= Seq::<Seq<char>>::empty());
        assert(doc_line_seq(out) =~= Seq::<Seq<char>>::empty());
        assert(collapse(doc_line_seq(out)) =~= Seq::<Seq<char>>::empty());
        assert(spec_format(out, w) =~= out);
    } else {
        assert(lo < hi) by {
            if lo >= hi {
                assert(ls0 =~= Seq::<Seq<char>>::empty());
                assert(ls =~= Seq::<Seq<char>>::empty());
            }
        }
        lemma_lines_from_props(t, lo, hi);
        lemma_collapse_keeps_line_ok(ls0, false);
        lemma_collapse_head(ls0);
        lemma_collapse_last(ls0, false);
        lemma_collapse_no2adj(ls0, false);
        assert(ls[0] == ls0[0]);
        assert(ls[0].len() > 0);
        assert(ls.last().len() > 0);
        assert(out == emit_lines(ls, w, 0));
        lemma_emit_trailing(ls, w, 0);
        lemma_resplit(ls, w, 0);
        let m = out.len() as int;
        // the first emitted line starts at depth zero with its own first
        // character, so nothing is trimmed away at the front
        let head = line_out(ls[0], w, 0);
        let ro = emit_lines(ls.drop_first(), w, next_depth(ls[0], 0));
        assert(out == head + ro);
        assert(emit_depth(ls[0], 0) == 0);
        assert(spaces(0 * w).len() == 0);
        assert(head =~= spaces(0 * w) + ls[0] + seq!['\n']);
        assert(head[0] == ls[0][0]);
        assert(out[0] == head[0]);
        assert(!is_space(out[0]));
        lemma_first_ns_is(out, 0, m, 0);
        assert forall|j: int| m - 1 <= j < m implies is_space(out[j]) by {
            assert(out[m - 1] == '\n');
        }
        lemma_last_ns_is(out, 0, m, m - 1);
        assert(doc_line_seq(out) == lines_from(out, 0, m - 1));
        assert(doc_line_seq(out) == ls);
        lemma_collapse_noop(ls, false);
        assert(spec_format(out, w) == out);
    }
}

} // verus!
