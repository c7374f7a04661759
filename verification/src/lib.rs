//! A deterministic re-indentation engine for PlantUML-style diagram text.
//!
//! The formatter normalizes blank-line runs and recomputes the leading
//! whitespace of every line from a nesting depth that is inferred purely
//! from lexical pattern matching on line content.

use vstd::prelude::*;

pub mod chars;
pub mod classify;
pub mod emit;
pub mod props;
pub mod scan;

pub use classify::{classify, LineKind};

use crate::chars::is_space;
use crate::emit::{
    collapse, collapse_from, emit_depth, emit_lines, lemma_collapse_unfold,
    lemma_emit_lines_unfold, line_out, next_depth, push_spaces,
};
use crate::scan::{
    extract, find_nl_x, first_ns, first_ns_x, last_ns, last_ns_x, lemma_find_nl, lemma_first_ns,
    lemma_last_ns, lines_from, str_to_chars,
};

verus! {

/// The error taxonomy of the formatter.  Classification rests on a pattern
/// evaluation that, in ecosystems with backtracking pattern engines, can
/// fail at run time; the formatter therefore reports its result fallibly.
/// The pattern matching used here is total, so this error is never
/// produced, which the contract of [`format_plantuml`] records.
#[derive(Clone, Copy, Debug, PartialEq, Eq, Structural)]
pub enum FormatError {
    PatternMatchFailure,
}

/// The trimmed lines of a document: whole-document whitespace is trimmed
/// first, then the remainder is split on line feeds and each line is
/// trimmed in turn.  A document of nothing but whitespace has no lines.
pub open spec fn doc_line_seq(t: Seq<char>) -> Seq<Seq<char>> {
    let lo = first_ns(t, 0, t.len() as int);
    let hi = last_ns(t, lo, t.len() as int);
    lines_from(t, lo, hi)
}

/// What formatting produces: the document's trimmed lines with blank runs
/// collapsed, emitted at the inferred nesting depths starting from zero,
/// every line followed by a line feed.  A document with no lines formats to
/// a single line feed.
pub open spec fn spec_format(t: Seq<char>, w: nat) -> Seq<char> {
    let ls = collapse(doc_line_seq(t));
    if ls.len() == 0 {
        seq!['\n']
    } else {
        emit_lines(ls, w, 0)
    }
}

/// Formats a PlantUML document: collapses runs of blank lines and rewrites
/// the leading whitespace of every line to `depth × indent_size` spaces,
/// where the depth is the number of currently open blocks.  Always
/// succeeds; the fallible result type mirrors the pattern-failure taxonomy.
pub fn format_plantuml(text: &str, indent_size: usize) -> (r: Result<String, FormatError>)
    ensures
        r is Ok,
        r matches Ok(out) ==> out@ == spec_format(text@, indent_size as nat),
{
    let w = indent_size;
    let chars = str_to_chars(text);
    let n = chars.len();
    let lo = first_ns_x(&chars, 0, n);
    let hi = last_ns_x(&chars, lo, n);
    proof {
        lemma_first_ns(chars@, 0, n as int);
        lemma_last_ns(chars@, lo as int, n as int);
    }
    let mut out = String::new();
    if lo >= hi {
        out.append("\n");
        proof {
            reveal_strlit("\n");
            assert(doc_line_seq(text@).len() == 0);
            assert(collapse(doc_line_seq(text@)).len() == 0);
            assert(out@ =~= seq!['\n']);
        }
        return Ok(out);
    }
    assert(!is_space(chars@[lo as int]));
    assert(!is_space(chars@[hi - 1]));
    proof {
        assert(lines_from(chars@, lo as int, hi as int).len() >= 1);
        assert(collapse(lines_from(chars@, lo as int, hi as int)) == seq![
            lines_from(chars@, lo as int, hi as int)[0],
        ] + collapse_from(
            lines_from(chars@, lo as int, hi as int).drop_first(),
            lines_from(chars@, lo as int, hi as int)[0].len() == 0,
        ));
    }
    let mut depth: usize = 0;
    let mut prev_blank = false;
    let mut pos = lo;
    loop
        invariant_except_break
            depth <= pos - lo,
            out@ + emit_lines(
                collapse_from(lines_from(chars@, pos as int, hi as int), prev_blank),
                w as nat,
                depth as nat,
            ) == spec_format(text@, w as nat),
        invariant
            chars@ == text@,
            n == chars@.len(),
            w == indent_size,
            lo == first_ns(chars@, 0, n as int),
            hi == last_ns(chars@, lo as int, n as int),
            lo < hi <= n,
            !is_space(chars@[lo as int]),
            !is_space(chars@[hi - 1]),
            lo <= pos < hi,
        ensures
            out@ == spec_format(text@, w as nat),
        decreases hi - pos,
    {
        let e = find_nl_x(&chars, pos, hi);
        proof {
            lemma_find_nl(chars@, pos as int, hi as int);
        }
        let ta = first_ns_x(&chars, pos, e);
        let tb = last_ns_x(&chars, ta, e);
        proof {
            lemma_first_ns(chars@, pos as int, e as int);
            lemma_last_ns(chars@, ta as int, e as int);
        }
        let ghost l: Seq<char> = chars@.subrange(ta as int, tb as int);
        let ghost rest: Seq<Seq<char>> = if e == hi {
            Seq::<Seq<char>>::empty()
        } else {
            lines_from(chars@, e + 1, hi as int)
        };
        proof {
            assert(lines_from(chars@, pos as int, hi as int) =~= seq![l] + rest);
            lemma_collapse_unfold(l, rest, prev_blank);
            lemma_emit_lines_unfold(
                l,
                collapse_from(rest, l.len() == 0),
                w as nat,
                depth as nat,
            );
        }
        let ghost out_entry = out@;
        let ghost depth_entry = depth as nat;
        if ta == tb {
            if !prev_blank {
                out.append("\n");
                proof {
                    reveal_strlit("\n");
                    assert(line_out(l, w as nat, depth_entry) =~= seq!['\n']);
                    assert(out@ =~= out_entry + line_out(l, w as nat, depth_entry));
                }
            }
            prev_blank = true;
        } else {
            let lv = extract(&chars, ta, tb);
            if lv[0] == '\'' {
                push_spaces(&mut out, depth, w);
                let piece = text.substring_char(ta, tb);
                out.append(piece);
                out.append("\n");
                proof {
                    reveal_strlit("\n");
                    assert(emit_depth(l, depth_entry) == depth_entry);
                    assert(out@ =~= out_entry + line_out(l, w as nat, depth_entry));
                }
            } else {
                let closing = classify::line_is_closer(&lv);
                if closing && depth > 0 {
                    depth -= 1;
                }
                proof {
                    assert(depth as nat == emit_depth(l, depth_entry));
                }
                push_spaces(&mut out, depth, w);
                let piece = text.substring_char(ta, tb);
                out.append(piece);
                out.append("\n");
                proof {
                    reveal_strlit("\n");
                    assert(out@ =~= out_entry + line_out(l, w as nat, depth_entry));
                }
                if classify::line_is_opener(&lv) {
                    depth += 1;
                }
                proof {
                    assert(depth as nat == next_depth(l, depth_entry));
                }
            }
            prev_blank = false;
        }
        proof {
            assert(next_depth(l, depth_entry) == depth as nat);
            assert(out@ + emit_lines(collapse_from(rest, l.len() == 0), w as nat, depth as nat)
                =~= spec_format(text@, w as nat));
        }
        if e == hi {
            proof {
                assert(collapse_from(rest, l.len() == 0) =~= Seq::<Seq<char>>::empty());
                assert(out@ =~= spec_format(text@, w as nat));
            }
            break;
        }
        proof {
            assert(chars@[e as int] == '\n');
            assert(e != hi - 1);
        }
        pos = e + 1;
    }
    Ok(out)
}

} // verus!
