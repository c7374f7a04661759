//! The emitter model: blank-run collapsing over line sequences, the depth
//! bookkeeping, and the shape of the generated output.

use vstd::prelude::*;
use crate::chars::{lemma_spaces_push, spaces};
use crate::classify::{spec_is_closer, spec_is_opener};

verus! {

/// Collapses runs of blank lines: a blank line is dropped whenever the line
/// before it was blank as well, so every run of blanks keeps exactly its
/// first line.  `prev_blank` says whether the line just before `ls` was blank.
pub open spec fn collapse_from(ls: Seq<Seq<char>>, prev_blank: bool) -> Seq<Seq<char>>
    decreases ls.len(),
{
    if ls.len() == 0 {
        Seq::empty()
    } else {
        let rest = collapse_from(ls.drop_first(), ls[0].len() == 0);
        if ls[0].len() == 0 && prev_blank {
            rest
        } else {
            seq![ls[0]] + rest
        }
    }
}

/// Collapses every run of two or more blank lines to a single blank line.
pub open spec fn collapse(ls: Seq<Seq<char>>) -> Seq<Seq<char>> {
    collapse_from(ls, false)
}

/// Depth at which a line is emitted: a closer pulls the depth down one
/// level first, saturating at zero; blank and comment lines sit at the
/// current depth.
pub open spec fn emit_depth(l: Seq<char>, depth: nat) -> nat {
    if l.len() == 0 || l[0] == '\'' {
        depth
    } else if spec_is_closer(l) && depth > 0 {
        (depth - 1) as nat
    } else {
        depth
    }
}

/// Depth after a line: an opener pushes one level, applied after the closer
/// effect; blank and comment lines never change the depth.
pub open spec fn next_depth(l: Seq<char>, depth: nat) -> nat {
    if l.len() == 0 || l[0] == '\'' {
        depth
    } else {
        let d1 = emit_depth(l, depth);
        if spec_is_opener(l) {
            d1 + 1
        } else {
            d1
        }
    }
}

/// The output for one line, including its line feed.  A blank line is
/// emitted with no content and no indentation; every other line is prefixed
/// with emit-depth × unit spaces.
pub open spec fn line_out(l: Seq<char>, w: nat, depth: nat) -> Seq<char> {
    if l.len() == 0 {
        seq!['\n']
    } else {
        spaces(emit_depth(l, depth) * w) + l + seq!['\n']
    }
}

/// The output for a sequence of lines, starting at the given depth.
pub open spec fn emit_lines(ls: Seq<Seq<char>>, w: nat, depth: nat) -> Seq<char>
    decreases ls.len(),
{
    if ls.len() == 0 {
        Seq::empty()
    } else {
        line_out(ls[0], w, depth) + emit_lines(ls.drop_first(), w, next_depth(ls[0], depth))
    }
}

pub proof fn lemma_emit_lines_unfold(l: Seq<char>, rest: Seq<Seq<char>>, w: nat, depth: nat)
    ensures
        emit_lines(seq![l] + rest, w, depth) == line_out(l, w, depth) + emit_lines(
            rest,
            w,
            next_depth(l, depth),
        ),
{
    let ls = seq![l] + rest;
    assert(ls[0] == l);
    assert(ls.drop_first() =~= rest);
}

pub proof fn lemma_collapse_unfold(l: Seq<char>, rest: Seq<Seq<char>>, pb: bool)
    ensures
        l.len() == 0 && pb ==> collapse_from(seq![l] + rest, pb) == collapse_from(rest, true),
        !(l.len() == 0 && pb) ==> collapse_from(seq![l] + rest, pb) == seq![l] + collapse_from(
            rest,
            l.len() == 0,
        ),
{
    let ls = seq![l] + rest;
    assert(ls[0] == l);
    assert(ls.drop_first() =~= rest);
}

/// Appends `d * w` space characters.
pub fn push_spaces(out: &mut String, d: usize, w: usize)
    ensures
        final(out)@ == old(out)@ + spaces((d as nat) * (w as nat)),
{
    let ghost base = out@;
    let mut k: usize = 0;
    while k < d
        invariant
            k <= d,
            out@ == base + spaces((k as nat) * (w as nat)),
        decreases d - k,
    {
        let mut j: usize = 0;
        while j < w
            invariant
                j <= w,
                k < d,
                out@ == base + spaces((k as nat) * (w as nat) + (j as nat)),
            decreases w - j,
        {
            out.append(" ");
            proof {
                reveal_strlit(" ");
                lemma_spaces_push((k as nat) * (w as nat) + (j as nat));
                assert(" "@ =~= seq![' ']);
                assert(base + spaces((k as nat) * (w as nat) + (j as nat)) + " "@ =~= base
                    + spaces((k as nat) * (w as nat) + (j as nat) + 1));
            }
            j += 1;
        }
        proof {
            assert(((k + 1) as nat) * (w as nat) == (k as nat) * (w as nat) + (w as nat))
                by (nonlinear_arith);
        }
        k += 1;
    }
}

} // verus!
