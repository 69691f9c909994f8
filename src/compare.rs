//! Comparison of two disassemblies at one granularity: the instructions of
//! two blocks, the blocks of a section, or the sections of two files.
use vstd::prelude::*;
use crate::align::{align, align_spec};
use crate::asm_file::{AsmFile, block_instructions, section_blocks, headers, lines_view};
use crate::diff::{diff, diff_spec};
use crate::line::{Line, LineView, same_op, same_label, same_section};
use crate::matching::MatchingPair;

verus! {

/// Two lists of lines and the pairs that relate their indices.
pub struct Comparison {
    pub left: Vec<Line>,
    pub right: Vec<Line>,
    pub pairs: Vec<MatchingPair>,
}

/// `pairs` is the sequence diff of `a` and `b` by mnemonic.
pub open spec fn is_op_diff(a: Seq<LineView>, b: Seq<LineView>, pairs: Seq<MatchingPair>) -> bool {
    exists|eq: spec_fn(int, int) -> bool|
        (forall|i: int, j: int|
            #![trigger eq(i, j)]
            0 <= i < a.len() && 0 <= j < b.len() ==> eq(i, j) == same_op(a[i], b[j])) && pairs
            == diff_spec(eq, a.len(), b.len())
}

/// `pairs` is the set alignment of `a` and `b` by `same(x, y)`.
pub open spec fn is_alignment(
    a: Seq<LineView>,
    b: Seq<LineView>,
    pairs: Seq<MatchingPair>,
    same: spec_fn(LineView, LineView) -> bool,
) -> bool {
    exists|seek_right: spec_fn(int, int) -> bool, seek_left: spec_fn(int, int) -> bool|
        (forall|i: int, j: int|
            #![trigger seek_right(i, j)]
            #![trigger seek_left(j, i)]
            0 <= i < a.len() && 0 <= j < b.len() ==> seek_right(i, j) == same(b[j], a[i])
                && seek_left(j, i) == same(a[i], b[j])) && pairs == align_spec(
            seek_right,
            seek_left,
            a.len(),
            b.len(),
        )
}

fn diff_by_op(left: Vec<Line>, right: Vec<Line>) -> (r: Comparison)
    ensures
        r.left@ == left@,
        r.right@ == right@,
        is_op_diff(lines_view(left@), lines_view(right@), r.pairs@),
{
    let by_op = |a: &Line, b: &Line| -> (r: bool)
        ensures
            r == same_op(a@, b@),
        { a.same_op(b) };
    let pairs = diff(&left, &right, by_op);
    proof {
        let eq = choose|eq: spec_fn(int, int) -> bool|
            crate::diff::is_match_relation(by_op, left@, right@, eq) && pairs@ == diff_spec(
                eq,
                left@.len(),
                right@.len(),
            );
        let a = lines_view(left@);
        let b = lines_view(right@);
        assert forall|i: int, j: int| 0 <= i < a.len() && 0 <= j < b.len() implies #[trigger] eq(i, j)
            == same_op(a[i], b[j]) by {
            assert(by_op.ensures((&left@[i], &right@[j]), eq(i, j)));
        }
    }
    Comparison { left, right, pairs }
}

/// Labels compared by name, or section headers compared by name.
pub open spec fn same(x: LineView, y: LineView, labels: bool, no_hash: bool) -> bool {
    if labels {
        same_label(x, y, no_hash)
    } else {
        same_section(x, y)
    }
}

fn align_by(left: Vec<Line>, right: Vec<Line>, no_hash: bool, labels: bool) -> (r: Comparison)
    ensures
        r.left@ == left@,
        r.right@ == right@,
        labels ==> is_alignment(
            lines_view(left@),
            lines_view(right@),
            r.pairs@,
            |x: LineView, y: LineView| same_label(x, y, no_hash),
        ),
        !labels ==> is_alignment(
            lines_view(left@),
            lines_view(right@),
            r.pairs@,
            |x: LineView, y: LineView| same_section(x, y),
        ),
{
    let cmp = |a: &Line, b: &Line| -> (r: bool)
        ensures
            r == if labels {
                same_label(a@, b@, no_hash)
            } else {
                same_section(a@, b@)
            },
        {
            if labels {
                a.same_label(b, no_hash)
            } else {
                a.same_section(b)
            }
        };
    let pairs = align(&left, &right, cmp);
    proof {
        let (sr, sl) = choose|sr: spec_fn(int, int) -> bool, sl: spec_fn(int, int) -> bool|
            crate::align::is_seek_relation(cmp, left@, right@, sr, sl) && pairs@ == align_spec(
                sr,
                sl,
                left@.len(),
                right@.len(),
            );
        let a = lines_view(left@);
        let b = lines_view(right@);
        assert forall|i: int, j: int| 0 <= i < a.len() && 0 <= j < b.len() implies (#[trigger] sr(i, j)
            == same(b[j], a[i], labels, no_hash) && #[trigger] sl(j, i) == same(a[i], b[j], labels, no_hash)) by {
            assert(cmp.ensures((&right@[j], &left@[i]), sr(i, j)));
            assert(cmp.ensures((&left@[i], &right@[j]), sl(j, i)));
        }
        if labels {
            let f = |x: LineView, y: LineView| same_label(x, y, no_hash);
            assert forall|i: int, j: int| 0 <= i < a.len() && 0 <= j < b.len() implies (#[trigger] sr(i, j)
                == f(b[j], a[i]) && #[trigger] sl(j, i) == f(a[i], b[j])) by {
                assert(sr(i, j) == same(b[j], a[i], labels, no_hash));
                assert(sl(j, i) == same(a[i], b[j], labels, no_hash));
            }
            assert(pairs@ == align_spec(sr, sl, a.len(), b.len()));
            assert(is_alignment(a, b, pairs@, f));
        } else {
            let f = |x: LineView, y: LineView| same_section(x, y);
            assert forall|i: int, j: int| 0 <= i < a.len() && 0 <= j < b.len() implies (#[trigger] sr(i, j)
                == f(b[j], a[i]) && #[trigger] sl(j, i) == f(a[i], b[j])) by {
                assert(sr(i, j) == same(b[j], a[i], labels, no_hash));
                assert(sl(j, i) == same(a[i], b[j], labels, no_hash));
            }
            assert(pairs@ == align_spec(sr, sl, a.len(), b.len()));
            assert(is_alignment(a, b, pairs@, f));
        }
    }
    Comparison { left, right, pairs }
}

/// The instructions of block `left_ix` of `section` on the left and block
/// `right_ix` of it on the right, diffed by mnemonic; `None` when either
/// block is missing.
pub fn line_diff(left: &AsmFile, right: &AsmFile, section: &str, left_ix: usize, right_ix: usize) -> (r:
    Option<Comparison>)
    ensures
        match (
            block_instructions(left@, section@, left_ix as nat),
            block_instructions(right@, section@, right_ix as nat),
        ) {
            (Some(a), Some(b)) => r matches Some(c) && lines_view(c.left@) == a && lines_view(c.right@)
                == b && is_op_diff(a, b, c.pairs@),
            _ => r is None,
        },
{
    let a = left.get_block_lines(section, left_ix);
    let b = right.get_block_lines(section, right_ix);
    match (a, b) {
        (Some(a), Some(b)) => Some(diff_by_op(a, b)),
        _ => None,
    }
}

/// The labels of `section` on both sides, aligned by demangled name (without
/// hashes when `no_hash`); `None` when either side lacks the section.
pub fn block_diff(left: &AsmFile, right: &AsmFile, section: &str, no_hash: bool) -> (r: Option<
    Comparison,
>)
    ensures
        match (section_blocks(left@, section@), section_blocks(right@, section@)) {
            (Some(a), Some(b)) => r matches Some(c) && lines_view(c.left@) == a && lines_view(c.right@)
                == b && is_alignment(a, b, c.pairs@, |x: LineView, y: LineView| same_label(x, y, no_hash)),
            _ => r is None,
        },
{
    let a = left.get_section_blocks(section);
    let b = right.get_section_blocks(section);
    match (a, b) {
        (Some(a), Some(b)) => Some(align_by(a, b, no_hash, true)),
        _ => None,
    }
}

/// The section headers of both sides, aligned by name.
pub fn section_diff(left: &AsmFile, right: &AsmFile) -> (r: Comparison)
    ensures
        lines_view(r.left@) == headers(left@),
        lines_view(r.right@) == headers(right@),
        is_alignment(headers(left@), headers(right@), r.pairs@, |x: LineView, y: LineView| same_section(x, y)),
{
    align_by(left.sections(), right.sections(), false, false)
}

} // verus!
