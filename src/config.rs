//! What a comparison shows: the options of a run and the rows they let
//! through.
use vstd::prelude::*;
use crate::matching::MatchingPair;

verus! {

/// The options of one run.
pub struct Config {
    pub left_file: String,
    pub right_file: Option<String>,
    pub mode: String,
    pub level: Option<String>,
    pub no_hash: bool,
    pub section: Option<String>,
    pub left_ix: Option<usize>,
    pub right_ix: Option<usize>,
    pub summary_type: Option<String>,
    pub no_color: bool,
    pub side_by_side_width: Option<usize>,
    pub only_diff: bool,
    pub only_adds: bool,
    pub only_dels: bool,
    pub only_dels_and_adds: bool,
}

/// Which rows of a comparison are shown.
#[derive(Clone, Copy)]
pub struct DisplayFilter {
    pub only_diff: bool,
    pub only_adds: bool,
    pub only_dels: bool,
    pub only_dels_and_adds: bool,
}

/// The kind of one row of a comparison.
#[derive(Clone, Copy, PartialEq, Eq, Structural)]
pub enum Row {
    /// matched and identical
    Match,
    /// matched, but the two sides differ
    Partial,
    /// left only
    Deletion,
    /// right only
    Insertion,
    /// neither side
    Gap,
}

pub open spec fn row_of(p: MatchingPair, total_match: bool) -> Row {
    match p {
        (Some(_), Some(_)) => if total_match {
            Row::Match
        } else {
            Row::Partial
        },
        (Some(_), None) => Row::Deletion,
        (None, Some(_)) => Row::Insertion,
        (None, None) => Row::Gap,
    }
}

/// The kind of the row of `p`, where `total_match` tells whether the two
/// matched elements are identical.
pub fn row_kind(p: MatchingPair, total_match: bool) -> (r: Row)
    ensures
        r == row_of(p, total_match),
{
    match p {
        (Some(_), Some(_)) => if total_match {
            Row::Match
        } else {
            Row::Partial
        },
        (Some(_), None) => Row::Deletion,
        (None, Some(_)) => Row::Insertion,
        (None, None) => Row::Gap,
    }
}

/// Insertions show unless only deletions are asked for; deletions unless only
/// insertions are; partial matches unless only insertions, deletions, or both
/// are; identical matches when partial ones show and not only differences are
/// asked for.
pub open spec fn shown(f: DisplayFilter, row: Row) -> bool {
    let show_adds = !f.only_dels;
    let show_dels = !f.only_adds;
    let show_partial = !f.only_adds && !f.only_dels && !f.only_dels_and_adds;
    let show_match = !f.only_diff && show_partial;
    match row {
        Row::Match => show_match,
        Row::Partial => show_partial,
        Row::Deletion => show_dels,
        Row::Insertion => show_adds,
        Row::Gap => true,
    }
}

impl DisplayFilter {
    pub fn shows(&self, row: Row) -> (r: bool)
        ensures
            r == shown(*self, row),
    {
        let show_adds = !self.only_dels;
        let show_dels = !self.only_adds;
        let show_partial = !self.only_adds && !self.only_dels && !self.only_dels_and_adds;
        let show_match = !self.only_diff && show_partial;
        match row {
            Row::Match => show_match,
            Row::Partial => show_partial,
            Row::Deletion => show_dels,
            Row::Insertion => show_adds,
            Row::Gap => true,
        }
    }
}

impl Config {
    /// The row filter that the options ask for.
    pub fn filter(&self) -> (r: DisplayFilter)
        ensures
            r == (DisplayFilter {
                only_diff: self.only_diff,
                only_adds: self.only_adds,
                only_dels: self.only_dels,
                only_dels_and_adds: self.only_dels_and_adds,
            }),
    {
        DisplayFilter {
            only_diff: self.only_diff,
            only_adds: self.only_adds,
            only_dels: self.only_dels,
            only_dels_and_adds: self.only_dels_and_adds,
        }
    }
}

} // verus!
