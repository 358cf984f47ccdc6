//! Line/character positions in a document and ranges between them.

use crate::rope::{
    breaks_before, lemma_breaks_before_mono, lemma_line_start_bounds, lemma_line_start_le, line_start,
    rope_char_to_line, rope_line_to_char, rope_text,
};
use ropey::Rope;
use vstd::prelude::*;

verus! {

/// A zero-based line and a zero-based character offset within that line.
#[derive(Clone, Copy, PartialEq, Eq, Structural, Debug)]
pub struct Position {
    pub line: usize,
    pub character: usize,
}

/// A span between two positions.
#[derive(Clone, Copy, PartialEq, Eq, Structural, Debug)]
pub struct Range {
    pub start: Position,
    pub end: Position,
}

/// The position of char index `ix` in text `s`.
pub open spec fn pos_of(s: Seq<char>, ix: int) -> Position {
    let l = breaks_before(s, ix);
    Position { line: l as usize, character: (ix - line_start(s, l)) as usize }
}

/// The range from char index `start` to char index `end` in text `s`.
pub open spec fn range_of(s: Seq<char>, start: int, end: int) -> Range {
    Range { start: pos_of(s, start), end: pos_of(s, end) }
}

pub proof fn lemma_breaks_before_le(s: Seq<char>, i: int)
    requires
        0 <= i,
    ensures
        breaks_before(s, i) <= i,
    decreases i,
{
    if i > 0 {
        lemma_breaks_before_le(s, i - 1);
    }
}

/// The position of a char index in a rope.
pub fn char_position(rope: &Rope, ix: usize) -> (p: Position)
    requires
        ix <= rope_text(*rope).len(),
    ensures
        p == pos_of(rope_text(*rope), ix as int),
{
    let line = rope_char_to_line(rope, ix);
    proof {
        let s = rope_text(*rope);
        lemma_breaks_before_mono(s, ix as int, s.len() as int);
        lemma_line_start_le(s, ix as int);
        lemma_line_start_bounds(s, line as nat);
        lemma_breaks_before_le(s, ix as int);
    }
    let start = rope_line_to_char(rope, line);
    Position { line, character: ix - start }
}

/// The range between two char indices of a rope.
pub fn char_range(rope: &Rope, start: usize, end: usize) -> (r: Range)
    requires
        start <= rope_text(*rope).len(),
        end <= rope_text(*rope).len(),
    ensures
        r == range_of(rope_text(*rope), start as int, end as int),
{
    Range { start: char_position(rope, start), end: char_position(rope, end) }
}

} // verus!
