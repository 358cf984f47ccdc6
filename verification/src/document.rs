//! Edits to an open document, as the editor reports them, and the word
//! under the cursor.

use crate::position::Range;
use crate::rope::{
    line_count, line_start, rope_char, rope_from_str, rope_insert, rope_len_chars, rope_len_lines,
    rope_line_to_char, rope_remove, rope_slice, rope_text,
};
use crate::text::{is_whitespace, is_ws};
use ropey::Rope;
use vstd::prelude::*;

verus! {

/// One content change: a range to replace (or the whole document when
/// there is none) and the new text.
pub struct TextChange {
    pub range: Option<Range>,
    pub text: String,
}

/// The range lies within the lines of the text.
pub open spec fn range_lines_in_bounds(s: Seq<char>, r: Range) -> bool {
    r.start.line < line_count(s) && r.end.line < line_count(s)
}

/// The char index a position stands for: the start of its line plus its
/// character offset.
pub open spec fn char_index(s: Seq<char>, line: usize, character: usize) -> int {
    line_start(s, line as nat) + character
}

/// The change can be applied: a full replacement, a range outside the
/// lines (which replaces the whole text too), or a range whose ends are in
/// order within the text.
pub open spec fn change_applies(s: Seq<char>, c: Option<Range>) -> bool {
    match c {
        None => true,
        Some(r) => !range_lines_in_bounds(s, r) || {
            let start = char_index(s, r.start.line, r.start.character);
            let end = char_index(s, r.end.line, r.end.character);
            start <= end <= s.len() && end <= usize::MAX
        },
    }
}

/// The text after a change.
pub open spec fn apply_change(s: Seq<char>, c: Option<Range>, text: Seq<char>) -> Seq<char> {
    match c {
        None => text,
        Some(r) => if !range_lines_in_bounds(s, r) {
            text
        } else {
            let start = char_index(s, r.start.line, r.start.character);
            let end = char_index(s, r.end.line, r.end.character);
            s.subrange(0, start) + text + s.subrange(end, s.len() as int)
        },
    }
}

/// Whether a change can be applied to a document.
pub fn change_fits(rope: &Rope, change: &TextChange) -> (r: bool)
    ensures
        r == change_applies(rope_text(*rope), change.range),
{
    match change.range {
        None => true,
        Some(range) => {
            let n_lines = rope_len_lines(rope);
            if range.start.line >= n_lines || range.end.line >= n_lines {
                return true;
            }
            let a = rope_line_to_char(rope, range.start.line);
            let b = rope_line_to_char(rope, range.end.line);
            let len = rope_len_chars(rope);
            match (a.checked_add(range.start.character), b.checked_add(range.end.character)) {
                (Some(start), Some(end)) => start <= end && end <= len,
                _ => false,
            }
        },
    }
}

/// Applies one content change to a document: replaces the range with the
/// new text, or the whole document when there is no range or the range's
/// lines lie outside the document.
pub fn apply_content_change(rope: &mut Rope, change: &TextChange)
    requires
        change_applies(rope_text(*old(rope)), change.range),
    ensures
        rope_text(*final(rope)) == apply_change(rope_text(*old(rope)), change.range, change.text@),
{
    match change.range {
        Some(range) => {
            let start_line = range.start.line;
            let end_line = range.end.line;
            let n_lines = rope_len_lines(rope);
            if start_line >= n_lines || end_line >= n_lines {
                *rope = rope_from_str(change.text.as_str());
                return;
            }
            let start = rope_line_to_char(rope, start_line) + range.start.character;
            let end = rope_line_to_char(rope, end_line) + range.end.character;
            rope_remove(rope, start, end);
            rope_insert(rope, start, change.text.as_str());
        },
        None => {
            *rope = rope_from_str(change.text.as_str());
        },
    }
}

/// A change as a plain value: its range and its text.
pub open spec fn change_view(c: TextChange) -> (Option<Range>, Seq<char>) {
    (c.range, c.text@)
}

/// The text after a sequence of changes, applied in order; `None` when one
/// of them cannot be applied to the text it meets.
pub open spec fn apply_changes(s: Seq<char>, cs: Seq<(Option<Range>, Seq<char>)>) -> Option<
    Seq<char>,
>
    decreases cs.len(),
{
    if cs.len() == 0 {
        Some(s)
    } else {
        match apply_changes(s, cs.drop_last()) {
            None => None,
            Some(t) => if change_applies(t, cs.last().0) {
                Some(apply_change(t, cs.last().0, cs.last().1))
            } else {
                None
            },
        }
    }
}

/// Applies the editor's changes to a document in order. Returns false, and
/// stops, at the first change that cannot be applied.
pub fn apply_content_changes(rope: &mut Rope, changes: &Vec<TextChange>) -> (ok: bool)
    ensures
        ok == apply_changes(rope_text(*old(rope)), changes@.map_values(|c: TextChange| change_view(c))) is Some,
        ok ==> apply_changes(rope_text(*old(rope)), changes@.map_values(|c: TextChange| change_view(c)))
            == Some(rope_text(*final(rope))),
{
    let ghost s0 = rope_text(*rope);
    let ghost cs = changes@.map_values(|c: TextChange| change_view(c));
    let mut i: usize = 0;
    while i < changes.len()
        invariant
            i <= changes@.len(),
            cs == changes@.map_values(|c: TextChange| change_view(c)),
            s0 == rope_text(*old(rope)),
            apply_changes(s0, cs.take(i as int)) == Some(rope_text(*rope)),
        decreases changes.len() - i,
    {
        proof {
            assert(cs.take(i + 1).drop_last() == cs.take(i as int));
            assert(cs.take(i + 1).last() == change_view(changes@[i as int]));
        }
        if !change_fits(rope, &changes[i]) {
            proof {
                assert(apply_changes(s0, cs.take(i + 1)) is None);
                lemma_apply_changes_none(s0, cs, i + 1);
            }
            return false;
        }
        apply_content_change(rope, &changes[i]);
        i = i + 1;
    }
    proof {
        assert(cs.take(i as int) == cs);
    }
    true
}

/// Once a change cannot be applied, no longer sequence of changes can.
proof fn lemma_apply_changes_none(s: Seq<char>, cs: Seq<(Option<Range>, Seq<char>)>, n: int)
    requires
        0 <= n <= cs.len(),
        apply_changes(s, cs.take(n)) is None,
    ensures
        apply_changes(s, cs) is None,
    decreases cs.len() - n,
{
    if n < cs.len() {
        assert(cs.take(n + 1).drop_last() == cs.take(n));
        lemma_apply_changes_none(s, cs, n + 1);
    } else {
        assert(cs.take(n) == cs);
    }
}

/// The bounds of the word on or just before a char index: the run of
/// non-whitespace chars that reaches back from `ix` and forward from it.
pub open spec fn word_start(s: Seq<char>, ix: int) -> int
    decreases ix,
{
    if ix > 0 && !is_ws(s[ix - 1]) {
        word_start(s, ix - 1)
    } else {
        ix
    }
}

/// The end of the run of non-whitespace chars from `ix`.
pub open spec fn word_end(s: Seq<char>, ix: int) -> int
    decreases s.len() - ix,
{
    if 0 <= ix < s.len() && !is_ws(s[ix]) {
        word_end(s, ix + 1)
    } else {
        ix
    }
}

/// The word on or before a char index.
pub fn word_on_or_before(rope: &Rope, ix: usize) -> (r: String)
    requires
        ix <= rope_text(*rope).len(),
    ensures
        r@ == rope_text(*rope).subrange(
            word_start(rope_text(*rope), ix as int),
            word_end(rope_text(*rope), ix as int),
        ),
{
    let ghost s = rope_text(*rope);
    let len = rope_len_chars(rope);
    let mut start = ix;
    while start > 0 && !is_whitespace(rope_char(rope, start - 1))
        invariant
            start <= ix <= len == s.len(),
            s == rope_text(*rope),
            word_start(s, ix as int) == word_start(s, start as int),
        decreases start,
    {
        start = start - 1;
    }
    let mut end = ix;
    while end < len && !is_whitespace(rope_char(rope, end))
        invariant
            ix <= end <= len == s.len(),
            s == rope_text(*rope),
            word_end(s, ix as int) == word_end(s, end as int),
        decreases len - end,
    {
        end = end + 1;
    }
    rope_slice(rope, start, end)
}

/// The word under the cursor at a line and character: `None` when the
/// position lies outside the document's text.
pub fn word_at_position(rope: &Rope, line: usize, character: usize) -> (r: Option<String>)
    ensures
        r is Some <==> line < line_count(rope_text(*rope)) && char_index(
            rope_text(*rope),
            line,
            character,
        ) < rope_text(*rope).len(),
        r matches Some(w) ==> w@ == rope_text(*rope).subrange(
            word_start(rope_text(*rope), char_index(rope_text(*rope), line, character)),
            word_end(rope_text(*rope), char_index(rope_text(*rope), line, character)),
        ),
{
    if line >= rope_len_lines(rope) {
        return None;
    }
    let line_begin = rope_line_to_char(rope, line);
    let len = rope_len_chars(rope);
    if character >= len || line_begin >= len - character {
        return None;
    }
    let ix = line_begin + character;
    Some(word_on_or_before(rope, ix))
}

} // verus!
