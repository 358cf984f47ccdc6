//! The documents are `ropey::Rope`s. Their contents are named `rope_text`,
//! and each method the logic calls has a contract over that name, stated
//! with ropey's documented notion of lines.

use ropey::Rope;
use vstd::prelude::*;

verus! {

#[verifier::external_type_specification]
#[verifier::external_body]
pub struct ExRope(ropey::Rope);

/// The characters a rope holds.
pub uninterp spec fn rope_text(r: Rope) -> Seq<char>;

/// A character that is a line break on its own (with ropey's default
/// features): LF, VT, FF, NEL, LS, PS.
pub open spec fn is_break_char(c: char) -> bool {
    let u = c as u32;
    u == 0xA || u == 0xB || u == 0xC || u == 0x85 || u == 0x2028 || u == 0x2029
}

/// A line break ends at position `j`: a break character, or a CR that is
/// not the first half of a CRLF.
pub open spec fn ends_break(s: Seq<char>, j: int) -> bool {
    &&& 0 <= j < s.len()
    &&& (is_break_char(s[j]) || (s[j] == '\r' && !(j + 1 < s.len() && s[j + 1] == '\n')))
}

/// The number of line breaks that end before position `i`: the line of
/// the character at `i`.
pub open spec fn breaks_before(s: Seq<char>, i: int) -> nat
    decreases i,
{
    if i <= 0 {
        0
    } else {
        breaks_before(s, i - 1) + if ends_break(s, i - 1) {
            1nat
        } else {
            0nat
        }
    }
}

/// The number of lines of a text.
pub open spec fn line_count(s: Seq<char>) -> nat {
    breaks_before(s, s.len() as int) + 1
}

/// The first position at or after `i` where a line break ends (the length
/// when there is none).
pub open spec fn next_break(s: Seq<char>, i: int) -> int
    decreases s.len() - i,
{
    if i >= s.len() {
        s.len() as int
    } else if ends_break(s, i) {
        i
    } else {
        next_break(s, i + 1)
    }
}

/// The position where line `l` starts (the length for a line past the last).
pub open spec fn line_start(s: Seq<char>, l: nat) -> int
    decreases l,
{
    if l == 0 {
        0
    } else {
        let nb = next_break(s, line_start(s, (l - 1) as nat));
        if nb < s.len() {
            nb + 1
        } else {
            s.len() as int
        }
    }
}

/// The text of line `l`, its line break included.
pub open spec fn line_text(s: Seq<char>, l: nat) -> Seq<char> {
    s.subrange(line_start(s, l), line_start(s, l + 1))
}

pub proof fn lemma_breaks_before_mono(s: Seq<char>, i: int, j: int)
    requires
        i <= j,
    ensures
        breaks_before(s, i) <= breaks_before(s, j),
    decreases j - i,
{
    if i < j {
        lemma_breaks_before_mono(s, i, j - 1);
    }
}

pub proof fn lemma_next_break_bounds(s: Seq<char>, i: int)
    requires
        0 <= i,
    ensures
        i <= next_break(s, i) || i >= s.len(),
        next_break(s, i) <= s.len(),
        next_break(s, i) < s.len() ==> ends_break(s, next_break(s, i)),
        forall|k: int| i <= k < next_break(s, i) ==> !ends_break(s, k),
    decreases s.len() - i,
{
    if i < s.len() && !ends_break(s, i) {
        lemma_next_break_bounds(s, i + 1);
    }
}

pub proof fn lemma_line_start_bounds(s: Seq<char>, l: nat)
    ensures
        0 <= line_start(s, l) <= s.len(),
        line_start(s, l) <= line_start(s, l + 1),
    decreases l,
{
    if l > 0 {
        lemma_line_start_bounds(s, (l - 1) as nat);
    }
    lemma_next_break_bounds(s, line_start(s, l));
}

/// A line break ending before `i` that brings the count to its value at `i`.
proof fn lemma_last_break(s: Seq<char>, i: int)
    requires
        0 <= i <= s.len(),
        breaks_before(s, i) > 0,
    ensures
        exists|j: int|
            0 <= j < i && ends_break(s, j) && breaks_before(s, j) + 1 == breaks_before(s, i),
    decreases i,
{
    if ends_break(s, i - 1) {
        assert(breaks_before(s, i - 1) + 1 == breaks_before(s, i));
    } else {
        lemma_last_break(s, i - 1);
    }
}

/// The line of a position starts at or before it.
pub proof fn lemma_line_start_le(s: Seq<char>, i: int)
    requires
        0 <= i <= s.len(),
    ensures
        line_start(s, breaks_before(s, i)) <= i,
    decreases breaks_before(s, i),
{
    let l = breaks_before(s, i);
    if l > 0 {
        lemma_last_break(s, i);
        let j = choose|j: int|
            0 <= j < i && ends_break(s, j) && breaks_before(s, j) + 1 == breaks_before(s, i);
        lemma_line_start_le(s, j);
        let p = line_start(s, (l - 1) as nat);
        lemma_line_start_bounds(s, (l - 1) as nat);
        assert(p <= j);
        lemma_next_break_bounds(s, p);
        assert(next_break(s, p) <= j);
    }
}

/// Builds a rope from a text: `Rope::from_str`.
#[verifier::external_body]
pub(crate) fn rope_from_str(text: &str) -> (r: Rope)
    ensures
        rope_text(r) == text@,
{
    Rope::from_str(text)
}

/// The whole text of a rope: `Rope::to_string`.
#[verifier::external_body]
pub(crate) fn rope_to_string(r: &Rope) -> (s: String)
    ensures
        s@ == rope_text(*r),
{
    r.to_string()
}

/// `Rope::len_chars`.
#[verifier::external_body]
pub(crate) fn rope_len_chars(r: &Rope) -> (n: usize)
    ensures
        n == rope_text(*r).len(),
{
    r.len_chars()
}

/// `Rope::len_lines`: one more than the number of line breaks.
#[verifier::external_body]
pub(crate) fn rope_len_lines(r: &Rope) -> (n: usize)
    ensures
        n == line_count(rope_text(*r)),
{
    r.len_lines()
}

/// `Rope::char_to_line`: the number of line breaks before the char.
#[verifier::external_body]
pub(crate) fn rope_char_to_line(r: &Rope, char_idx: usize) -> (l: usize)
    requires
        char_idx <= rope_text(*r).len(),
    ensures
        l == breaks_before(rope_text(*r), char_idx as int),
{
    r.char_to_line(char_idx)
}

/// `Rope::line_to_char`: where the line starts.
#[verifier::external_body]
pub(crate) fn rope_line_to_char(r: &Rope, line_idx: usize) -> (c: usize)
    requires
        line_idx <= line_count(rope_text(*r)),
    ensures
        c == line_start(rope_text(*r), line_idx as nat),
{
    r.line_to_char(line_idx)
}

/// `Rope::line(..).to_string()`: the text of a line, its line break included.
#[verifier::external_body]
pub(crate) fn rope_line(r: &Rope, line_idx: usize) -> (s: String)
    requires
        line_idx < line_count(rope_text(*r)),
    ensures
        s@ == line_text(rope_text(*r), line_idx as nat),
{
    r.line(line_idx).to_string()
}

/// `Rope::slice(start..end).to_string()`.
#[verifier::external_body]
pub(crate) fn rope_slice(r: &Rope, start: usize, end: usize) -> (s: String)
    requires
        start <= end <= rope_text(*r).len(),
    ensures
        s@ == rope_text(*r).subrange(start as int, end as int),
{
    r.slice(start..end).to_string()
}

/// `Rope::remove(start..end)`.
#[verifier::external_body]
pub(crate) fn rope_remove(r: &mut Rope, start: usize, end: usize)
    requires
        start <= end <= rope_text(*old(r)).len(),
    ensures
        rope_text(*final(r)) == rope_text(*old(r)).subrange(0, start as int) + rope_text(
            *old(r),
        ).subrange(end as int, rope_text(*old(r)).len() as int),
{
    r.remove(start..end)
}

/// `Rope::insert(char_idx, text)`.
#[verifier::external_body]
pub(crate) fn rope_insert(r: &mut Rope, char_idx: usize, text: &str)
    requires
        char_idx <= rope_text(*old(r)).len(),
    ensures
        rope_text(*final(r)) == rope_text(*old(r)).subrange(0, char_idx as int) + text@
            + rope_text(*old(r)).subrange(char_idx as int, rope_text(*old(r)).len() as int),
{
    r.insert(char_idx, text)
}

/// `Rope::char`: the char at an index.
#[verifier::external_body]
pub(crate) fn rope_char(r: &Rope, char_idx: usize) -> (c: char)
    requires
        char_idx < rope_text(*r).len(),
    ensures
        c == rope_text(*r)[char_idx as int],
{
    r.char(char_idx)
}

} // verus!
