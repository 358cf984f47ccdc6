//! Index of all word definitions and references across the workspace.
//!
//! Word names are keyed by their lower-case form, so that every lookup is
//! case-insensitive. A file can be indexed again at any time: its previous
//! definitions and references are dropped first.

use crate::lexer::{lex, lexed, tokens_view, Token, TokenKind, TokenView};
use crate::position::{char_range, range_of, Range};
use crate::rope::{
    breaks_before, line_count, line_text, lemma_breaks_before_mono, rope_char_to_line,
    rope_len_chars, rope_line, rope_slice, rope_text, rope_to_string,
};
use crate::table::{
    add_all, vals, without_file, FileEntry, Table,
};
use crate::text::{
    chars_of, eq_ignore_ascii_case, file_name, file_name_of, lowercase, str_eq,
    str_eq_ignore_ascii_case, string_of, sub_chars, to_lowercase, trim, trim_chars, trim_str,
};
use ropey::Rope;
use crate::uri::{path_str_to_uri, path_uri};
use vstd::prelude::*;

verus! {

/// Details of a word definition in the index.
#[derive(Clone, Debug)]
pub struct DefinitionDetails {
    pub file_path_or_uri: String,
    pub range: Range,
    pub stack_effect: Option<String>,
    pub doc_comment: Option<String>,
    pub constant_value: Option<String>,
    pub is_colon_definition: bool,
}

/// A definition as a plain value.
pub struct DefView {
    pub file: Seq<char>,
    pub range: Range,
    pub stack_effect: Option<Seq<char>>,
    pub doc_comment: Option<Seq<char>>,
    pub constant_value: Option<Seq<char>>,
    pub is_colon_definition: bool,
}

/// The view of an optional text.
pub open spec fn opt_view(o: Option<String>) -> Option<Seq<char>> {
    match o {
        Some(s) => Some(s@),
        None => None,
    }
}

/// Copies an optional text.
pub fn opt_clone(o: &Option<String>) -> (r: Option<String>)
    ensures
        opt_view(r) == opt_view(*o),
{
    match o {
        Some(s) => Some(s.clone()),
        None => None,
    }
}

impl View for DefinitionDetails {
    type V = DefView;

    open spec fn view(&self) -> DefView {
        DefView {
            file: self.file_path_or_uri@,
            range: self.range,
            stack_effect: opt_view(self.stack_effect),
            doc_comment: opt_view(self.doc_comment),
            constant_value: opt_view(self.constant_value),
            is_colon_definition: self.is_colon_definition,
        }
    }
}

impl FileEntry for DefinitionDetails {
    open spec fn file_of(v: DefView) -> Seq<char> {
        v.file
    }

    fn file(&self) -> (r: &String) {
        &self.file_path_or_uri
    }

    fn duplicate(&self) -> (r: Self) {
        DefinitionDetails {
            file_path_or_uri: self.file_path_or_uri.clone(),
            range: self.range,
            stack_effect: opt_clone(&self.stack_effect),
            doc_comment: opt_clone(&self.doc_comment),
            constant_value: opt_clone(&self.constant_value),
            is_colon_definition: self.is_colon_definition,
        }
    }
}

/// A use of a word: the file and the range of the token.
#[derive(Clone, Debug)]
pub struct Reference {
    pub file_path_or_uri: String,
    pub range: Range,
}

/// A reference as a plain value.
pub struct RefView {
    pub file: Seq<char>,
    pub range: Range,
}

impl View for Reference {
    type V = RefView;

    open spec fn view(&self) -> RefView {
        RefView { file: self.file_path_or_uri@, range: self.range }
    }
}

impl FileEntry for Reference {
    open spec fn file_of(v: RefView) -> Seq<char> {
        v.file
    }

    fn file(&self) -> (r: &String) {
        &self.file_path_or_uri
    }

    fn duplicate(&self) -> (r: Self) {
        Reference { file_path_or_uri: self.file_path_or_uri.clone(), range: self.range }
    }
}

/// A place in a file: the file's URI, and a range.
#[derive(Clone, Debug)]
pub struct Location {
    pub uri: String,
    pub range: Range,
}

/// A location as a plain value.
pub struct LocView {
    pub uri: Seq<char>,
    pub range: Range,
}

impl View for Location {
    type V = LocView;

    open spec fn view(&self) -> LocView {
        LocView { uri: self.uri@, range: self.range }
    }
}

// ---------------------------------------------------------------------
// Doc comments
// ---------------------------------------------------------------------
/// A trimmed line that is a doc comment line: it starts with `\`.
pub open spec fn is_doc_line(t: Seq<char>) -> bool {
    t.len() > 0 && t[0] == '\\'
}

/// The text of a doc comment line without its leading `\ ` (or `\`).
pub open spec fn doc_content(t: Seq<char>) -> Seq<char> {
    if t.len() >= 2 && t[1] == ' ' {
        t.skip(2)
    } else {
        t.skip(1)
    }
}

/// The contents of the doc comment lines directly above line `l`, top first.
pub open spec fn doc_lines(s: Seq<char>, l: nat) -> Seq<Seq<char>>
    decreases l,
{
    if l == 0 {
        Seq::empty()
    } else {
        let t = trim(line_text(s, (l - 1) as nat));
        if is_doc_line(t) {
            doc_lines(s, (l - 1) as nat).push(doc_content(t))
        } else {
            Seq::empty()
        }
    }
}

/// Lines joined by a separator.
pub open spec fn join(ls: Seq<Seq<char>>, sep: Seq<char>) -> Seq<char>
    decreases ls.len(),
{
    if ls.len() == 0 {
        Seq::empty()
    } else if ls.len() == 1 {
        ls[0]
    } else {
        join(ls.drop_last(), sep) + sep + ls.last()
    }
}

/// The doc comment of a definition on line `l`: the block of `\` comment
/// lines directly above it, joined by spaces.
pub open spec fn doc_comment(s: Seq<char>, l: nat) -> Option<Seq<char>> {
    let ls = doc_lines(s, l);
    if ls.len() == 0 {
        None
    } else {
        Some(join(ls, seq![' ']))
    }
}

/// Joins texts with a separator.
pub fn join_strings(ls: &Vec<String>, sep: &str) -> (r: String)
    ensures
        r@ == join(vals(ls@), sep@),
{
    let mut r = String::new();
    let mut i: usize = 0;
    while i < ls.len()
        invariant
            i <= ls@.len(),
            r@ == join(vals(ls@.take(i as int)), sep@),
        decreases ls.len() - i,
    {
        let ghost prev = vals(ls@.take(i as int));
        proof {
            assert(vals(ls@.take(i + 1)).drop_last() == prev);
            assert(vals(ls@.take(i + 1)).last() == ls@[i as int]@);
        }
        if i > 0 {
            r.append(sep);
        }
        r.append(ls[i].as_str());
        proof {
            if i == 0 {
                assert(vals(ls@.take(1))[0] == ls@[0]@);
                assert(r@ == ls@[0]@);
            }
        }
        i = i + 1;
    }
    proof {
        assert(ls@.take(ls@.len() as int) == ls@);
    }
    r
}

/// Extracts the doc-comment block directly preceding `def_line`: the lines
/// above it that start with `\`, without that prefix, joined by spaces.
pub fn extract_doc_comment_block(def_line: usize, rope: &Rope) -> (r: Option<String>)
    requires
        def_line <= line_count(rope_text(*rope)),
    ensures
        opt_view(r) == doc_comment(rope_text(*rope), def_line as nat),
{
    let ghost s = rope_text(*rope);
    let mut lines: Vec<String> = Vec::new();
    let mut idx = def_line;
    let mut done = false;
    while idx > 0 && !done
        invariant
            idx <= def_line <= line_count(s),
            s == rope_text(*rope),
            !done ==> doc_lines(s, def_line as nat) == doc_lines(s, idx as nat) + vals(lines@),
            done ==> doc_lines(s, def_line as nat) == vals(lines@),
        decreases idx, (if done { 0int } else { 1int }),
    {
        let line = rope_line(rope, idx - 1);
        let lv = chars_of(line.as_str());
        let t = trim_chars(lv.as_slice());
        if t.len() > 0 && t[0] == '\\' {
            let content = if t.len() >= 2 && t[1] == ' ' {
                sub_chars(t.as_slice(), 2, t.len())
            } else {
                sub_chars(t.as_slice(), 1, t.len())
            };
            let cs = string_of(content.as_slice());
            let ghost before = vals(lines@);
            lines.insert(0, cs);
            proof {
                assert(vals(lines@) =~= seq![cs@] + before);
                assert(doc_lines(s, idx as nat) == doc_lines(s, (idx - 1) as nat).push(cs@));
                assert(doc_lines(s, (idx - 1) as nat).push(cs@) + before =~= doc_lines(
                    s,
                    (idx - 1) as nat,
                ) + (seq![cs@] + before));
            }
            idx = idx - 1;
        } else {
            proof {
                assert(doc_lines(s, idx as nat) == Seq::<Seq<char>>::empty());
                assert(Seq::<Seq<char>>::empty() + vals(lines@) =~= vals(lines@));
            }
            done = true;
        }
    }
    proof {
        if !done {
            assert(doc_lines(s, 0) == Seq::<Seq<char>>::empty());
            assert(Seq::<Seq<char>>::empty() + vals(lines@) =~= vals(lines@));
        }
    }
    if lines.len() == 0 {
        None
    } else {
        proof {
            reveal_strlit(" ");
            assert(" "@ =~= seq![' ']);
        }
        Some(join_strings(&lines, " "))
    }
}

// ---------------------------------------------------------------------
// Token helpers
// ---------------------------------------------------------------------
/// The positions the first pass reads for a named colon block lie within
/// a text of `n` characters: the `:`, the name, and a stack comment right
/// after the name.
pub open spec fn colon_block_fits(ts: Seq<TokenView>, b: (int, int), n: nat) -> bool {
    &&& ts[b.0].start <= n
    &&& ts[b.0 + 1].start <= n
    &&& ts[b.0 + 1].end <= n
    &&& (b.1 >= b.0 + 2 && ts[b.0 + 2].kind == TokenKind::StackComment ==> ts[b.0 + 2].start <= n)
}

/// Every position the first pass reads lies within the text.
pub open spec fn colon_reads_fit(ts: Seq<TokenView>, n: nat) -> bool {
    forall|j: int|
        0 <= j < colon_blocks(ts).len() && colon_block_named(ts, #[trigger] colon_blocks(ts)[j])
            ==> colon_block_fits(ts, colon_blocks(ts)[j], n)
}

/// The positions the backward scan for a constant's value reads lie within
/// the text: each token it looks at, up to and including the one where it
/// stops.
pub open spec fn const_reads_fit(
    ts: Seq<TokenView>,
    s: Seq<char>,
    marks: Seq<usize>,
    i: int,
    def_line: nat,
    k: int,
    start: int,
) -> bool
    decreases k + 1,
{
    if k < 0 {
        true
    } else {
        let t = ts[k];
        let tl = tok_line(s, t);
        t.start <= s.len() && if marks.contains(t.start) || t.kind == TokenKind::Semicolon
            || t.kind == TokenKind::Colon {
            true
        } else if tl != def_line {
            true
        } else {
            const_reads_fit(ts, s, marks, i, def_line, k - 1, k)
        }
    }
}

/// The positions the second pass reads for the definition by the defining
/// word at `i` lie within the text: the defining word, the name, a stack
/// comment right after the name, and what the scan for a constant's value
/// looks at.
pub open spec fn def_step_fits(ts: Seq<TokenView>, s: Seq<char>, marks: Seq<usize>, i: int) -> bool {
    let nt = ts[i + 1];
    &&& ts[i].start <= s.len()
    &&& nt.start <= s.len()
    &&& nt.end <= s.len()
    &&& (i + 2 < ts.len() && ts[i + 2].kind == TokenKind::StackComment ==> ts[i + 2].start
        <= s.len())
    &&& (is_constant_word(ts[i].value) ==> const_reads_fit(
        ts,
        s,
        marks.push(nt.start),
        i,
        tok_line(s, ts[i]),
        i - 1,
        i,
    ))
}

/// Every position the second pass reads lies within the text.
pub open spec fn def_reads_fit(ts: Seq<TokenView>, s: Seq<char>, p: Seq<char>) -> bool {
    forall|i: int|
        0 <= i < def_steps(ts) && #[trigger] defines_at(ts, i) ==> def_step_fits(
            ts,
            s,
            def_pass(ts, s, p, i).0,
            i,
        )
}

/// A token the third pass records: a word that names no definition, or
/// such a number that is the name of a definition.
pub open spec fn is_recorded(t: TokenView, marks: Seq<usize>, dm: Map<Seq<char>, Seq<DefView>>) -> bool {
    !marks.contains(t.start) && (t.kind == TokenKind::Word || (t.kind == TokenKind::Number
        && dm.contains_key(lowercase(t.value))))
}

/// Every position the third pass reads lies within a text of `n` characters.
pub open spec fn ref_reads_fit(
    ts: Seq<TokenView>,
    marks: Seq<usize>,
    dm: Map<Seq<char>, Seq<DefView>>,
    n: nat,
) -> bool {
    forall|j: int|
        0 <= j < ts.len() && is_recorded(#[trigger] ts[j], marks, dm) ==> ts[j].start <= n
            && ts[j].end <= n
}

/// Every position that indexing the tokens of text `s` as file `p` reads
/// lies within the text, given the definitions `dm` of the other files.
/// (The lexer gives byte offsets; in a text that is not ASCII they can
/// run past its characters.)
pub open spec fn reads_fit(
    ts: Seq<TokenView>,
    s: Seq<char>,
    p: Seq<char>,
    dm: Map<Seq<char>, Seq<DefView>>,
) -> bool {
    &&& colon_reads_fit(ts, s.len())
    &&& def_reads_fit(ts, s, p)
    &&& ref_reads_fit(ts, all_marks(ts, s, p), add_all(dm, def_entries(ts, s, p)), s.len())
}

/// The line of the character where a token starts.
pub open spec fn tok_line(s: Seq<char>, t: TokenView) -> nat {
    breaks_before(s, t.start as int)
}

pub open spec fn is_word_or_number(t: TokenView) -> bool {
    t.kind == TokenKind::Word || t.kind == TokenKind::Number
}

impl Token {
    /// The kind of the token.
    pub fn kind(&self) -> (k: TokenKind)
        ensures
            k == self@.kind,
    {
        match self {
            Token::Illegal(_) => TokenKind::Illegal,
            Token::Eof(_) => TokenKind::Eof,
            Token::Colon(_) => TokenKind::Colon,
            Token::Semicolon(_) => TokenKind::Semicolon,
            Token::Word(_) => TokenKind::Word,
            Token::Number(_) => TokenKind::Number,
            Token::Comment(_) => TokenKind::Comment,
            Token::StackComment(_) => TokenKind::StackComment,
        }
    }
}

/// Whether a list of numbers holds a value.
pub fn contains_index(v: &Vec<usize>, x: usize) -> (r: bool)
    ensures
        r == v@.contains(x),
{
    let mut i: usize = 0;
    while i < v.len()
        invariant
            i <= v@.len(),
            forall|j: int| 0 <= j < i ==> v@[j] != x,
        decreases v.len() - i,
    {
        if v[i] == x {
            return true;
        }
        i = i + 1;
    }
    false
}

/// The stack effect that immediately follows a word: the token at `j`, if
/// it is a stack comment on the word's line or the next one, trimmed.
pub open spec fn stack_effect_at(ts: Seq<TokenView>, s: Seq<char>, j: int, word_line: nat) -> Option<
    Seq<char>,
> {
    if 0 <= j < ts.len() && ts[j].kind == TokenKind::StackComment && (tok_line(s, ts[j])
        == word_line || tok_line(s, ts[j]) == word_line + 1) {
        Some(trim(ts[j].value))
    } else {
        None
    }
}

fn stack_effect_after(tokens: &[Token], j: usize, word_line: usize, rope: &Rope) -> (r: Option<
    String,
>)
    requires
        j < tokens@.len() && tokens_view(tokens@)[j as int].kind == TokenKind::StackComment
            ==> tokens_view(tokens@)[j as int].start <= rope_text(*rope).len(),
    ensures
        opt_view(r) == stack_effect_at(tokens_view(tokens@), rope_text(*rope), j as int, word_line as nat),
{
    if j < tokens.len() {
        let t = &tokens[j];
        proof {
            assert(tokens_view(tokens@)[j as int] == t@);
        }
        if let Token::StackComment(d) = t {
            let comment_line = rope_char_to_line(rope, d.start);
            if comment_line == word_line || (word_line < comment_line && comment_line - word_line
                == 1) {
                return Some(trim_str(d.value.as_str()));
            }
        }
    }
    None
}

// ---------------------------------------------------------------------
// Constant values
// ---------------------------------------------------------------------
/// The backward scan for the value of a constant defined by token `i`:
/// candidate `k`, current first token `start`.
pub open spec fn const_scan(
    ts: Seq<TokenView>,
    s: Seq<char>,
    marks: Seq<usize>,
    i: int,
    def_line: nat,
    k: int,
    start: int,
) -> int
    decreases k + 1,
{
    if k < 0 {
        start
    } else {
        let t = ts[k];
        let tl = tok_line(s, t);
        if marks.contains(t.start) || t.kind == TokenKind::Semicolon || t.kind == TokenKind::Colon {
            start
        } else if tl != def_line && start != i {
            start
        } else if tl != def_line {
            k
        } else {
            const_scan(ts, s, marks, i, def_line, k - 1, k)
        }
    }
}

/// The value expression preceding a constant or value definition at token
/// `i`: the unmarked tokens before it on its line (or, when there are none,
/// the single token just before it), as trimmed source text.
pub open spec fn constant_value(ts: Seq<TokenView>, s: Seq<char>, marks: Seq<usize>, i: int) -> Option<
    Seq<char>,
> {
    if i == 0 {
        None
    } else {
        let st = const_scan(ts, s, marks, i, tok_line(s, ts[i]), i - 1, i);
        if st < i {
            let first_start = ts[st].start as int;
            let last_end = ts[i - 1].end as int;
            if first_start < last_end && last_end <= s.len() {
                let t = trim(s.subrange(first_start, last_end));
                if t.len() > 0 {
                    Some(t)
                } else {
                    None
                }
            } else {
                None
            }
        } else {
            None
        }
    }
}

proof fn lemma_const_scan_range(
    ts: Seq<TokenView>,
    s: Seq<char>,
    marks: Seq<usize>,
    i: int,
    def_line: nat,
    k: int,
    start: int,
)
    requires
        -1 <= k < i,
        k < start <= i,
    ensures
        0 <= const_scan(ts, s, marks, i, def_line, k, start) <= i,
    decreases k + 1,
{
    if k >= 0 {
        lemma_const_scan_range(ts, s, marks, i, def_line, k - 1, k);
    }
}

/// Extracts the value expression preceding a constant or value definition.
pub fn extract_constant_value(i: usize, tokens: &[Token], rope: &Rope, marks: &Vec<usize>) -> (r:
    Option<String>)
    requires
        i < tokens@.len(),
        tokens_view(tokens@)[i as int].start <= rope_text(*rope).len(),
        const_reads_fit(
            tokens_view(tokens@),
            rope_text(*rope),
            marks@,
            i as int,
            tok_line(rope_text(*rope), tokens_view(tokens@)[i as int]),
            i - 1,
            i as int,
        ),
    ensures
        opt_view(r) == constant_value(tokens_view(tokens@), rope_text(*rope), marks@, i as int),
{
    let ghost ts = tokens_view(tokens@);
    let ghost s = rope_text(*rope);
    if i == 0 {
        return None;
    }
    proof {
        assert(ts[i as int] == tokens@[i as int]@);
    }
    let def_line = rope_char_to_line(rope, tokens[i].get_data().start);
    let mut start_idx = i;
    let mut k = i;
    let mut done = false;
    while k > 0 && !done
        invariant
            0 < i < tokens@.len(),
            ts == tokens_view(tokens@),
            s == rope_text(*rope),
            !done ==> const_reads_fit(ts, s, marks@, i as int, def_line as nat, k - 1, start_idx as int),
            def_line == tok_line(s, ts[i as int]),
            start_idx <= i,
            k <= i,
            !done ==> k <= start_idx,
            !done ==> (start_idx == i || start_idx == k),
            done ==> const_scan(ts, s, marks@, i as int, def_line as nat, i - 1, i as int)
                == start_idx,
            !done ==> const_scan(ts, s, marks@, i as int, def_line as nat, i - 1, i as int)
                == const_scan(ts, s, marks@, i as int, def_line as nat, k - 1, start_idx as int),
        decreases k, (if done { 0int } else { 1int }),
    {
        let tok = &tokens[k - 1];
        proof {
            assert(ts[k - 1] == tok@);
        }
        let st = tok.get_data().start;
        let tl = rope_char_to_line(rope, st);
        let kd = tok.kind();
        if contains_index(marks, st) || kd == TokenKind::Semicolon || kd == TokenKind::Colon {
            done = true;
        } else if tl != def_line && start_idx != i {
            done = true;
        } else {
            start_idx = k - 1;
            if tl != def_line {
                done = true;
            } else {
                k = k - 1;
            }
        }
    }
    proof {
        if !done {
            assert(k == 0);
        }
        lemma_const_scan_range(ts, s, marks@, i as int, def_line as nat, i - 1, i as int);
    }
    if start_idx < i {
        let first_start = tokens[start_idx].get_data().start;
        let last_end = tokens[i - 1].get_data().end;
        proof {
            assert(ts[start_idx as int] == tokens@[start_idx as int]@);
            assert(ts[i - 1] == tokens@[i - 1]@);
        }
        let len = rope_len_chars(rope);
        if first_start < last_end && last_end <= len {
            let slice = rope_slice(rope, first_start, last_end);
            let trimmed = trim_str(slice.as_str());
            if trimmed.as_str().unicode_len() > 0 {
                return Some(trimmed);
            }
        }
    }
    None
}

// ---------------------------------------------------------------------
// Colon definitions
// ---------------------------------------------------------------------
/// Scans the first `n` tokens for `:` ... `;` blocks; gives the blocks found
/// (first and last token index) and the start of a block still open.
pub open spec fn blocks_scan(ts: Seq<TokenView>, n: int) -> (Seq<(int, int)>, Option<int>)
    decreases n,
{
    if n <= 0 {
        (Seq::empty(), None)
    } else {
        let (bs, open) = blocks_scan(ts, n - 1);
        let t = ts[n - 1];
        if t.kind == TokenKind::Colon {
            (bs, Some(n - 1))
        } else if t.kind == TokenKind::Semicolon && open is Some {
            (bs.push((open->0, n - 1)), None)
        } else {
            (bs, open)
        }
    }
}

/// The colon definitions of a token sequence: each `:` up to the next `;`
/// (a later `:` restarts the block).
pub open spec fn colon_blocks(ts: Seq<TokenView>) -> Seq<(int, int)> {
    blocks_scan(ts, ts.len() as int).0
}

/// Index pairs as integers.
pub open spec fn blocks_view(r: Seq<(usize, usize)>) -> Seq<(int, int)> {
    r.map_values(|b: (usize, usize)| (b.0 as int, b.1 as int))
}

/// Finds the colon definitions: the index of each `:` and of the `;` that
/// closes it.
pub fn find_colon_definitions(tokens: &[Token]) -> (r: Vec<(usize, usize)>)
    ensures
        blocks_view(r@) == colon_blocks(tokens_view(tokens@)),
        forall|j: int| #![trigger r@[j]] 0 <= j < r@.len() ==> r@[j].0 < r@[j].1 && r@[j].1 < tokens@.len(),
{
    let ghost ts = tokens_view(tokens@);
    let mut r: Vec<(usize, usize)> = Vec::new();
    let mut open: Option<usize> = None;
    let mut n: usize = 0;
    while n < tokens.len()
        invariant
            n <= tokens@.len(),
            ts == tokens_view(tokens@),
            blocks_view(r@) == blocks_scan(ts, n as int).0,
            forall|j: int| 0 <= j < r@.len() ==> #[trigger] r@[j].0 < r@[j].1 < n,
            match open {
                Some(o) => blocks_scan(ts, n as int).1 == Some(o as int) && o < n,
                None => blocks_scan(ts, n as int).1 is None,
            },
        decreases tokens.len() - n,
    {
        let k = tokens[n].kind();
        proof {
            assert(ts[n as int] == tokens@[n as int]@);
        }
        if k == TokenKind::Colon {
            open = Some(n);
            proof {
                assert(blocks_scan(ts, n + 1).0 == blocks_scan(ts, n as int).0);
            }
        } else if k == TokenKind::Semicolon && open.is_some() {
            let o = open.unwrap();
            let ghost before = r@;
            r.push((o, n));
            open = None;
            proof {
                let nb = blocks_scan(ts, n + 1).0;
                assert(nb == blocks_scan(ts, n as int).0.push((o as int, n as int)));
                assert(blocks_view(r@) =~= blocks_view(before).push((o as int, n as int)));
                assert forall|j: int| 0 <= j < r@.len() implies #[trigger] r@[j].0 < r@[j].1 < n
                    + 1 by {
                    if j < before.len() {
                        assert(r@[j] == before[j]);
                    }
                }
            }
        }
        else {
            proof {
                assert(blocks_scan(ts, n + 1) == blocks_scan(ts, n as int));
            }
        }
        n = n + 1;
    }
    proof {
        assert(n == tokens@.len());
        assert forall|j: int| #![trigger r@[j]] 0 <= j < r@.len() implies r@[j].0 < r@[j].1
            && r@[j].1 < tokens@.len() by {
            assert(r@[j].0 < r@[j].1 < n);
        }
    }
    r
}

// ---------------------------------------------------------------------
// Indexing a file
// ---------------------------------------------------------------------
/// The definition a named colon block makes.
pub open spec fn colon_entry(ts: Seq<TokenView>, s: Seq<char>, p: Seq<char>, b: (int, int)) -> (
    Seq<char>,
    DefView,
) {
    let nt = ts[b.0 + 1];
    (
        lowercase(nt.value),
        DefView {
            file: p,
            range: range_of(s, nt.start as int, nt.end as int),
            stack_effect: if b.1 >= b.0 + 2 {
                stack_effect_at(ts, s, b.0 + 2, tok_line(s, nt))
            } else {
                None
            },
            doc_comment: doc_comment(s, tok_line(s, ts[b.0])),
            constant_value: None,
            is_colon_definition: true,
        },
    )
}

/// A colon block with at least two tokens whose second token names it.
pub open spec fn colon_block_named(ts: Seq<TokenView>, b: (int, int)) -> bool {
    b.1 >= b.0 + 1 && is_word_or_number(ts[b.0 + 1])
}

/// The first pass over the first `n` colon blocks: the start offsets of the
/// name tokens, and the definitions made.
pub open spec fn colon_pass(ts: Seq<TokenView>, s: Seq<char>, p: Seq<char>, n: int) -> (
    Seq<usize>,
    Seq<(Seq<char>, DefView)>,
)
    decreases n,
{
    if n <= 0 {
        (Seq::empty(), Seq::empty())
    } else {
        let (m, es) = colon_pass(ts, s, p, n - 1);
        let b = colon_blocks(ts)[n - 1];
        if colon_block_named(ts, b) {
            (m.push(ts[b.0 + 1].start), es.push(colon_entry(ts, s, p, b)))
        } else {
            (m, es)
        }
    }
}

/// The defining words: `VARIABLE`, `CONSTANT`, `CREATE`, ... (any case).
pub open spec fn is_defining_word(v: Seq<char>) -> bool {
    ||| eq_ignore_ascii_case("VARIABLE"@, v)
    ||| eq_ignore_ascii_case("CONSTANT"@, v)
    ||| eq_ignore_ascii_case("CREATE"@, v)
    ||| eq_ignore_ascii_case("VALUE"@, v)
    ||| eq_ignore_ascii_case("2VARIABLE"@, v)
    ||| eq_ignore_ascii_case("2CONSTANT"@, v)
    ||| eq_ignore_ascii_case("2VALUE"@, v)
    ||| eq_ignore_ascii_case("FVARIABLE"@, v)
    ||| eq_ignore_ascii_case("FCONSTANT"@, v)
    ||| eq_ignore_ascii_case("DEFER"@, v)
    ||| eq_ignore_ascii_case("BUFFER:"@, v)
    ||| eq_ignore_ascii_case("CODE"@, v)
}

/// The defining words whose definitions carry a value.
pub open spec fn is_constant_word(v: Seq<char>) -> bool {
    ||| eq_ignore_ascii_case("CONSTANT"@, v)
    ||| eq_ignore_ascii_case("2CONSTANT"@, v)
    ||| eq_ignore_ascii_case("FCONSTANT"@, v)
    ||| eq_ignore_ascii_case("VALUE"@, v)
    ||| eq_ignore_ascii_case("2VALUE"@, v)
}

fn defining_word(v: &str) -> (r: bool)
    ensures
        r == is_defining_word(v@),
{
    str_eq_ignore_ascii_case("VARIABLE", v) || str_eq_ignore_ascii_case("CONSTANT", v)
        || str_eq_ignore_ascii_case("CREATE", v) || str_eq_ignore_ascii_case("VALUE", v)
        || str_eq_ignore_ascii_case("2VARIABLE", v) || str_eq_ignore_ascii_case("2CONSTANT", v)
        || str_eq_ignore_ascii_case("2VALUE", v) || str_eq_ignore_ascii_case("FVARIABLE", v)
        || str_eq_ignore_ascii_case("FCONSTANT", v) || str_eq_ignore_ascii_case("DEFER", v)
        || str_eq_ignore_ascii_case("BUFFER:", v) || str_eq_ignore_ascii_case("CODE", v)
}

fn constant_word(v: &str) -> (r: bool)
    ensures
        r == is_constant_word(v@),
{
    str_eq_ignore_ascii_case("CONSTANT", v) || str_eq_ignore_ascii_case("2CONSTANT", v)
        || str_eq_ignore_ascii_case("FCONSTANT", v) || str_eq_ignore_ascii_case("VALUE", v)
        || str_eq_ignore_ascii_case("2VALUE", v)
}

/// Token `i` is a defining word followed by the word it defines.
pub open spec fn defines_at(ts: Seq<TokenView>, i: int) -> bool {
    &&& 0 <= i
    &&& i + 1 < ts.len()
    &&& ts[i].kind == TokenKind::Word
    &&& is_defining_word(ts[i].value)
    &&& ts[i + 1].kind == TokenKind::Word
}

/// The second pass over the first `n` tokens: the name offsets so far
/// (after those of the first pass) and the definitions made.
pub open spec fn def_pass(ts: Seq<TokenView>, s: Seq<char>, p: Seq<char>, n: int) -> (
    Seq<usize>,
    Seq<(Seq<char>, DefView)>,
)
    decreases n,
{
    if n <= 0 {
        (colon_pass(ts, s, p, colon_blocks(ts).len() as int).0, Seq::empty())
    } else {
        let (m, es) = def_pass(ts, s, p, n - 1);
        let i = n - 1;
        if defines_at(ts, i) {
            let nt = ts[i + 1];
            let m2 = m.push(nt.start);
            (
                m2,
                es.push(
                    (
                        lowercase(nt.value),
                        DefView {
                            file: p,
                            range: range_of(s, nt.start as int, nt.end as int),
                            stack_effect: stack_effect_at(ts, s, i + 2, tok_line(s, nt)),
                            doc_comment: doc_comment(s, tok_line(s, ts[i])),
                            constant_value: if is_constant_word(ts[i].value) {
                                constant_value(ts, s, m2, i)
                            } else {
                                None
                            },
                            is_colon_definition: false,
                        },
                    ),
                ),
            )
        } else {
            (m, es)
        }
    }
}

/// How many tokens the second pass looks at: all but the last.
pub open spec fn def_steps(ts: Seq<TokenView>) -> int {
    if ts.len() == 0 {
        0
    } else {
        ts.len() - 1
    }
}

/// The offsets of all tokens that name a definition.
pub open spec fn all_marks(ts: Seq<TokenView>, s: Seq<char>, p: Seq<char>) -> Seq<usize> {
    def_pass(ts, s, p, def_steps(ts)).0
}

/// The definitions a file makes, in the order they are added: colon
/// definitions first, then those of defining words.
pub open spec fn def_entries(ts: Seq<TokenView>, s: Seq<char>, p: Seq<char>) -> Seq<
    (Seq<char>, DefView),
> {
    colon_pass(ts, s, p, colon_blocks(ts).len() as int).1 + def_pass(ts, s, p, def_steps(ts)).1
}

/// The references among the first `n` tokens: each word that does not name
/// a definition, and each such number that is the name of a definition.
pub open spec fn ref_pass(
    ts: Seq<TokenView>,
    s: Seq<char>,
    p: Seq<char>,
    marks: Seq<usize>,
    dm: Map<Seq<char>, Seq<DefView>>,
    n: int,
) -> Seq<(Seq<char>, RefView)>
    decreases n,
{
    if n <= 0 {
        Seq::empty()
    } else {
        let es = ref_pass(ts, s, p, marks, dm, n - 1);
        let t = ts[n - 1];
        if !marks.contains(t.start) && (t.kind == TokenKind::Word || (t.kind == TokenKind::Number
            && dm.contains_key(lowercase(t.value)))) {
            es.push(
                (
                    lowercase(t.value),
                    RefView { file: p, range: range_of(s, t.start as int, t.end as int) },
                ),
            )
        } else {
            es
        }
    }
}

/// The references a file makes, given the definitions known after indexing it.
pub open spec fn ref_entries(
    ts: Seq<TokenView>,
    s: Seq<char>,
    p: Seq<char>,
    dm: Map<Seq<char>, Seq<DefView>>,
) -> Seq<(Seq<char>, RefView)> {
    ref_pass(ts, s, p, all_marks(ts, s, p), dm, ts.len() as int)
}

/// The views of key/entry pairs.
pub open spec fn pair_views<V: View>(es: Seq<(String, V)>) -> Seq<(Seq<char>, V::V)> {
    es.map_values(|e: (String, V)| (e.0@, e.1@))
}

/// The line of a token's start lies within the text.
proof fn lemma_tok_line_bound(s: Seq<char>, t: TokenView)
    requires
        t.start <= s.len(),
    ensures
        tok_line(s, t) < line_count(s),
{
    lemma_breaks_before_mono(s, t.start as int, s.len() as int);
}

/// The first pass: the definitions made by colon blocks. `None` when a
/// position it reads lies past the end of the text.
fn colon_definitions_pass(tokens: &[Token], rope: &Rope, file_path: &str) -> (r: Option<(
    Vec<usize>,
    Vec<(String, DefinitionDetails)>,
)>)
    ensures
        r is Some <==> colon_reads_fit(tokens_view(tokens@), rope_text(*rope).len()),
        r matches Some(v) ==> (v.0@, pair_views(v.1@)) == colon_pass(
            tokens_view(tokens@),
            rope_text(*rope),
            file_path@,
            colon_blocks(tokens_view(tokens@)).len() as int,
        ),
{
    let ghost ts = tokens_view(tokens@);
    let ghost s = rope_text(*rope);
    let blocks = find_colon_definitions(tokens);
    let len = rope_len_chars(rope);
    let mut marks: Vec<usize> = Vec::new();
    let mut entries: Vec<(String, DefinitionDetails)> = Vec::new();
    let mut b: usize = 0;
    while b < blocks.len()
        invariant
            b <= blocks@.len() == colon_blocks(ts).len(),
            ts == tokens_view(tokens@),
            s == rope_text(*rope),
            len == s.len(),
            blocks_view(blocks@) == colon_blocks(ts),
            forall|j: int| 0 <= j < blocks@.len() ==> #[trigger] blocks@[j].0 < blocks@[j].1 < tokens@.len(),
            forall|j: int|
                0 <= j < b && colon_block_named(ts, #[trigger] colon_blocks(ts)[j])
                    ==> colon_block_fits(ts, colon_blocks(ts)[j], s.len()),
            (marks@, pair_views(entries@)) == colon_pass(ts, s, file_path@, b as int),
        decreases blocks.len() - b,
    {
        let (bs, be) = blocks[b];
        proof {
            assert(blocks@[b as int].0 < blocks@[b as int].1 < tokens@.len());
            assert(blocks_view(blocks@)[b as int] == (bs as int, be as int));
            assert(ts[bs + 1] == tokens@[bs + 1]@);
            assert(ts[bs as int] == tokens@[bs as int]@);
            if be >= bs + 2 {
                assert(ts[bs + 2] == tokens@[bs + 2]@);
            }
        }
        if be >= bs + 1 {
            let nt = &tokens[bs + 1];
            let nk = nt.kind();
            if nk == TokenKind::Word || nk == TokenKind::Number {
                let d = nt.get_data();
                let colon_start = tokens[bs].get_data().start;
                let comment_fits = if be >= bs + 2 {
                    match &tokens[bs + 2] {
                        Token::StackComment(c) => c.start <= len,
                        _ => true,
                    }
                } else {
                    true
                };
                if colon_start > len || d.start > len || d.end > len || !comment_fits {
                    proof {
                        assert(colon_blocks(ts)[b as int] == (bs as int, be as int));
                        assert(!colon_block_fits(ts, colon_blocks(ts)[b as int], s.len()));
                    }
                    return None;
                }
                let ghost before_m = marks@;
                let ghost before_e = pair_views(entries@);
                marks.push(d.start);
                proof {
                    lemma_tok_line_bound(s, ts[bs as int]);
                    lemma_tok_line_bound(s, ts[bs + 1]);
                }
                let colon_line = rope_char_to_line(rope, colon_start);
                let doc_comment = extract_doc_comment_block(colon_line, rope);
                let word_line = rope_char_to_line(rope, d.start);
                let stack_effect = if be >= bs + 2 {
                    stack_effect_after(tokens, bs + 2, word_line, rope)
                } else {
                    None
                };
                let range = char_range(rope, d.start, d.end);
                let name = to_lowercase(d.value.as_str());
                entries.push(
                    (
                        name,
                        DefinitionDetails {
                            file_path_or_uri: String::from_str(file_path),
                            range,
                            stack_effect,
                            doc_comment,
                            constant_value: None,
                            is_colon_definition: true,
                        },
                    ),
                );
                proof {
                    assert(pair_views(entries@) =~= before_e.push(
                        colon_entry(ts, s, file_path@, colon_blocks(ts)[b as int]),
                    ));
                    assert(colon_block_fits(ts, colon_blocks(ts)[b as int], s.len()));
                }
            }
        }
        b = b + 1;
    }
    Some((marks, entries))
}

/// Whether every position the scan for the value of the constant defined
/// at token `i` reads lies within the text.
fn const_scan_fits(i: usize, tokens: &[Token], rope: &Rope, marks: &Vec<usize>) -> (r: bool)
    requires
        i < tokens@.len(),
        tokens_view(tokens@)[i as int].start <= rope_text(*rope).len(),
    ensures
        r == const_reads_fit(
            tokens_view(tokens@),
            rope_text(*rope),
            marks@,
            i as int,
            tok_line(rope_text(*rope), tokens_view(tokens@)[i as int]),
            i - 1,
            i as int,
        ),
{
    let ghost ts = tokens_view(tokens@);
    let ghost s = rope_text(*rope);
    proof {
        assert(ts[i as int] == tokens@[i as int]@);
    }
    let len = rope_len_chars(rope);
    let def_line = rope_char_to_line(rope, tokens[i].get_data().start);
    let mut k = i;
    while k > 0
        invariant
            i < tokens@.len(),
            k <= i,
            ts == tokens_view(tokens@),
            s == rope_text(*rope),
            len == s.len(),
            def_line == tok_line(s, ts[i as int]),
            const_reads_fit(ts, s, marks@, i as int, def_line as nat, i - 1, i as int)
                == const_reads_fit(ts, s, marks@, i as int, def_line as nat, k - 1, k as int),
        decreases k,
    {
        let tok = &tokens[k - 1];
        proof {
            assert(ts[k - 1] == tok@);
        }
        let st = tok.get_data().start;
        if st > len {
            return false;
        }
        let tl = rope_char_to_line(rope, st);
        let kd = tok.kind();
        if contains_index(marks, st) || kd == TokenKind::Semicolon || kd == TokenKind::Colon
            || tl != def_line {
            return true;
        }
        k = k - 1;
    }
    true
}

/// The second pass: the definitions made by defining words. False when a
/// position it reads lies past the end of the text.
fn defining_words_pass(
    tokens: &[Token],
    rope: &Rope,
    file_path: &str,
    marks: &mut Vec<usize>,
    entries: &mut Vec<(String, DefinitionDetails)>,
) -> (ok: bool)
    requires
        old(marks)@ == def_pass(tokens_view(tokens@), rope_text(*rope), file_path@, 0).0,
    ensures
        ok == def_reads_fit(tokens_view(tokens@), rope_text(*rope), file_path@),
        ok ==> final(marks)@ == all_marks(tokens_view(tokens@), rope_text(*rope), file_path@),
        ok ==> pair_views(final(entries)@) == pair_views(old(entries)@) + def_pass(
            tokens_view(tokens@),
            rope_text(*rope),
            file_path@,
            def_steps(tokens_view(tokens@)),
        ).1,
{
    let ghost ts = tokens_view(tokens@);
    let ghost s = rope_text(*rope);
    let ghost base = pair_views(entries@);
    let len = rope_len_chars(rope);
    let steps = tokens.len().saturating_sub(1);
    let mut i: usize = 0;
    proof {
        assert(base + def_pass(ts, s, file_path@, 0).1 =~= base);
    }
    while i < steps
        invariant
            i <= steps,
            steps == def_steps(ts),
            ts == tokens_view(tokens@),
            s == rope_text(*rope),
            len == s.len(),
            marks@ == def_pass(ts, s, file_path@, i as int).0,
            pair_views(entries@) == base + def_pass(ts, s, file_path@, i as int).1,
            forall|j: int|
                0 <= j < i && #[trigger] defines_at(ts, j) ==> def_step_fits(
                    ts,
                    s,
                    def_pass(ts, s, file_path@, j).0,
                    j,
                ),
        decreases steps - i,
    {
        proof {
            assert(ts[i as int] == tokens@[i as int]@);
            assert(ts[i + 1] == tokens@[i + 1]@);
            if i + 2 < tokens@.len() {
                assert(ts[i + 2] == tokens@[i + 2]@);
            }
        }
        if let Token::Word(dw) = &tokens[i] {
            if defining_word(dw.value.as_str()) {
                if let Token::Word(nd) = &tokens[i + 1] {
                    let ghost marks_before = marks@;
                    let comment_fits = if i + 2 < tokens.len() {
                        match &tokens[i + 2] {
                            Token::StackComment(c) => c.start <= len,
                            _ => true,
                        }
                    } else {
                        true
                    };
                    if dw.start > len || nd.start > len || nd.end > len || !comment_fits {
                        proof {
                            assert(defines_at(ts, i as int));
                            assert(!def_step_fits(ts, s, marks_before, i as int));
                        }
                        return false;
                    }
                    let is_constant = constant_word(dw.value.as_str());
                    marks.push(nd.start);
                    if is_constant && !const_scan_fits(i, tokens, rope, marks) {
                        proof {
                            assert(defines_at(ts, i as int));
                            assert(!def_step_fits(ts, s, marks_before, i as int));
                        }
                        return false;
                    }
                    let ghost before_e = pair_views(entries@);
                    proof {
                        lemma_tok_line_bound(s, ts[i as int]);
                        lemma_tok_line_bound(s, ts[i + 1]);
                    }
                    let range = char_range(rope, nd.start, nd.end);
                    let def_line = rope_char_to_line(rope, dw.start);
                    let doc_comment = extract_doc_comment_block(def_line, rope);
                    let constant_value = if is_constant {
                        extract_constant_value(i, tokens, rope, marks)
                    } else {
                        None
                    };
                    let word_line = rope_char_to_line(rope, nd.start);
                    let stack_effect = stack_effect_after(tokens, i + 2, word_line, rope);
                    let name = to_lowercase(nd.value.as_str());
                    entries.push(
                        (
                            name,
                            DefinitionDetails {
                                file_path_or_uri: String::from_str(file_path),
                                range,
                                stack_effect,
                                doc_comment,
                                constant_value,
                                is_colon_definition: false,
                            },
                        ),
                    );
                    proof {
                        let e = def_pass(ts, s, file_path@, i + 1).1.last();
                        assert(pair_views(entries@) =~= before_e.push(e));
                        assert(base + def_pass(ts, s, file_path@, i as int).1.push(e) =~= (base
                            + def_pass(ts, s, file_path@, i as int).1).push(e));
                        assert(def_step_fits(ts, s, marks_before, i as int));
                    }
                }
            }
        }
        i = i + 1;
    }
    true
}

/// Whether some entry has this key.
fn entries_have_key(entries: &Vec<(String, DefinitionDetails)>, key: &str) -> (r: bool)
    ensures
        r == exists|j: int| 0 <= j < entries@.len() && (#[trigger] entries@[j]).0@ == key@,
{
    let mut i: usize = 0;
    while i < entries.len()
        invariant
            i <= entries@.len(),
            forall|j: int| 0 <= j < i ==> (#[trigger] entries@[j]).0@ != key@,
        decreases entries.len() - i,
    {
        if crate::text::str_eq(entries[i].0.as_str(), key) {
            return true;
        }
        i = i + 1;
    }
    false
}

/// A key is in the map after appending pairs when it was before or one of
/// the pairs has it.
proof fn lemma_add_all_dom<W>(m: Map<Seq<char>, Seq<W>>, es: Seq<(Seq<char>, W)>, k: Seq<char>)
    ensures
        add_all(m, es).contains_key(k) <==> m.contains_key(k) || exists|j: int|
            0 <= j < es.len() && (#[trigger] es[j]).0 == k,
    decreases es.len(),
{
    if es.len() > 0 {
        lemma_add_all_dom(m, es.drop_last(), k);
        if exists|j: int| 0 <= j < es.drop_last().len() && (#[trigger] es.drop_last()[j]).0 == k {
            let j = choose|j: int| 0 <= j < es.drop_last().len() && (#[trigger] es.drop_last()[j]).0 == k;
            assert(es[j] == es.drop_last()[j]);
        }
        if exists|j: int| 0 <= j < es.len() && (#[trigger] es[j]).0 == k {
            let j = choose|j: int| 0 <= j < es.len() && (#[trigger] es[j]).0 == k;
            if j < es.len() - 1 {
                assert(es.drop_last()[j] == es[j]);
            }
        }
    }
}

/// The third pass: the references a file makes, given the definitions of
/// the other files and those the file makes. `None` when a position it
/// reads lies past the end of the text.
fn references_pass(
    tokens: &[Token],
    rope: &Rope,
    file_path: &str,
    marks: &Vec<usize>,
    defs: &Table<DefinitionDetails>,
    entries: &Vec<(String, DefinitionDetails)>,
) -> (r: Option<Vec<(String, Reference)>>)
    requires
        defs.wf(),
    ensures
        r is Some <==> ref_reads_fit(
            tokens_view(tokens@),
            marks@,
            add_all(defs.map(), pair_views(entries@)),
            rope_text(*rope).len(),
        ),
        r matches Some(v) ==> pair_views(v@) == ref_pass(
            tokens_view(tokens@),
            rope_text(*rope),
            file_path@,
            marks@,
            add_all(defs.map(), pair_views(entries@)),
            tokens@.len() as int,
        ),
{
    let ghost ts = tokens_view(tokens@);
    let ghost s = rope_text(*rope);
    let ghost dm = add_all(defs.map(), pair_views(entries@));
    let len = rope_len_chars(rope);
    let mut r: Vec<(String, Reference)> = Vec::new();
    let mut n: usize = 0;
    while n < tokens.len()
        invariant
            n <= tokens@.len(),
            ts == tokens_view(tokens@),
            s == rope_text(*rope),
            len == s.len(),
            defs.wf(),
            dm == add_all(defs.map(), pair_views(entries@)),
            pair_views(r@) == ref_pass(ts, s, file_path@, marks@, dm, n as int),
            forall|j: int|
                0 <= j < n && is_recorded(#[trigger] ts[j], marks@, dm) ==> ts[j].start <= s.len()
                    && ts[j].end <= s.len(),
        decreases tokens.len() - n,
    {
        let t = &tokens[n];
        proof {
            assert(ts[n as int] == t@);
        }
        let d = t.get_data();
        let k = t.kind();
        if k == TokenKind::Word || k == TokenKind::Number {
            if !contains_index(marks, d.start) {
                let name = to_lowercase(d.value.as_str());
                let known = defs.contains_key(name.as_str()) || entries_have_key(entries, name.as_str());
                proof {
                    lemma_add_all_dom(defs.map(), pair_views(entries@), name@);
                    if exists|j: int| 0 <= j < entries@.len() && (#[trigger] entries@[j]).0@ == name@ {
                        let j = choose|j: int| 0 <= j < entries@.len() && (#[trigger] entries@[j]).0@ == name@;
                        assert(pair_views(entries@)[j].0 == name@);
                    }
                    if exists|j: int| 0 <= j < pair_views(entries@).len() && (#[trigger] pair_views(entries@)[j]).0 == name@ {
                        let j = choose|j: int| 0 <= j < pair_views(entries@).len() && (#[trigger] pair_views(entries@)[j]).0 == name@;
                        assert(entries@[j].0@ == name@);
                    }
                    assert(known == dm.contains_key(name@));
                }
                if k == TokenKind::Word || known {
                    if d.start > len || d.end > len {
                        proof {
                            assert(is_recorded(ts[n as int], marks@, dm));
                        }
                        return None;
                    }
                    let ghost before = pair_views(r@);
                    let range = char_range(rope, d.start, d.end);
                    r.push(
                        (name, Reference { file_path_or_uri: String::from_str(file_path), range }),
                    );
                    proof {
                        assert(pair_views(r@) =~= before.push(
                            ref_pass(ts, s, file_path@, marks@, dm, n + 1).last(),
                        ));
                    }
                }
            }
        }
        n = n + 1;
    }
    Some(r)
}

/// Index of all word definitions and references across the workspace.
pub struct DefinitionIndex {
    definitions: Table<DefinitionDetails>,
    references: Table<Reference>,
}

impl DefinitionIndex {
    /// Each lower-case word name with the definitions made of it.
    pub closed spec fn defs(&self) -> Map<Seq<char>, Seq<DefView>> {
        self.definitions.map()
    }

    /// Each lower-case word name with the places where it is used.
    pub closed spec fn refs(&self) -> Map<Seq<char>, Seq<RefView>> {
        self.references.map()
    }

    /// The index is well formed.
    pub closed spec fn wf(&self) -> bool {
        self.definitions.wf() && self.references.wf()
    }

    pub fn new() -> (r: Self)
        ensures
            r.wf(),
            r.defs() == Map::<Seq<char>, Seq<DefView>>::empty(),
            r.refs() == Map::<Seq<char>, Seq<RefView>>::empty(),
    {
        DefinitionIndex { definitions: Table::new(), references: Table::new() }
    }

    /// Remove all definitions and references from a specific file.
    pub fn remove_file(&mut self, file_path: &str)
        requires
            old(self).wf(),
        ensures
            final(self).wf(),
            final(self).defs() == without_file::<DefinitionDetails>(old(self).defs(), file_path@),
            final(self).refs() == without_file::<Reference>(old(self).refs(), file_path@),
    {
        self.definitions.remove_file(file_path);
        self.references.remove_file(file_path);
    }

    /// Indexes the tokens of a file: drops the file's old definitions and
    /// references and adds the new ones. False, with only the old entries
    /// dropped, when a position the indexing reads lies past the end of the
    /// text.
    fn index_file(&mut self, file_path: &str, tokens: &[Token], rope: &Rope) -> (ok: bool)
        requires
            old(self).wf(),
        ensures
            final(self).wf(),
            ok == reads_fit(
                tokens_view(tokens@),
                rope_text(*rope),
                file_path@,
                without_file::<DefinitionDetails>(old(self).defs(), file_path@),
            ),
            ok ==> final(self).defs() == add_all(
                without_file::<DefinitionDetails>(old(self).defs(), file_path@),
                def_entries(tokens_view(tokens@), rope_text(*rope), file_path@),
            ),
            ok ==> final(self).refs() == add_all(
                without_file::<Reference>(old(self).refs(), file_path@),
                ref_entries(tokens_view(tokens@), rope_text(*rope), file_path@, final(self).defs()),
            ),
            !ok ==> final(self).defs() == without_file::<DefinitionDetails>(old(self).defs(), file_path@)
                && final(self).refs() == without_file::<Reference>(old(self).refs(), file_path@),
    {
        let ghost ts = tokens_view(tokens@);
        let ghost s = rope_text(*rope);
        self.remove_file(file_path);
        let ghost dm0 = self.definitions.map();
        assert(dm0 == without_file::<DefinitionDetails>(old(self).defs(), file_path@));
        assert(self.references.map() == without_file::<Reference>(old(self).refs(), file_path@));
        let colon = colon_definitions_pass(tokens, rope, file_path);
        match colon {
            None => false,
            Some((mut marks, mut entries)) => {
                if !defining_words_pass(tokens, rope, file_path, &mut marks, &mut entries) {
                    return false;
                }
                proof {
                    assert(pair_views(entries@) == def_entries(ts, s, file_path@));
                }
                let refs = references_pass(tokens, rope, file_path, &marks, &self.definitions, &entries);
                match refs {
                    None => false,
                    Some(refs) => {
                        self.definitions.push_all(&entries);
                        proof {
                            assert(entries@.map_values(
                                |e: (String, DefinitionDetails)| (e.0@, e.1@),
                            ) == pair_views(entries@));
                        }
                        self.references.push_all(&refs);
                        proof {
                            assert(refs@.map_values(|e: (String, Reference)| (e.0@, e.1@))
                                == pair_views(refs@));
                        }
                        true
                    },
                }
            },
        }
    }

    /// Update the index for a specific file using pre-parsed tokens: the
    /// file's old definitions and references are dropped and the new ones
    /// added.
    pub fn update_file_from_tokens(&mut self, file_path: &str, tokens: &[Token], rope: &Rope)
        requires
            old(self).wf(),
            reads_fit(
                tokens_view(tokens@),
                rope_text(*rope),
                file_path@,
                without_file::<DefinitionDetails>(old(self).defs(), file_path@),
            ),
        ensures
            final(self).wf(),
            final(self).defs() == add_all(
                without_file::<DefinitionDetails>(old(self).defs(), file_path@),
                def_entries(tokens_view(tokens@), rope_text(*rope), file_path@),
            ),
            final(self).refs() == add_all(
                without_file::<Reference>(old(self).refs(), file_path@),
                ref_entries(tokens_view(tokens@), rope_text(*rope), file_path@, final(self).defs()),
            ),
    {
        self.index_file(file_path, tokens, rope);
    }

    /// The definitions of a word (case-insensitive), in the order they were added.
    pub open spec fn defs_of(&self, word: Seq<char>) -> Seq<DefView> {
        let k = lowercase(word);
        if self.defs().contains_key(k) {
            self.defs()[k]
        } else {
            Seq::empty()
        }
    }

    /// The uses of a word (case-insensitive), in the order they were added.
    pub open spec fn refs_of(&self, word: Seq<char>) -> Seq<RefView> {
        let k = lowercase(word);
        if self.refs().contains_key(k) {
            self.refs()[k]
        } else {
            Seq::empty()
        }
    }

    /// Update the index for a specific file: lexes the rope's text and
    /// indexes its tokens. Returns false, with the file's old entries
    /// dropped and none added, when a position the indexing reads lies past
    /// the end of the text (the lexer's offsets are byte offsets, which in a
    /// text that is not ASCII can run past its characters).
    pub fn update_file(&mut self, file_path: &str, rope: &Rope) -> (r: bool)
        requires
            old(self).wf(),
        ensures
            final(self).wf(),
            r == reads_fit(
                lexed(rope_text(*rope)),
                rope_text(*rope),
                file_path@,
                without_file::<DefinitionDetails>(old(self).defs(), file_path@),
            ),
            r ==> final(self).defs() == add_all(
                without_file::<DefinitionDetails>(old(self).defs(), file_path@),
                def_entries(lexed(rope_text(*rope)), rope_text(*rope), file_path@),
            ),
            r ==> final(self).refs() == add_all(
                without_file::<Reference>(old(self).refs(), file_path@),
                ref_entries(
                    lexed(rope_text(*rope)),
                    rope_text(*rope),
                    file_path@,
                    final(self).defs(),
                ),
            ),
            !r ==> final(self).defs() == without_file::<DefinitionDetails>(old(self).defs(), file_path@)
                && final(self).refs() == without_file::<Reference>(old(self).refs(), file_path@),
    {
        let progn = rope_to_string(rope);
        let tokens = lex(progn.as_str());
        self.index_file(file_path, tokens.as_slice(), rope)
    }

    /// Find all definitions of a word (case-insensitive), one per file name
    /// and start position.
    pub fn find_definitions(&self, word: &str) -> (r: Vec<Location>)
        requires
            self.wf(),
        ensures
            locs_view(r@) == def_locations(dedup_defs(self.defs_of(word@))),
    {
        let key = to_lowercase(word);
        let ds = self.definitions.get(key.as_str());
        proof {
            assert(vals(ds@) =~= self.defs_of(word@));
        }
        let dd = dedup_details(ds);
        let mut r: Vec<Location> = Vec::new();
        let mut i: usize = 0;
        while i < dd.len()
            invariant
                i <= dd@.len(),
                locs_view(r@) == def_locations(vals(dd@).take(i as int)),
            decreases dd.len() - i,
        {
            let ghost before = locs_view(r@);
            proof {
                assert(vals(dd@).take(i + 1).drop_last() =~= vals(dd@).take(i as int));
                assert(vals(dd@).take(i + 1).last() == dd@[i as int]@);
            }
            if let Some(uri) = path_str_to_uri(dd[i].file_path_or_uri.as_str()) {
                r.push(Location { uri, range: dd[i].range });
                proof {
                    assert(locs_view(r@) =~= before.push(r@.last()@));
                }
            }
            i = i + 1;
        }
        proof {
            assert(vals(dd@).take(i as int) == vals(dd@));
        }
        r
    }

    /// Find definition details for a word (case-insensitive), one per file
    /// name and start position.
    pub fn find_definition_details(&self, word: &str) -> (r: Vec<DefinitionDetails>)
        requires
            self.wf(),
        ensures
            vals(r@) == dedup_defs(self.defs_of(word@)),
    {
        let key = to_lowercase(word);
        let ds = self.definitions.get(key.as_str());
        proof {
            assert(vals(ds@) =~= self.defs_of(word@));
        }
        dedup_details(ds)
    }

    /// Find the stack effect of the first definition of a word
    /// (case-insensitive): `None` when there is none, or when the first
    /// definition has no stack effect.
    pub fn find_stack_effect(&self, word: &str) -> (r: Option<String>)
        requires
            self.wf(),
        ensures
            opt_view(r) == first_stack_effect(dedup_defs(self.defs_of(word@))),
    {
        let key = to_lowercase(word);
        let ds = self.definitions.get(key.as_str());
        proof {
            assert(vals(ds@) =~= self.defs_of(word@));
            lemma_dedup_first(vals(ds@));
        }
        if ds.len() == 0 {
            None
        } else {
            proof {
                assert(vals(ds@)[0] == ds@[0]@);
            }
            opt_clone(&ds[0].stack_effect)
        }
    }

    /// Find all references (usages) of a word (case-insensitive).
    pub fn find_references(&self, word: &str) -> (r: Vec<Location>)
        requires
            self.wf(),
        ensures
            locs_view(r@) == ref_locations(self.refs_of(word@)),
    {
        let key = to_lowercase(word);
        let rs = self.references.get(key.as_str());
        proof {
            assert(vals(rs@) =~= self.refs_of(word@));
        }
        let mut r: Vec<Location> = Vec::new();
        let mut i: usize = 0;
        while i < rs.len()
            invariant
                i <= rs@.len(),
                locs_view(r@) == ref_locations(vals(rs@).take(i as int)),
            decreases rs.len() - i,
        {
            let ghost before = locs_view(r@);
            proof {
                assert(vals(rs@).take(i + 1).drop_last() =~= vals(rs@).take(i as int));
                assert(vals(rs@).take(i + 1).last() == rs@[i as int]@);
            }
            if let Some(uri) = path_str_to_uri(rs[i].file_path_or_uri.as_str()) {
                r.push(Location { uri, range: rs[i].range });
                proof {
                    assert(locs_view(r@) =~= before.push(r@.last()@));
                }
            }
            i = i + 1;
        }
        proof {
            assert(vals(rs@).take(i as int) == vals(rs@));
        }
        r
    }

    /// Find all references to a word, its definitions first when
    /// `include_declaration` is set (case-insensitive).
    pub fn find_all_references(&self, word: &str, include_declaration: bool) -> (r: Vec<Location>)
        requires
            self.wf(),
        ensures
            locs_view(r@) == (if include_declaration {
                def_locations(dedup_defs(self.defs_of(word@)))
            } else {
                Seq::empty()
            }) + ref_locations(self.refs_of(word@)),
    {
        let mut locations: Vec<Location> = Vec::new();
        if include_declaration {
            locations = self.find_definitions(word);
        }
        let mut refs = self.find_references(word);
        let ghost a = locs_view(locations@);
        let ghost b = locs_view(refs@);
        locations.append(&mut refs);
        proof {
            assert(locs_view(locations@) =~= a + b);
            if !include_declaration {
                assert(a =~= Seq::<LocView>::empty());
            }
        }
        locations
    }

    /// All word names in the index (lower-case), each once.
    pub fn all_words(&self) -> (r: Vec<String>)
        requires
            self.wf(),
        ensures
            forall|k: Seq<char>|
                self.defs().contains_key(k) <==> exists|i: int|
                    0 <= i < r@.len() && #[trigger] r@[i]@ == k,
            forall|i: int, j: int| 0 <= i < j < r@.len() ==> r@[i]@ != r@[j]@,
    {
        self.definitions.keys()
    }
}


/// The views of locations.
pub open spec fn locs_view(ls: Seq<Location>) -> Seq<LocView> {
    ls.map_values(|l: Location| l@)
}

/// The locations of definitions: each under its file's URI, those whose
/// file has none left out.
pub open spec fn def_locations(ds: Seq<DefView>) -> Seq<LocView>
    decreases ds.len(),
{
    if ds.len() == 0 {
        Seq::empty()
    } else {
        let prev = def_locations(ds.drop_last());
        match path_uri(ds.last().file) {
            Some(u) => prev.push(LocView { uri: u, range: ds.last().range }),
            None => prev,
        }
    }
}

/// The locations of references: each under its file's URI, those whose
/// file has none left out.
pub open spec fn ref_locations(rs: Seq<RefView>) -> Seq<LocView>
    decreases rs.len(),
{
    if rs.len() == 0 {
        Seq::empty()
    } else {
        let prev = ref_locations(rs.drop_last());
        match path_uri(rs.last().file) {
            Some(u) => prev.push(LocView { uri: u, range: rs.last().range }),
            None => prev,
        }
    }
}

/// What tells two definitions apart when duplicates are dropped: the file
/// name (the last path component) and the start position.
pub open spec fn def_key(d: DefView) -> (Seq<char>, usize, usize) {
    (file_name(d.file), d.range.start.line, d.range.start.character)
}

/// The definitions with each one whose key an earlier one has dropped.
pub open spec fn dedup_defs(ds: Seq<DefView>) -> Seq<DefView>
    decreases ds.len(),
{
    if ds.len() == 0 {
        ds
    } else {
        let prev = dedup_defs(ds.drop_last());
        if exists|j: int| 0 <= j < ds.len() - 1 && def_key(ds[j]) == def_key(ds.last()) {
            prev
        } else {
            prev.push(ds.last())
        }
    }
}

/// The stack effect of the first definition (`None` when there is none).
pub open spec fn first_stack_effect(ds: Seq<DefView>) -> Option<Seq<char>> {
    if ds.len() > 0 {
        ds[0].stack_effect
    } else {
        None
    }
}

/// Dropping duplicates keeps the first definition first.
pub proof fn lemma_dedup_first(ds: Seq<DefView>)
    ensures
        ds.len() > 0 <==> dedup_defs(ds).len() > 0,
        ds.len() > 0 ==> dedup_defs(ds)[0] == ds[0],
    decreases ds.len(),
{
    if ds.len() > 1 {
        lemma_dedup_first(ds.drop_last());
        assert(ds.drop_last()[0] == ds[0]);
    } else if ds.len() == 1 {
        assert(dedup_defs(ds.drop_last()) == Seq::<DefView>::empty());
    }
}

/// The definitions without those whose key an earlier one has.
pub fn dedup_details(ds: &[DefinitionDetails]) -> (r: Vec<DefinitionDetails>)
    ensures
        vals(r@) == dedup_defs(vals(ds@)),
{
    let ghost vds = vals(ds@);
    let mut seen: Vec<(String, usize, usize)> = Vec::new();
    let mut r: Vec<DefinitionDetails> = Vec::new();
    let mut j: usize = 0;
    while j < ds.len()
        invariant
            j <= ds@.len(),
            vds == vals(ds@),
            seen@.len() == j,
            forall|m: int|
                0 <= m < j ==> (#[trigger] seen@[m].0@, seen@[m].1, seen@[m].2) == def_key(vds[m]),
            vals(r@) == dedup_defs(vds.take(j as int)),
        decreases ds.len() - j,
    {
        let d = &ds[j];
        let name = file_name_of(d.file_path_or_uri.as_str());
        let line = d.range.start.line;
        let character = d.range.start.character;
        let mut found = false;
        let mut m: usize = 0;
        while m < seen.len()
            invariant
                m <= seen@.len(),
                found <==> exists|q: int|
                    0 <= q < m && (#[trigger] seen@[q].0@, seen@[q].1, seen@[q].2) == (
                        name@,
                        line,
                        character,
                    ),
            decreases seen.len() - m,
        {
            if str_eq(seen[m].0.as_str(), name.as_str()) && seen[m].1 == line && seen[m].2
                == character {
                found = true;
            }
            m = m + 1;
        }
        let ghost cur = vds.take(j + 1);
        proof {
            assert(cur.drop_last() == vds.take(j as int));
            assert(cur.last() == d@);
            assert(def_key(d@) == (name@, line, character));
            if found {
                let q = choose|q: int|
                    0 <= q < m && (#[trigger] seen@[q].0@, seen@[q].1, seen@[q].2) == (
                        name@,
                        line,
                        character,
                    );
                assert(def_key(cur[q]) == def_key(cur.last()));
            } else {
                assert forall|q: int| 0 <= q < cur.len() - 1 implies def_key(cur[q]) != def_key(
                    cur.last(),
                ) by {
                    assert(cur[q] == vds[q]);
                    assert((seen@[q].0@, seen@[q].1, seen@[q].2) == def_key(vds[q]));
                }
            }
        }
        if !found {
            let ghost before = vals(r@);
            r.push(d.duplicate());
            proof {
                assert(vals(r@) =~= before.push(d@));
            }
        }
        seen.push((name, line, character));
        j = j + 1;
    }
    proof {
        assert(vds.take(j as int) == vds);
    }
    r
}

impl Default for DefinitionIndex {
    fn default() -> (r: Self)
        ensures
            r.wf(),
            r.defs() == Map::<Seq<char>, Seq<DefView>>::empty(),
            r.refs() == Map::<Seq<char>, Seq<RefView>>::empty(),
    {
        Self::new()
    }
}

} // verus!
