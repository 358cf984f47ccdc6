//! Hover text for a word: the documentation of a user definition (its doc
//! comments, or its location and source), or else that of a built-in word.

use crate::definition_index::{
    dedup_defs, def_locations, join, join_strings, opt_view, DefView,
    DefinitionDetails, DefinitionIndex, LocView, Location,
};
use crate::position::Range;
use crate::rope::{line_count, line_text, rope_len_lines, rope_line, rope_text};
use crate::table::vals;
use crate::text::{
    chars_of, decimal, decimal_string, file_name, file_name_of, str_eq, str_eq_ignore_ascii_case,
    eq_ignore_ascii_case, strip_end, string_of, trim, trim_str,
};
use crate::uri::{path_str_to_uri, path_uri, uri_file_name, uri_file_name_of};
use ropey::Rope;
use vstd::prelude::*;

verus! {

/// A built-in word and its documentation.
pub struct Word {
    pub token: String,
    pub documentation: String,
}

/// The built-in words.
pub struct Words {
    pub words: Vec<Word>,
}

impl Word {
    /// The documentation shown for the word.
    pub fn documentation(&self) -> (r: String)
        ensures
            r@ == self.documentation@,
    {
        self.documentation.clone()
    }
}

impl Default for Word {
    fn default() -> (r: Self)
        ensures
            r.token@ == Seq::<char>::empty(),
            r.documentation@ == Seq::<char>::empty(),
    {
        Word { token: String::new(), documentation: String::new() }
    }
}

/// A built-in word with its documentation.
fn builtin_word(token: &str, documentation: &str) -> (w: Word)
    ensures
        w.token@ == token@,
        w.documentation@ == documentation@,
{
    Word { token: String::from_str(token), documentation: String::from_str(documentation) }
}

/// A word of the table as a pair of its name and documentation.
pub open spec fn word_view(w: Word) -> (Seq<char>, Seq<char>) {
    (w.token@, w.documentation@)
}

/// The built-in words, each as its name and documentation: the core words
/// of standard Forth with their stack effects and what they do.
pub open spec fn builtin_table() -> Seq<(Seq<char>, Seq<char>)> {
    seq![
        ("DUP"@, "**DUP** `( x -- x x )`\n\nDuplicate x."@),
        ("DROP"@, "**DROP** `( x -- )`\n\nRemove x from the stack."@),
        ("SWAP"@, "**SWAP** `( x1 x2 -- x2 x1 )`\n\nExchange the top two stack items."@),
        ("OVER"@, "**OVER** `( x1 x2 -- x1 x2 x1 )`\n\nPlace a copy of x1 on top of the stack."@),
        ("ROT"@, "**ROT** `( x1 x2 x3 -- x2 x3 x1 )`\n\nRotate the top three stack entries."@),
        ("NIP"@, "**NIP** `( x1 x2 -- x2 )`\n\nDrop the first item below the top of stack."@),
        ("TUCK"@, "**TUCK** `( x1 x2 -- x2 x1 x2 )`\n\nCopy the first (top) stack item below the second stack item."@),
        ("?DUP"@, "**?DUP** `( x -- 0 | x x )`\n\nDuplicate x if it is non-zero."@),
        ("PICK"@, "**PICK** `( xu ... x1 x0 u -- xu ... x1 x0 xu )`\n\nRemove u. Copy the xu to the top of the stack."@),
        ("DEPTH"@, "**DEPTH** `( -- +n )`\n\n+n is the number of single-cell values contained in the data stack before +n was placed on the stack."@),
        ("2DUP"@, "**2DUP** `( x1 x2 -- x1 x2 x1 x2 )`\n\nDuplicate cell pair x1 x2."@),
        ("2DROP"@, "**2DROP** `( x1 x2 -- )`\n\nDrop cell pair x1 x2 from the stack."@),
        ("2SWAP"@, "**2SWAP** `( x1 x2 x3 x4 -- x3 x4 x1 x2 )`\n\nExchange the top two cell pairs."@),
        ("2OVER"@, "**2OVER** `( x1 x2 x3 x4 -- x1 x2 x3 x4 x1 x2 )`\n\nCopy cell pair x1 x2 to the top of the stack."@),
        ("+"@, "**+** `( n1 | u1 n2 | u2 -- n3 | u3 )`\n\nAdd n2 | u2 to n1 | u1, giving the sum n3 | u3."@),
        ("-"@, "**-** `( n1 | u1 n2 | u2 -- n3 | u3 )`\n\nSubtract n2 | u2 from n1 | u1, giving the difference n3 | u3."@),
        ("*"@, "***** `( n1 | u1 n2 | u2 -- n3 | u3 )`\n\nMultiply n1 | u1 by n2 | u2 giving the product n3 | u3."@),
        ("/"@, "**/** `( n1 n2 -- n3 )`\n\nDivide n1 by n2, giving the single-cell quotient n3."@),
        ("MOD"@, "**MOD** `( n1 n2 -- n3 )`\n\nDivide n1 by n2, giving the single-cell remainder n3."@),
        ("/MOD"@, "**/MOD** `( n1 n2 -- n3 n4 )`\n\nDivide n1 by n2, giving the single-cell remainder n3 and the single-cell quotient n4."@),
        ("*/"@, "***/** `( n1 n2 n3 -- n4 )`\n\nMultiply n1 by n2 producing the intermediate double-cell result d. Divide d by n3 giving the single-cell quotient n4."@),
        ("NEGATE"@, "**NEGATE** `( n1 -- n2 )`\n\nNegate n1, giving its arithmetic inverse n2."@),
        ("ABS"@, "**ABS** `( n -- u )`\n\nu is the absolute value of n."@),
        ("MIN"@, "**MIN** `( n1 n2 -- n3 )`\n\nn3 is the lesser of n1 and n2."@),
        ("MAX"@, "**MAX** `( n1 n2 -- n3 )`\n\nn3 is the greater of n1 and n2."@),
        ("1+"@, "**1+** `( n1 | u1 -- n2 | u2 )`\n\nAdd one (1) to n1 | u1 giving the sum n2 | u2."@),
        ("1-"@, "**1-** `( n1 | u1 -- n2 | u2 )`\n\nSubtract one (1) from n1 | u1 giving the difference n2 | u2."@),
        ("2*"@, "**2*** `( x1 -- x2 )`\n\nx2 is the result of shifting x1 one bit toward the most-significant bit."@),
        ("2/"@, "**2/** `( x1 -- x2 )`\n\nx2 is the result of shifting x1 one bit toward the least-significant bit, leaving the most-significant bit unchanged."@),
        ("="@, "**=** `( x1 x2 -- flag )`\n\nflag is true if and only if x1 is bit-for-bit the same as x2."@),
        ("<>"@, "**<>** `( x1 x2 -- flag )`\n\nflag is true if and only if x1 is not bit-for-bit the same as x2."@),
        ("<"@, "**<** `( n1 n2 -- flag )`\n\nflag is true if and only if n1 is less than n2."@),
        (">"@, "**>** `( n1 n2 -- flag )`\n\nflag is true if and only if n1 is greater than n2."@),
        ("0="@, "**0=** `( x -- flag )`\n\nflag is true if and only if x is equal to zero."@),
        ("0<"@, "**0<** `( n -- flag )`\n\nflag is true if and only if n is less than zero."@),
        ("AND"@, "**AND** `( x1 x2 -- x3 )`\n\nx3 is the bit-by-bit logical and of x1 with x2."@),
        ("OR"@, "**OR** `( x1 x2 -- x3 )`\n\nx3 is the bit-by-bit inclusive-or of x1 with x2."@),
        ("XOR"@, "**XOR** `( x1 x2 -- x3 )`\n\nx3 is the bit-by-bit exclusive-or of x1 with x2."@),
        ("INVERT"@, "**INVERT** `( x1 -- x2 )`\n\nInvert all bits of x1, giving its logical inverse x2."@),
        ("@"@, "**@** `( a-addr -- x )`\n\nx is the value stored at a-addr."@),
        ("!"@, "**!** `( x a-addr -- )`\n\nStore x at a-addr."@),
        ("+!"@, "**+!** `( n | u a-addr -- )`\n\nAdd n | u to the single-cell number at a-addr."@),
        ("C@"@, "**C@** `( c-addr -- char )`\n\nFetch the character stored at c-addr."@),
        ("C!"@, "**C!** `( char c-addr -- )`\n\nStore char at c-addr."@),
        ("."@, "**.** `( n -- )`\n\nDisplay n in free field format."@),
        ("EMIT"@, "**EMIT** `( x -- )`\n\nIf x is a graphic character in the implementation-defined character set, display x."@),
        ("CR"@, "**CR** `( -- )`\n\nCause subsequent output to appear at the beginning of the next line."@),
        ("SPACE"@, "**SPACE** `( -- )`\n\nDisplay one space."@),
        ("TYPE"@, "**TYPE** `( c-addr u -- )`\n\nIf u is greater than zero, display the character string specified by c-addr and u."@),
        (">R"@, "**>R** `( x -- ) ( R: -- x )`\n\nMove x to the return stack."@),
        ("R>"@, "**R>** `( -- x ) ( R: x -- )`\n\nMove x from the return stack to the data stack."@),
        ("R@"@, "**R@** `( -- x ) ( R: x -- x )`\n\nCopy x from the return stack to the data stack."@),
        ("HERE"@, "**HERE** `( -- addr )`\n\naddr is the data-space pointer."@),
        ("ALLOT"@, "**ALLOT** `( n -- )`\n\nIf n is greater than zero, reserve n address units of data space."@),
        (","@, "**,** `( x -- )`\n\nReserve one cell of data space and store x in the cell."@),
        ("CELLS"@, "**CELLS** `( n1 -- n2 )`\n\nn2 is the size in address units of n1 cells."@),
    ]
}

impl Default for Words {
    /// The built-in words: the core words of standard Forth, each with its
    /// stack effect and what it does.
    fn default() -> (r: Self)
        ensures
            r.words@.map_values(|w: Word| word_view(w)) == builtin_table(),
            builtin_doc(r.words@, "DUP"@) == Some("**DUP** `( x -- x x )`\n\nDuplicate x."@),
    {
        let words = vec![
            builtin_word("DUP", "**DUP** `( x -- x x )`\n\nDuplicate x."),
            builtin_word("DROP", "**DROP** `( x -- )`\n\nRemove x from the stack."),
            builtin_word("SWAP", "**SWAP** `( x1 x2 -- x2 x1 )`\n\nExchange the top two stack items."),
            builtin_word("OVER", "**OVER** `( x1 x2 -- x1 x2 x1 )`\n\nPlace a copy of x1 on top of the stack."),
            builtin_word("ROT", "**ROT** `( x1 x2 x3 -- x2 x3 x1 )`\n\nRotate the top three stack entries."),
            builtin_word("NIP", "**NIP** `( x1 x2 -- x2 )`\n\nDrop the first item below the top of stack."),
            builtin_word("TUCK", "**TUCK** `( x1 x2 -- x2 x1 x2 )`\n\nCopy the first (top) stack item below the second stack item."),
            builtin_word("?DUP", "**?DUP** `( x -- 0 | x x )`\n\nDuplicate x if it is non-zero."),
            builtin_word("PICK", "**PICK** `( xu ... x1 x0 u -- xu ... x1 x0 xu )`\n\nRemove u. Copy the xu to the top of the stack."),
            builtin_word("DEPTH", "**DEPTH** `( -- +n )`\n\n+n is the number of single-cell values contained in the data stack before +n was placed on the stack."),
            builtin_word("2DUP", "**2DUP** `( x1 x2 -- x1 x2 x1 x2 )`\n\nDuplicate cell pair x1 x2."),
            builtin_word("2DROP", "**2DROP** `( x1 x2 -- )`\n\nDrop cell pair x1 x2 from the stack."),
            builtin_word("2SWAP", "**2SWAP** `( x1 x2 x3 x4 -- x3 x4 x1 x2 )`\n\nExchange the top two cell pairs."),
            builtin_word("2OVER", "**2OVER** `( x1 x2 x3 x4 -- x1 x2 x3 x4 x1 x2 )`\n\nCopy cell pair x1 x2 to the top of the stack."),
            builtin_word("+", "**+** `( n1 | u1 n2 | u2 -- n3 | u3 )`\n\nAdd n2 | u2 to n1 | u1, giving the sum n3 | u3."),
            builtin_word("-", "**-** `( n1 | u1 n2 | u2 -- n3 | u3 )`\n\nSubtract n2 | u2 from n1 | u1, giving the difference n3 | u3."),
            builtin_word("*", "***** `( n1 | u1 n2 | u2 -- n3 | u3 )`\n\nMultiply n1 | u1 by n2 | u2 giving the product n3 | u3."),
            builtin_word("/", "**/** `( n1 n2 -- n3 )`\n\nDivide n1 by n2, giving the single-cell quotient n3."),
            builtin_word("MOD", "**MOD** `( n1 n2 -- n3 )`\n\nDivide n1 by n2, giving the single-cell remainder n3."),
            builtin_word("/MOD", "**/MOD** `( n1 n2 -- n3 n4 )`\n\nDivide n1 by n2, giving the single-cell remainder n3 and the single-cell quotient n4."),
            builtin_word("*/", "***/** `( n1 n2 n3 -- n4 )`\n\nMultiply n1 by n2 producing the intermediate double-cell result d. Divide d by n3 giving the single-cell quotient n4."),
            builtin_word("NEGATE", "**NEGATE** `( n1 -- n2 )`\n\nNegate n1, giving its arithmetic inverse n2."),
            builtin_word("ABS", "**ABS** `( n -- u )`\n\nu is the absolute value of n."),
            builtin_word("MIN", "**MIN** `( n1 n2 -- n3 )`\n\nn3 is the lesser of n1 and n2."),
            builtin_word("MAX", "**MAX** `( n1 n2 -- n3 )`\n\nn3 is the greater of n1 and n2."),
            builtin_word("1+", "**1+** `( n1 | u1 -- n2 | u2 )`\n\nAdd one (1) to n1 | u1 giving the sum n2 | u2."),
            builtin_word("1-", "**1-** `( n1 | u1 -- n2 | u2 )`\n\nSubtract one (1) from n1 | u1 giving the difference n2 | u2."),
            builtin_word("2*", "**2*** `( x1 -- x2 )`\n\nx2 is the result of shifting x1 one bit toward the most-significant bit."),
            builtin_word("2/", "**2/** `( x1 -- x2 )`\n\nx2 is the result of shifting x1 one bit toward the least-significant bit, leaving the most-significant bit unchanged."),
            builtin_word("=", "**=** `( x1 x2 -- flag )`\n\nflag is true if and only if x1 is bit-for-bit the same as x2."),
            builtin_word("<>", "**<>** `( x1 x2 -- flag )`\n\nflag is true if and only if x1 is not bit-for-bit the same as x2."),
            builtin_word("<", "**<** `( n1 n2 -- flag )`\n\nflag is true if and only if n1 is less than n2."),
            builtin_word(">", "**>** `( n1 n2 -- flag )`\n\nflag is true if and only if n1 is greater than n2."),
            builtin_word("0=", "**0=** `( x -- flag )`\n\nflag is true if and only if x is equal to zero."),
            builtin_word("0<", "**0<** `( n -- flag )`\n\nflag is true if and only if n is less than zero."),
            builtin_word("AND", "**AND** `( x1 x2 -- x3 )`\n\nx3 is the bit-by-bit logical and of x1 with x2."),
            builtin_word("OR", "**OR** `( x1 x2 -- x3 )`\n\nx3 is the bit-by-bit inclusive-or of x1 with x2."),
            builtin_word("XOR", "**XOR** `( x1 x2 -- x3 )`\n\nx3 is the bit-by-bit exclusive-or of x1 with x2."),
            builtin_word("INVERT", "**INVERT** `( x1 -- x2 )`\n\nInvert all bits of x1, giving its logical inverse x2."),
            builtin_word("@", "**@** `( a-addr -- x )`\n\nx is the value stored at a-addr."),
            builtin_word("!", "**!** `( x a-addr -- )`\n\nStore x at a-addr."),
            builtin_word("+!", "**+!** `( n | u a-addr -- )`\n\nAdd n | u to the single-cell number at a-addr."),
            builtin_word("C@", "**C@** `( c-addr -- char )`\n\nFetch the character stored at c-addr."),
            builtin_word("C!", "**C!** `( char c-addr -- )`\n\nStore char at c-addr."),
            builtin_word(".", "**.** `( n -- )`\n\nDisplay n in free field format."),
            builtin_word("EMIT", "**EMIT** `( x -- )`\n\nIf x is a graphic character in the implementation-defined character set, display x."),
            builtin_word("CR", "**CR** `( -- )`\n\nCause subsequent output to appear at the beginning of the next line."),
            builtin_word("SPACE", "**SPACE** `( -- )`\n\nDisplay one space."),
            builtin_word("TYPE", "**TYPE** `( c-addr u -- )`\n\nIf u is greater than zero, display the character string specified by c-addr and u."),
            builtin_word(">R", "**>R** `( x -- ) ( R: -- x )`\n\nMove x to the return stack."),
            builtin_word("R>", "**R>** `( -- x ) ( R: x -- )`\n\nMove x from the return stack to the data stack."),
            builtin_word("R@", "**R@** `( -- x ) ( R: x -- x )`\n\nCopy x from the return stack to the data stack."),
            builtin_word("HERE", "**HERE** `( -- addr )`\n\naddr is the data-space pointer."),
            builtin_word("ALLOT", "**ALLOT** `( n -- )`\n\nIf n is greater than zero, reserve n address units of data space."),
            builtin_word(",", "**,** `( x -- )`\n\nReserve one cell of data space and store x in the cell."),
            builtin_word("CELLS", "**CELLS** `( n1 -- n2 )`\n\nn2 is the size in address units of n1 cells."),
        ];
        proof {
            assert(words@.map_values(|w: Word| word_view(w)) =~= builtin_table());
        }
        Words { words }
    }
}

/// The documentation of the first built-in word whose name matches (ASCII
/// case-insensitive), if any.
pub open spec fn builtin_doc(words: Seq<Word>, word: Seq<char>) -> Option<Seq<char>>
    decreases words.len(),
{
    if words.len() == 0 {
        None
    } else if eq_ignore_ascii_case(words[0].token@, word) {
        Some(words[0].documentation@)
    } else {
        builtin_doc(words.drop_first(), word)
    }
}

/// Looks up a built-in word (ASCII case-insensitive).
pub fn find_builtin_word<'a>(word: &str, data: &'a Words) -> (r: Option<&'a Word>)
    ensures
        match r {
            Some(w) => builtin_doc(data.words@, word@) == Some(w.documentation@),
            None => builtin_doc(data.words@, word@) is None,
        },
{
    let mut i: usize = 0;
    proof {
        assert(data.words@.skip(0) =~= data.words@);
    }
    while i < data.words.len()
        invariant
            i <= data.words@.len(),
            builtin_doc(data.words@, word@) == builtin_doc(data.words@.skip(i as int), word@),
        decreases data.words.len() - i,
    {
        proof {
            assert(data.words@.skip(i as int).drop_first() == data.words@.skip(i + 1));
            assert(data.words@.skip(i as int)[0] == data.words@[i as int]);
        }
        if str_eq_ignore_ascii_case(data.words[i].token.as_str(), word) {
            return Some(&data.words[i]);
        }
        i = i + 1;
    }
    None
}

// ---------------------------------------------------------------------
// The hover text
// ---------------------------------------------------------------------
/// The name shown for a word: `word = value` for a constant.
pub open spec fn display_name(word: Seq<char>, value: Option<Seq<char>>) -> Seq<char> {
    match value {
        Some(v) => word + " = "@ + v,
        None => word,
    }
}

/// The doc-comment section of a definition that has a doc comment: a
/// header with the name and where it is defined, the stack effect if any,
/// and the doc comment, one per line.
pub open spec fn doc_section(word: Seq<char>, d: DefView) -> Seq<char> {
    let header = display_name(word, d.constant_value) + ": defined at "@ + file_name(d.file)
        + ":"@ + decimal((d.range.start.line + 1) as nat);
    let lines = seq![header] + (match d.stack_effect {
        Some(se) => seq![se],
        None => Seq::empty(),
    }) + seq![d.doc_comment->0];
    join(lines, "\n"@)
}

/// The distinct doc-comment sections of the definitions, in order.
pub open spec fn doc_sections(word: Seq<char>, ds: Seq<DefView>) -> Seq<Seq<char>>
    decreases ds.len(),
{
    if ds.len() == 0 {
        Seq::empty()
    } else {
        let prev = doc_sections(word, ds.drop_last());
        let d = ds.last();
        if d.doc_comment is Some && !prev.contains(doc_section(word, d)) {
            prev.push(doc_section(word, d))
        } else {
            prev
        }
    }
}

/// The value of the first definition that is a constant.
pub open spec fn first_constant(ds: Seq<DefView>) -> Option<Seq<char>>
    decreases ds.len(),
{
    if ds.len() == 0 {
        None
    } else if ds[0].constant_value is Some {
        ds[0].constant_value
    } else {
        first_constant(ds.drop_first())
    }
}

/// Backslashes written as forward slashes.
pub open spec fn normalize_slashes(s: Seq<char>) -> Seq<char> {
    s.map_values(|c: char| if c == '\\' { '/' } else { c })
}

/// The open files as (key, text) pairs.
pub open spec fn files_view(fs: Seq<(String, Rope)>) -> Seq<(Seq<char>, Seq<char>)> {
    fs.map_values(|e: (String, Rope)| (e.0@, rope_text(e.1)))
}

/// A file key matches a location: equal, or (loosely) equal once
/// backslashes are read as slashes.
pub open spec fn key_matches(k: Seq<char>, uri: Seq<char>, loose: bool) -> bool {
    if loose {
        normalize_slashes(k) == normalize_slashes(uri)
    } else {
        k == uri
    }
}

/// The index of the first file whose key matches.
pub open spec fn first_file(fs: Seq<(Seq<char>, Seq<char>)>, uri: Seq<char>, loose: bool) -> Option<int>
    decreases fs.len(),
{
    if fs.len() == 0 {
        None
    } else if key_matches(fs[0].0, uri, loose) {
        Some(0)
    } else {
        match first_file(fs.drop_first(), uri, loose) {
            Some(i) => Some(i + 1),
            None => None,
        }
    }
}

/// The text of the file for a location: the file with that key, or else
/// the first whose key matches it with backslashes read as slashes.
pub open spec fn file_text_for(fs: Seq<(Seq<char>, Seq<char>)>, uri: Seq<char>) -> Option<Seq<char>> {
    match first_file(fs, uri, false) {
        Some(i) => Some(fs[i].1),
        None => match first_file(fs, uri, true) {
            Some(i) => Some(fs[i].1),
            None => None,
        },
    }
}

/// A detail's file is that of a location: its URI is the location's, or
/// the file text is the location's URI as it stands.
pub open spec fn file_at_uri(file: Seq<char>, uri: Seq<char>) -> bool {
    path_uri(file) == Some(uri) || file == uri
}

/// A detail is at a location: same range, and (when `by_file`) same file.
pub open spec fn detail_at(d: DefView, l: LocView, by_file: bool) -> bool {
    d.range == l.range && (!by_file || file_at_uri(d.file, l.uri))
}

/// The index of the first detail at a location.
pub open spec fn first_detail(ds: Seq<DefView>, l: LocView, by_file: bool) -> Option<int>
    decreases ds.len(),
{
    if ds.len() == 0 {
        None
    } else if detail_at(ds[0], l, by_file) {
        Some(0)
    } else {
        match first_detail(ds.drop_first(), l, by_file) {
            Some(i) => Some(i + 1),
            None => None,
        }
    }
}

/// Whether a location is that of a colon definition: the first detail with
/// its range and file decides, or else the first with its range.
pub open spec fn location_is_colon(ds: Seq<DefView>, l: LocView) -> bool {
    match first_detail(ds, l, true) {
        Some(i) => ds[i].is_colon_definition,
        None => match first_detail(ds, l, false) {
            Some(i) => ds[i].is_colon_definition,
            None => false,
        },
    }
}

/// Text that ends with `;`.
pub open spec fn ends_with_semicolon(t: Seq<char>) -> bool {
    t.len() > 0 && t.last() == ';'
}

/// The source lines shown for a colon definition, from line `idx` up to
/// `upper` (inclusive), right-trimmed, stopping after the first that ends
/// with `;`; lines past the end of the text are skipped.
pub open spec fn source_lines(s: Seq<char>, idx: int, upper: int) -> Seq<Seq<char>>
    decreases upper - idx + 1,
{
    if idx > upper || idx < 0 {
        Seq::empty()
    } else if idx < line_count(s) {
        let l = strip_end(line_text(s, idx as nat), false);
        if ends_with_semicolon(l) {
            seq![l]
        } else {
            seq![l] + source_lines(s, idx + 1, upper)
        }
    } else {
        source_lines(s, idx + 1, upper)
    }
}

/// Saturating addition on `usize`.
pub open spec fn sat_add(a: usize, b: usize) -> usize {
    if a + b > usize::MAX {
        usize::MAX
    } else {
        (a + b) as usize
    }
}

/// A fenced Forth code block.
pub open spec fn code_block(body: Seq<char>) -> Seq<char> {
    "```forth\n"@ + body + "\n```\n"@
}

/// The source shown for a definition at a range of a file's text: the
/// trimmed first line for a defining word, or the lines of a colon
/// definition up to its `;` (at most twenty-one lines).
pub open spec fn source_block(s: Seq<char>, r: Range, is_colon: bool) -> Seq<char> {
    let start_line = r.start.line;
    let end_line = r.end.line;
    if !is_colon {
        if start_line < line_count(s) {
            let t = trim(line_text(s, start_line as nat));
            if t.len() > 0 {
                code_block(t)
            } else {
                Seq::empty()
            }
        } else {
            Seq::empty()
        }
    } else {
        let last = (line_count(s) - 1) as usize;
        let display_end = if start_line == end_line {
            if sat_add(end_line, 20) <= last {
                sat_add(end_line, 20)
            } else {
                last
            }
        } else {
            end_line
        };
        let upper = if display_end <= sat_add(start_line, 20) {
            display_end
        } else {
            sat_add(start_line, 20)
        };
        let ls = source_lines(s, start_line as int, upper as int);
        if ls.len() > 0 {
            code_block(join(ls, "\n"@))
        } else {
            Seq::empty()
        }
    }
}

/// The part of the hover text for one definition location.
pub open spec fn location_section(
    l: LocView,
    details: Seq<DefView>,
    files: Option<Seq<(Seq<char>, Seq<char>)>>,
) -> Seq<char> {
    let name = uri_file_name(l.uri);
    let head = "**Defined in:** `"@ + name + ":"@ + decimal((l.range.start.line + 1) as nat) + ":"@
        + decimal((l.range.start.character + 1) as nat) + "`\n\n"@;
    let src = match files {
        Some(fs) => match file_text_for(fs, l.uri) {
            Some(s) => source_block(s, l.range, location_is_colon(details, l)),
            None => Seq::empty(),
        },
        None => Seq::empty(),
    };
    head + src
}

/// The sections for the first `n` locations, separated by rules.
pub open spec fn location_sections(
    ls: Seq<LocView>,
    details: Seq<DefView>,
    files: Option<Seq<(Seq<char>, Seq<char>)>>,
    n: int,
) -> Seq<char>
    decreases n,
{
    if n <= 0 {
        Seq::empty()
    } else {
        location_sections(ls, details, files, n - 1) + (if n > 1 {
            "\n---\n\n"@
        } else {
            Seq::empty()
        }) + location_section(ls[n - 1], details, files)
    }
}

/// What tells two shown locations apart: the last segment of the URI's
/// path and the start position.
pub open spec fn loc_key(l: LocView) -> (Seq<char>, usize, usize) {
    (uri_file_name(l.uri), l.range.start.line, l.range.start.character)
}

/// The locations without each one whose key an earlier one has.
pub open spec fn dedup_locs(ls: Seq<LocView>) -> Seq<LocView>
    decreases ls.len(),
{
    if ls.len() == 0 {
        ls
    } else {
        let prev = dedup_locs(ls.drop_last());
        if exists|j: int| 0 <= j < ls.len() - 1 && loc_key(ls[j]) == loc_key(ls.last()) {
            prev
        } else {
            prev.push(ls.last())
        }
    }
}

/// The locations without those whose key an earlier one has.
fn dedup_locations(ls: &Vec<Location>) -> (r: Vec<Location>)
    ensures
        crate::definition_index::locs_view(r@) == dedup_locs(crate::definition_index::locs_view(ls@)),
{
    let ghost lv = crate::definition_index::locs_view(ls@);
    let mut seen: Vec<(String, usize, usize)> = Vec::new();
    let mut r: Vec<Location> = Vec::new();
    let mut j: usize = 0;
    while j < ls.len()
        invariant
            j <= ls@.len(),
            lv == crate::definition_index::locs_view(ls@),
            seen@.len() == j,
            forall|m: int|
                0 <= m < j ==> (#[trigger] seen@[m].0@, seen@[m].1, seen@[m].2) == loc_key(lv[m]),
            crate::definition_index::locs_view(r@) == dedup_locs(lv.take(j as int)),
        decreases ls.len() - j,
    {
        let l = &ls[j];
        let name = uri_file_name_of(l.uri.as_str());
        let line = l.range.start.line;
        let character = l.range.start.character;
        let mut found = false;
        let mut m: usize = 0;
        while m < seen.len()
            invariant
                m <= seen@.len(),
                found <==> exists|q: int|
                    0 <= q < m && (#[trigger] seen@[q].0@, seen@[q].1, seen@[q].2) == (
                        name@,
                        line,
                        character,
                    ),
            decreases seen.len() - m,
        {
            if str_eq(seen[m].0.as_str(), name.as_str()) && seen[m].1 == line && seen[m].2
                == character {
                found = true;
            }
            m = m + 1;
        }
        let ghost cur = lv.take(j + 1);
        proof {
            assert(cur.drop_last() == lv.take(j as int));
            assert(cur.last() == l@);
            assert(loc_key(l@) == (name@, line, character));
            if found {
                let q = choose|q: int|
                    0 <= q < m && (#[trigger] seen@[q].0@, seen@[q].1, seen@[q].2) == (
                        name@,
                        line,
                        character,
                    );
                assert(loc_key(cur[q]) == loc_key(cur.last()));
            } else {
                assert forall|q: int| 0 <= q < cur.len() - 1 implies loc_key(cur[q]) != loc_key(
                    cur.last(),
                ) by {
                    assert(cur[q] == lv[q]);
                    assert((seen@[q].0@, seen@[q].1, seen@[q].2) == loc_key(lv[q]));
                }
            }
        }
        if !found {
            let ghost before = crate::definition_index::locs_view(r@);
            r.push(Location { uri: l.uri.clone(), range: l.range });
            proof {
                assert(crate::definition_index::locs_view(r@) =~= before.push(l@));
            }
        }
        seen.push((name, line, character));
        j = j + 1;
    }
    proof {
        assert(lv.take(j as int) == lv);
    }
    r
}

/// The hover text of a user-defined word without doc comments to show: a
/// title, then each definition's location and source (once per file name
/// and position).
pub open spec fn definition_hover(
    word: Seq<char>,
    details: Seq<DefView>,
    ls: Seq<LocView>,
    files: Option<Seq<(Seq<char>, Seq<char>)>>,
) -> Seq<char> {
    "### `"@ + display_name(word, first_constant(details)) + "`\n\n"@ + location_sections(
        ls,
        details,
        files,
        ls.len() as int,
    )
}

/// Some definition has a doc comment.
pub open spec fn any_doc(ds: Seq<DefView>) -> bool {
    exists|i: int| 0 <= i < ds.len() && (#[trigger] ds[i]).doc_comment is Some
}

/// The hover text for a word.
pub open spec fn hover_text(
    word: Seq<char>,
    words: Seq<Word>,
    index: Option<DefinitionIndex>,
    files: Option<Seq<(Seq<char>, Seq<char>)>>,
    doc_comments: bool,
) -> Option<Seq<char>> {
    if word.len() == 0 {
        None
    } else {
        let builtin = match builtin_doc(words, word) {
            Some(d) => d,
            None => Seq::empty(),
        };
        match index {
            Some(ix) => {
                let details = dedup_defs(ix.defs_of(word));
                if details.len() == 0 {
                    Some(builtin)
                } else if doc_comments && any_doc(details) && doc_sections(word, details).len() > 0 {
                    Some(join(doc_sections(word, details), "\n\n---\n\n"@))
                } else {
                    Some(
                        definition_hover(
                            word,
                            details,
                            dedup_locs(def_locations(details)),
                            files,
                        ),
                    )
                }
            },
            None => Some(builtin),
        }
    }
}

/// The index behind an optional reference.
pub open spec fn opt_index(o: Option<&DefinitionIndex>) -> Option<DefinitionIndex> {
    match o {
        Some(ix) => Some(*ix),
        None => None,
    }
}

/// The view of the optional open files.
pub open spec fn opt_files(o: Option<&Vec<(String, Rope)>>) -> Option<Seq<(Seq<char>, Seq<char>)>> {
    match o {
        Some(fs) => Some(files_view(fs@)),
        None => None,
    }
}

/// `word = value` for a constant, else the word.
fn display_name_text(word: &str, value: &Option<String>) -> (r: String)
    ensures
        r@ == display_name(word@, opt_view(*value)),
{
    match value {
        Some(v) => {
            let mut r = String::from_str(word);
            r.append(" = ");
            r.append(v.as_str());
            r
        },
        None => String::from_str(word),
    }
}

/// The decimal text of a number plus one.
fn decimal_succ(n: usize) -> (r: String)
    ensures
        r@ == decimal((n + 1) as nat),
{
    decimal_string(n as u128 + 1)
}

fn doc_section_text(word: &str, d: &DefinitionDetails) -> (r: String)
    requires
        d.doc_comment is Some,
    ensures
        r@ == doc_section(word@, d@),
{
    let mut header = display_name_text(word, &d.constant_value);
    header.append(": defined at ");
    let name = file_name_of(d.file_path_or_uri.as_str());
    header.append(name.as_str());
    header.append(":");
    let num = decimal_succ(d.range.start.line);
    header.append(num.as_str());
    let mut lines: Vec<String> = Vec::new();
    lines.push(header);
    if let Some(stack) = &d.stack_effect {
        lines.push(stack.clone());
    }
    if let Some(doc) = &d.doc_comment {
        lines.push(doc.clone());
    }
    proof {
        assert(vals(lines@) =~= seq![vals(lines@)[0]] + (match d@.stack_effect {
            Some(se) => seq![se],
            None => Seq::empty(),
        }) + seq![d@.doc_comment->0]);
    }
    join_strings(&lines, "\n")
}

fn contains_string(v: &Vec<String>, x: &String) -> (r: bool)
    ensures
        r == vals(v@).contains(x@),
{
    let mut i: usize = 0;
    while i < v.len()
        invariant
            i <= v@.len(),
            forall|j: int| 0 <= j < i ==> v@[j]@ != x@,
        decreases v.len() - i,
    {
        if str_eq(v[i].as_str(), x.as_str()) {
            proof {
                assert(vals(v@)[i as int] == x@);
            }
            return true;
        }
        i = i + 1;
    }
    proof {
        if vals(v@).contains(x@) {
            let j = choose|j: int| 0 <= j < vals(v@).len() && vals(v@)[j] == x@;
            assert(v@[j]@ == x@);
        }
    }
    false
}

fn doc_sections_text(word: &str, details: &Vec<DefinitionDetails>) -> (r: Vec<String>)
    ensures
        vals(r@) == doc_sections(word@, vals(details@)),
{
    let ghost dv = vals(details@);
    let mut sections: Vec<String> = Vec::new();
    let mut i: usize = 0;
    while i < details.len()
        invariant
            i <= details@.len(),
            dv == vals(details@),
            vals(sections@) == doc_sections(word@, dv.take(i as int)),
        decreases details.len() - i,
    {
        let d = &details[i];
        proof {
            assert(dv.take(i + 1).drop_last() == dv.take(i as int));
            assert(dv.take(i + 1).last() == d@);
        }
        if d.doc_comment.is_some() {
            let section = doc_section_text(word, d);
            if !contains_string(&sections, &section) {
                let ghost before = vals(sections@);
                sections.push(section);
                proof {
                    assert(vals(sections@) =~= before.push(section@));
                }
            }
        }
        i = i + 1;
    }
    proof {
        assert(dv.take(i as int) == dv);
    }
    sections
}

fn first_constant_value(details: &Vec<DefinitionDetails>) -> (r: Option<String>)
    ensures
        opt_view(r) == first_constant(vals(details@)),
{
    let ghost dv = vals(details@);
    let mut i: usize = 0;
    proof {
        assert(dv.skip(0) =~= dv);
    }
    while i < details.len()
        invariant
            i <= details@.len(),
            dv == vals(details@),
            first_constant(dv) == first_constant(dv.skip(i as int)),
        decreases details.len() - i,
    {
        proof {
            assert(dv.skip(i as int).drop_first() == dv.skip(i + 1));
            assert(dv.skip(i as int)[0] == details@[i as int]@);
        }
        if details[i].constant_value.is_some() {
            return crate::definition_index::opt_clone(&details[i].constant_value);
        }
        i = i + 1;
    }
    None
}

fn normalized(s: &str) -> (r: Vec<char>)
    ensures
        r@ == normalize_slashes(s@),
{
    let v = chars_of(s);
    let mut r: Vec<char> = Vec::new();
    let mut i: usize = 0;
    while i < v.len()
        invariant
            i <= v@.len(),
            r@ == normalize_slashes(v@.take(i as int)),
        decreases v.len() - i,
    {
        r.push(if v[i] == '\\' { '/' } else { v[i] });
        proof {
            assert(normalize_slashes(v@.take(i + 1)) =~= normalize_slashes(v@.take(i as int)).push(
                if v@[i as int] == '\\' { '/' } else { v@[i as int] },
            ));
        }
        i = i + 1;
    }
    proof {
        assert(v@.take(i as int) == v@);
    }
    r
}

fn chars_equal(a: &Vec<char>, b: &Vec<char>) -> (r: bool)
    ensures
        r == (a@ == b@),
{
    if a.len() != b.len() {
        return false;
    }
    let mut i: usize = 0;
    while i < a.len()
        invariant
            i <= a@.len() == b@.len(),
            forall|j: int| 0 <= j < i ==> a@[j] == b@[j],
        decreases a.len() - i,
    {
        if a[i] != b[i] {
            return false;
        }
        i = i + 1;
    }
    proof {
        assert(a@ =~= b@);
    }
    true
}

proof fn lemma_first_file(fs: Seq<(Seq<char>, Seq<char>)>, uri: Seq<char>, loose: bool, i: int)
    requires
        0 <= i <= fs.len(),
        forall|j: int| 0 <= j < i ==> !key_matches(#[trigger] fs[j].0, uri, loose),
    ensures
        i < fs.len() && key_matches(fs[i].0, uri, loose) ==> first_file(fs, uri, loose) == Some(i),
        i == fs.len() ==> first_file(fs, uri, loose) is None,
    decreases i,
{
    if i > 0 {
        let t = fs.drop_first();
        assert forall|j: int| 0 <= j < i - 1 implies !key_matches(#[trigger] t[j].0, uri, loose) by {
            assert(t[j] == fs[j + 1]);
        }
        lemma_first_file(t, uri, loose, i - 1);
        if i < fs.len() {
            assert(t[i - 1] == fs[i]);
        }
    }
}

/// The position in the open files of the file for a location.
fn file_for(files: &Vec<(String, Rope)>, uri: &str) -> (r: Option<usize>)
    ensures
        match r {
            Some(i) => i < files@.len() && file_text_for(files_view(files@), uri@) == Some(
                rope_text(files@[i as int].1),
            ),
            None => file_text_for(files_view(files@), uri@) is None,
        },
{
    let ghost fv = files_view(files@);
    let mut i: usize = 0;
    while i < files.len()
        invariant
            i <= files@.len(),
            fv == files_view(files@),
            forall|j: int| 0 <= j < i ==> !key_matches(#[trigger] fv[j].0, uri@, false),
        decreases files.len() - i,
    {
        proof {
            assert(fv[i as int].0 == files@[i as int].0@);
        }
        if str_eq(files[i].0.as_str(), uri) {
            proof {
                lemma_first_file(fv, uri@, false, i as int);
                assert(fv[i as int].1 == rope_text(files@[i as int].1));
            }
            return Some(i);
        }
        i = i + 1;
    }
    proof {
        lemma_first_file(fv, uri@, false, i as int);
    }
    let target = normalized(uri);
    let mut i: usize = 0;
    while i < files.len()
        invariant
            i <= files@.len(),
            fv == files_view(files@),
            first_file(fv, uri@, false) is None,
            target@ == normalize_slashes(uri@),
            forall|j: int| 0 <= j < i ==> !key_matches(#[trigger] fv[j].0, uri@, true),
        decreases files.len() - i,
    {
        proof {
            assert(fv[i as int].0 == files@[i as int].0@);
        }
        let k = normalized(files[i].0.as_str());
        if chars_equal(&k, &target) {
            proof {
                lemma_first_file(fv, uri@, true, i as int);
                assert(fv[i as int].1 == rope_text(files@[i as int].1));
            }
            return Some(i);
        }
        i = i + 1;
    }
    proof {
        lemma_first_file(fv, uri@, true, i as int);
    }
    None
}

proof fn lemma_first_detail(ds: Seq<DefView>, l: LocView, by_file: bool, i: int)
    requires
        0 <= i <= ds.len(),
        forall|j: int| 0 <= j < i ==> !detail_at(#[trigger] ds[j], l, by_file),
    ensures
        i < ds.len() && detail_at(ds[i], l, by_file) ==> first_detail(ds, l, by_file) == Some(i),
        i == ds.len() ==> first_detail(ds, l, by_file) is None,
    decreases i,
{
    if i > 0 {
        let t = ds.drop_first();
        assert forall|j: int| 0 <= j < i - 1 implies !detail_at(#[trigger] t[j], l, by_file) by {
            assert(t[j] == ds[j + 1]);
        }
        lemma_first_detail(t, l, by_file, i - 1);
        if i < ds.len() {
            assert(t[i - 1] == ds[i]);
        }
    }
}

fn file_at_uri_exec(file: &str, uri: &str) -> (r: bool)
    ensures
        r == file_at_uri(file@, uri@),
{
    match path_str_to_uri(file) {
        Some(u) => str_eq(u.as_str(), uri) || str_eq(file, uri),
        None => str_eq(file, uri),
    }
}

fn find_detail(details: &Vec<DefinitionDetails>, loc: &Location, by_file: bool) -> (r: Option<usize>)
    ensures
        match r {
            Some(i) => i < details@.len() && first_detail(vals(details@), loc@, by_file) == Some(i as int),
            None => first_detail(vals(details@), loc@, by_file) is None,
        },
{
    let ghost dv = vals(details@);
    let mut i: usize = 0;
    while i < details.len()
        invariant
            i <= details@.len(),
            dv == vals(details@),
            forall|j: int| 0 <= j < i ==> !detail_at(#[trigger] dv[j], loc@, by_file),
        decreases details.len() - i,
    {
        let d = &details[i];
        proof {
            assert(dv[i as int] == d@);
        }
        if d.range == loc.range && (!by_file || file_at_uri_exec(d.file_path_or_uri.as_str(), loc.uri.as_str())) {
            proof {
                lemma_first_detail(dv, loc@, by_file, i as int);
            }
            return Some(i);
        }
        i = i + 1;
    }
    proof {
        lemma_first_detail(dv, loc@, by_file, i as int);
    }
    None
}

fn is_colon_location(details: &Vec<DefinitionDetails>, loc: &Location) -> (r: bool)
    ensures
        r == location_is_colon(vals(details@), loc@),
{
    match find_detail(details, loc, true) {
        Some(i) => details[i].is_colon_definition,
        None => match find_detail(details, loc, false) {
            Some(i) => details[i].is_colon_definition,
            None => false,
        },
    }
}

fn code_block_text(body: &str) -> (r: String)
    ensures
        r@ == code_block(body@),
{
    let mut r = String::from_str("```forth\n");
    r.append(body);
    r.append("\n```\n");
    r
}

/// The lines of a colon definition from `start` to `upper`.
fn source_lines_text(rope: &Rope, start: usize, upper: usize) -> (r: Vec<String>)
    ensures
        vals(r@) == source_lines(rope_text(*rope), start as int, upper as int),
{
    let ghost s = rope_text(*rope);
    let n_lines = rope_len_lines(rope);
    let mut out: Vec<String> = Vec::new();
    if start > upper {
        return out;
    }
    let mut idx = start;
    let mut done = false;
    while !done
        invariant
            start <= idx <= upper,
            s == rope_text(*rope),
            n_lines == line_count(s),
            !done ==> source_lines(s, start as int, upper as int) == vals(out@) + source_lines(
                s,
                idx as int,
                upper as int,
            ),
            done ==> source_lines(s, start as int, upper as int) == vals(out@),
        decreases upper - idx, (if done { 0int } else { 1int }),
    {
        let ghost before = vals(out@);
        let ghost rest = source_lines(s, idx as int + 1, upper as int);
        if idx < n_lines {
            let line = rope_line(rope, idx);
            let lv = chars_of(line.as_str());
            let t = strip_chars_end(lv.as_slice());
            let ends = t.len() > 0 && t[t.len() - 1] == ';';
            out.push(string_of(t.as_slice()));
            proof {
                assert(vals(out@) =~= before.push(t@));
            }
            if ends {
                proof {
                    assert(source_lines(s, idx as int, upper as int) == seq![t@]);
                    assert(before + seq![t@] =~= before.push(t@));
                }
                done = true;
            } else {
                proof {
                    assert(source_lines(s, idx as int, upper as int) == seq![t@] + rest);
                    assert(before + (seq![t@] + rest) =~= before.push(t@) + rest);
                }
                if idx == upper {
                    proof {
                        assert(rest =~= Seq::<Seq<char>>::empty());
                        assert(before.push(t@) + rest =~= before.push(t@));
                    }
                    done = true;
                } else {
                    idx = idx + 1;
                }
            }
        } else {
            proof {
                assert(source_lines(s, idx as int, upper as int) == rest);
            }
            if idx == upper {
                proof {
                    assert(rest =~= Seq::<Seq<char>>::empty());
                    assert(before + rest =~= before);
                }
                done = true;
            } else {
                idx = idx + 1;
            }
        }
    }
    out
}

/// Strips trailing whitespace.
fn strip_chars_end(v: &[char]) -> (r: Vec<char>)
    ensures
        r@ == strip_end(v@, false),
{
    let mut b = v.len();
    proof {
        assert(v@.subrange(0, v@.len() as int) =~= v@);
    }
    while b > 0 && crate::text::is_whitespace(v[b - 1])
        invariant
            b <= v@.len(),
            strip_end(v@, false) == strip_end(v@.subrange(0, b as int), false),
        decreases b,
    {
        proof {
            let u = v@.subrange(0, b as int);
            assert(u.drop_last() == v@.subrange(0, b - 1));
        }
        b = b - 1;
    }
    proof {
        let u = v@.subrange(0, b as int);
        if b > 0 {
            assert(u.last() == v@[b - 1]);
        }
    }
    crate::text::sub_chars(v, 0, b)
}

/// The source shown for a definition.
fn source_block_text(rope: &Rope, range: Range, is_colon: bool) -> (r: String)
    ensures
        r@ == source_block(rope_text(*rope), range, is_colon),
{
    let ghost s = rope_text(*rope);
    let start_line = range.start.line;
    let end_line = range.end.line;
    let n_lines = rope_len_lines(rope);
    if !is_colon {
        if start_line < n_lines {
            let line = rope_line(rope, start_line);
            let t = trim_str(line.as_str());
            if t.as_str().unicode_len() > 0 {
                return code_block_text(t.as_str());
            }
        }
        String::new()
    } else {
        let last = n_lines - 1;
        let display_end = if start_line == end_line {
            let e = end_line.saturating_add(20);
            if e <= last {
                e
            } else {
                last
            }
        } else {
            end_line
        };
        let cap = start_line.saturating_add(20);
        let upper = if display_end <= cap {
            display_end
        } else {
            cap
        };
        let lines = source_lines_text(rope, start_line, upper);
        if lines.len() > 0 {
            let body = join_strings(&lines, "\n");
            code_block_text(body.as_str())
        } else {
            String::new()
        }
    }
}

/// The part of the hover text for one location.
fn location_text(
    loc: &Location,
    details: &Vec<DefinitionDetails>,
    files: Option<&Vec<(String, Rope)>>,
) -> (r: String)
    ensures
        r@ == location_section(loc@, vals(details@), opt_files(files)),
{
    let name = uri_file_name_of(loc.uri.as_str());
    let mut text = String::from_str("**Defined in:** `");
    text.append(name.as_str());
    text.append(":");
    let line = decimal_succ(loc.range.start.line);
    text.append(line.as_str());
    text.append(":");
    let character = decimal_succ(loc.range.start.character);
    text.append(character.as_str());
    text.append("`\n\n");
    let is_colon = is_colon_location(details, loc);
    if let Some(files_map) = files {
        if let Some(i) = file_for(files_map, loc.uri.as_str()) {
            let src = source_block_text(&files_map[i].1, loc.range, is_colon);
            text.append(src.as_str());
        }
    }
    text
}

/// The hover text for a word: `None` for an empty word; the documentation
/// of its user definitions when the index has any (their doc comments when
/// enabled and present, else their locations and source); else the
/// documentation of the built-in word (empty when unknown).
pub fn get_hover_result(
    word: &str,
    data: &Words,
    def_index: Option<&DefinitionIndex>,
    files: Option<&Vec<(String, Rope)>>,
    doc_comments: bool,
) -> (r: Option<String>)
    requires
        def_index matches Some(ix) ==> ix.wf(),
    ensures
        opt_view(r) == hover_text(word@, data.words@, opt_index(def_index), opt_files(files), doc_comments),
{
    if word.unicode_len() == 0 {
        return None;
    }
    if let Some(index) = def_index {
        let details = index.find_definition_details(word);
        let ghost dv = vals(details@);
        if details.len() > 0 {
            if doc_comments && any_doc_comment(&details) {
                let sections = doc_sections_text(word, &details);
                if sections.len() > 0 {
                    return Some(join_strings(&sections, "\n\n---\n\n"));
                }
            }
            let found = index.find_definitions(word);
            let defs = dedup_locations(&found);
            let constant = first_constant_value(&details);
            let mut hover_text = String::from_str("### `");
            let name = display_name_text(word, &constant);
            hover_text.append(name.as_str());
            hover_text.append("`\n\n");
            let ghost head = hover_text@;
            let ghost lv = crate::definition_index::locs_view(defs@);
            proof {
                assert(lv == dedup_locs(def_locations(dv)));
            }
            let mut i: usize = 0;
            while i < defs.len()
                invariant
                    i <= defs@.len(),
                    lv == crate::definition_index::locs_view(defs@),
                    dv == vals(details@),
                    hover_text@ == head + location_sections(lv, dv, opt_files(files), i as int),
                decreases defs.len() - i,
            {
                let ghost before = hover_text@;
                if i > 0 {
                    hover_text.append("\n---\n\n");
                }
                let section = location_text(&defs[i], &details, files);
                hover_text.append(section.as_str());
                proof {
                    assert(lv[i as int] == defs@[i as int]@);
                    let prev = location_sections(lv, dv, opt_files(files), i as int);
                    let sep = if i + 1 > 1 {
                        "\n---\n\n"@
                    } else {
                        Seq::<char>::empty()
                    };
                    assert(section@ == location_section(lv[i as int], dv, opt_files(files)));
                    assert(location_sections(lv, dv, opt_files(files), i + 1) == prev + sep
                        + location_section(lv[i as int], dv, opt_files(files)));
                    assert(head + (prev + sep + section@) =~= (head + prev) + sep + section@);
                    if i > 0 {
                        assert(hover_text@ =~= before + "\n---\n\n"@ + section@);
                    } else {
                        assert(hover_text@ =~= before + Seq::<char>::empty() + section@);
                    }
                }
                i = i + 1;
            }
            return Some(hover_text);
        }
    }
    let default_info = Word::default();
    let info = match find_builtin_word(word, data) {
        Some(w) => w,
        None => &default_info,
    };
    Some(info.documentation())
}

/// Whether some definition has a doc comment.
fn any_doc_comment(details: &Vec<DefinitionDetails>) -> (r: bool)
    ensures
        r == any_doc(vals(details@)),
{
    let mut i: usize = 0;
    while i < details.len()
        invariant
            i <= details@.len(),
            forall|j: int| 0 <= j < i ==> (#[trigger] vals(details@)[j]).doc_comment is None,
        decreases details.len() - i,
    {
        if details[i].doc_comment.is_some() {
            proof {
                assert(vals(details@)[i as int].doc_comment is Some);
            }
            return true;
        }
        i = i + 1;
    }
    false
}

} // verus!
