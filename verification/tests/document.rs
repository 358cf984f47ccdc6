use forth_lsp::document::{
    apply_content_change, apply_content_changes, change_fits, word_at_position, word_on_or_before,
    TextChange,
};
use forth_lsp::position::{Position, Range};
use ropey::Rope;

fn range(sl: usize, sc: usize, el: usize, ec: usize) -> Option<Range> {
    Some(Range {
        start: Position { line: sl, character: sc },
        end: Position { line: el, character: ec },
    })
}

#[test]
fn incremental_change_replaces_range() {
    let mut rope = Rope::from_str(": a 1 ;\n: b 2 ;");
    let change = TextChange { range: range(1, 2, 1, 3), text: String::from("bee") };
    assert!(change_fits(&rope, &change));
    apply_content_change(&mut rope, &change);
    assert_eq!(rope.to_string(), ": a 1 ;\n: bee 2 ;");
}

#[test]
fn full_change_replaces_document() {
    let mut rope = Rope::from_str("old text");
    let change = TextChange { range: None, text: String::from("new") };
    apply_content_change(&mut rope, &change);
    assert_eq!(rope.to_string(), "new");
}

#[test]
fn out_of_bounds_lines_replace_document() {
    let mut rope = Rope::from_str("one line");
    let change = TextChange { range: range(5, 0, 6, 0), text: String::from("whole") };
    assert!(change_fits(&rope, &change));
    apply_content_change(&mut rope, &change);
    assert_eq!(rope.to_string(), "whole");
}

#[test]
fn change_past_end_does_not_fit() {
    let rope = Rope::from_str("ab\ncd");
    let change = TextChange { range: range(1, 0, 1, 9), text: String::from("x") };
    assert!(!change_fits(&rope, &change));
    let reversed = TextChange { range: range(1, 2, 0, 0), text: String::from("x") };
    assert!(!change_fits(&rope, &reversed));
}

#[test]
fn word_on_or_before_finds_word() {
    let rope = Rope::from_str("dup swap  drop");
    assert_eq!(word_on_or_before(&rope, 5), "swap");
    // just after a word, the word before is taken
    assert_eq!(word_on_or_before(&rope, 8), "swap");
    // between two blanks there is no word
    assert_eq!(word_on_or_before(&rope, 9), "");
    assert_eq!(word_on_or_before(&rope, 14), "drop");
}

#[test]
fn word_at_position_reads_line_and_character() {
    let rope = Rope::from_str(": sq dup * ;\nsq 3 sq");
    assert_eq!(word_at_position(&rope, 0, 6), Some(String::from("dup")));
    assert_eq!(word_at_position(&rope, 1, 5), Some(String::from("sq")));
    // past the end of the text, or past the last line
    assert_eq!(word_at_position(&rope, 1, 7), None);
    assert_eq!(word_at_position(&rope, 2, 0), None);
}

#[test]
fn changes_apply_in_order() {
    let mut rope = Rope::from_str(": a 1 ;");
    let changes = vec![
        TextChange { range: range(0, 4, 0, 5), text: String::from("2") },
        TextChange { range: range(0, 7, 0, 7), text: String::from("\n: b a ;") },
        TextChange { range: range(1, 2, 1, 3), text: String::from("bee") },
    ];
    assert!(apply_content_changes(&mut rope, &changes));
    assert_eq!(rope.to_string(), ": a 2 ;\n: bee a ;");
}

#[test]
fn changes_stop_at_one_that_does_not_fit() {
    let mut rope = Rope::from_str("ab");
    let changes = vec![
        TextChange { range: range(0, 0, 0, 1), text: String::from("x") },
        TextChange { range: range(0, 1, 0, 9), text: String::from("y") },
    ];
    assert!(!apply_content_changes(&mut rope, &changes));
    assert_eq!(rope.to_string(), "xb");
}
