use forth_lsp::definition_index::{
    extract_constant_value, extract_doc_comment_block, find_colon_definitions, DefinitionIndex,
};
use forth_lsp::lexer::{Data, Token};
use forth_lsp::position::{char_position, char_range, Position};
use forth_lsp::text::{decimal_string, file_name_of, str_eq_ignore_ascii_case, strip_quotes_str, trim_str};
use ropey::Rope;

fn word(start: usize, end: usize, v: &str) -> Token {
    Token::Word(Data::new(start, end, v))
}

#[test]
fn trim_removes_unicode_whitespace() {
    assert_eq!(trim_str("\u{3000} \tabc d\r\n"), "abc d");
    assert_eq!(trim_str("   "), "");
    assert_eq!(strip_quotes_str("\"'x'\""), "x");
}

#[test]
fn decimal_and_file_names() {
    assert_eq!(decimal_string(0), "0");
    assert_eq!(decimal_string(120), "120");
    assert_eq!(file_name_of("C:\\dir\\a.fs"), "a.fs");
    assert_eq!(file_name_of("file:///lib/math.f"), "math.f");
    assert_eq!(file_name_of("dir/"), "");
    assert!(str_eq_ignore_ascii_case("Variable", "VARIABLE"));
    assert!(!str_eq_ignore_ascii_case("Variable", "VARIABLES"));
}

#[test]
fn positions_count_lines_and_columns() {
    let rope = Rope::from_str("ab\r\ncd\ref\ngh");
    assert_eq!(char_position(&rope, 0), Position { line: 0, character: 0 });
    assert_eq!(char_position(&rope, 3), Position { line: 0, character: 3 });
    assert_eq!(char_position(&rope, 5), Position { line: 1, character: 1 });
    assert_eq!(char_position(&rope, 7), Position { line: 2, character: 0 });
    assert_eq!(char_position(&rope, 12), Position { line: 3, character: 2 });
    let r = char_range(&rope, 4, 12);
    assert_eq!(r.start, Position { line: 1, character: 0 });
    assert_eq!(r.end, Position { line: 3, character: 2 });
}

#[test]
fn colon_definitions_restart_on_colon() {
    let tokens = vec![
        Token::Colon(Data::new(0, 1, ":")),
        word(2, 3, "a"),
        Token::Colon(Data::new(4, 5, ":")),
        word(6, 7, "b"),
        Token::Semicolon(Data::new(8, 9, ";")),
        Token::Semicolon(Data::new(10, 11, ";")),
    ];
    assert_eq!(find_colon_definitions(&tokens), vec![(2, 4)]);
}

#[test]
fn doc_comment_block_joins_lines() {
    let rope = Rope::from_str("\\ one\n  \\two  \n\\\n: w ;");
    assert_eq!(extract_doc_comment_block(3, &rope), Some(String::from("one two ")));
    assert_eq!(extract_doc_comment_block(0, &rope), None);
}

#[test]
fn constant_value_takes_the_tokens_on_its_line() {
    let src = "1 2 +\n3 4 + CONSTANT SEVEN";
    let rope = Rope::from_str(src);
    let tokens = vec![
        Token::Number(Data::new(0, 1, "1")),
        Token::Number(Data::new(2, 3, "2")),
        word(4, 5, "+"),
        Token::Number(Data::new(6, 7, "3")),
        Token::Number(Data::new(8, 9, "4")),
        word(10, 11, "+"),
        word(12, 20, "CONSTANT"),
        word(21, 26, "SEVEN"),
    ];
    let marks = vec![21usize];
    assert_eq!(extract_constant_value(6, &tokens, &rope, &marks), Some(String::from("3 4 +")));
    // when the token before is on an earlier line, it alone is the value
    let src2 = "99\nCONSTANT N";
    let rope2 = Rope::from_str(src2);
    let tokens2 = vec![
        Token::Number(Data::new(0, 2, "99")),
        word(3, 11, "CONSTANT"),
        word(12, 13, "N"),
    ];
    assert_eq!(extract_constant_value(1, &tokens2, &rope2, &vec![12]), Some(String::from("99")));
    assert_eq!(extract_constant_value(0, &tokens2, &rope2, &vec![12]), None);
}

#[test]
fn constant_definitions_record_their_value() {
    let mut index = DefinitionIndex::new();
    index.update_file("/tmp/k.fs", &Rope::from_str(": f ;\n10 20 + 2CONSTANT pair\nVARIABLE v"));
    let d = index.find_definition_details("PAIR");
    assert_eq!(d[0].constant_value, Some(String::from("10 20 +")));
    assert!(!d[0].is_colon_definition);
    let v = index.find_definition_details("v");
    assert_eq!(v[0].constant_value, None);
}

#[test]
fn number_redefinitions_are_referenced() {
    let mut index = DefinitionIndex::new();
    index.update_file("/tmp/n.fs", &Rope::from_str(": 42 1 ;\n42 42 7"));
    assert_eq!(index.find_definitions("42").len(), 1);
    assert_eq!(index.find_references("42").len(), 2);
    assert_eq!(index.find_references("7").len(), 0);
}

#[test]
fn tokens_past_the_text_are_not_indexed() {
    let mut index = DefinitionIndex::new();
    // byte offsets run past the char count when multi-byte text precedes
    let indexed = index.update_file("/tmp/m.fs", &Rope::from_str("èèèèèèè : x ;"));
    assert!(!indexed);
    assert_eq!(index.all_words().len(), 0);
    assert!(index.update_file("/tmp/m.fs", &Rope::from_str(": x ;")));
}
