use forth_lsp::definition_index::DefinitionIndex;
use forth_lsp::document::word_on_or_before;
use forth_lsp::hover::{get_hover_result, Words};
use ropey::Rope;

fn user_uri() -> String {
    String::from("file:///tmp/user.forth")
}

#[test]
fn test_hover_finds_builtin_word() {
    let words = Words::default();
    let result = get_hover_result("DUP", &words, None, None, true);

    assert!(result.is_some());
    let value = result.unwrap();
    assert!(value.contains("DUP"));
    assert!(value.contains("( x -- x x )"));
}

#[test]
fn test_hover_case_insensitive() {
    let words = Words::default();
    let result = get_hover_result("dup", &words, None, None, true);

    assert!(result.is_some());
    assert!(result.unwrap().contains("DUP"));
}

#[test]
fn test_hover_stack_effect_operators() {
    let words = Words::default();
    let test_cases = vec![
        ("+", "( n1 | u1 n2 | u2 -- n3 | u3 )"),
        ("-", "( n1 | u1 n2 | u2 -- n3 | u3 )"),
        ("*", "( n1 | u1 n2 | u2 -- n3 | u3 )"),
        ("SWAP", "( x1 x2 -- x2 x1 )"),
    ];

    for (word, expected_stack) in test_cases {
        let result = get_hover_result(word, &words, None, None, true);
        assert!(result.is_some(), "Expected hover for word: {}", word);
        assert!(
            result.unwrap().contains(expected_stack),
            "Word '{}' should contain stack effect '{}'",
            word,
            expected_stack
        );
    }
}

#[test]
fn test_hover_returns_none_for_unknown_word() {
    let words = Words::default();
    let result = get_hover_result("NONEXISTENT_WORD_12345", &words, None, None, true);

    // Unknown words return default Word, which still returns Some
    // This is the current behavior
    assert!(result.is_some());
}

#[test]
fn test_hover_returns_none_for_empty_word() {
    let words = Words::default();
    let result = get_hover_result("", &words, None, None, true);

    assert!(result.is_none());
}

#[test]
fn test_hover_user_defined_overrides_builtin() {
    let words = Words::default();
    let mut index = DefinitionIndex::new();
    let file_uri = user_uri();

    // Define a word that exists in built-ins
    let rope = Rope::from_str(": DUP 1 + ;");
    index.update_file(&file_uri, &rope);

    let mut files = Vec::new();
    files.push((file_uri.clone(), rope));

    let result = get_hover_result("DUP", &words, Some(&index), Some(&files), true);

    assert!(result.is_some());
    let content = result.unwrap();
    // Should show user-defined info with source code, not built-in docs
    assert!(content.contains("DUP"));
    assert!(content.contains("Defined in:"));
    assert!(content.contains(": DUP 1 + ;"));
    assert!(!content.contains("( x -- x x )"));
}

#[test]
fn test_hover_user_defined_word_only() {
    let words = Words::default();
    let mut index = DefinitionIndex::new();
    let file_uri = user_uri();

    // Define a word that doesn't exist in built-ins
    let rope = Rope::from_str(": myword 1 + ;");
    index.update_file(&file_uri, &rope);

    let mut files = Vec::new();
    files.push((file_uri.clone(), rope));

    let result = get_hover_result("myword", &words, Some(&index), Some(&files), true);

    assert!(result.is_some());
    let content = result.unwrap();
    assert!(content.contains("myword"));
    assert!(content.contains("Defined in:"));
    assert!(content.contains(": myword 1 + ;"));
}

#[test]
fn test_hover_user_defined_variable() {
    let words = Words::default();
    let mut index = DefinitionIndex::new();
    let file_uri = user_uri();

    // Define a variable
    let rope = Rope::from_str("VARIABLE counter");
    index.update_file(&file_uri, &rope);

    let mut files = Vec::new();
    files.push((file_uri.clone(), rope));

    let result = get_hover_result("counter", &words, Some(&index), Some(&files), true);

    assert!(result.is_some());
    let content = result.unwrap();
    assert!(content.contains("counter"));
    assert!(content.contains("Defined in:"));
    assert!(content.contains("VARIABLE counter"));
}

#[test]
fn test_hover_user_defined_multiline() {
    let words = Words::default();
    let mut index = DefinitionIndex::new();
    let file_uri = user_uri();

    // Define a multiline word
    let rope = Rope::from_str(
        ": factorial\n  dup 0= if\n    drop 1\n  else\n    dup 1- factorial *\n  then\n;",
    );
    index.update_file(&file_uri, &rope);

    let mut files = Vec::new();
    files.push((file_uri.clone(), rope));

    let result = get_hover_result("factorial", &words, Some(&index), Some(&files), true);

    assert!(result.is_some());
    let content = result.unwrap();
    assert!(content.contains("factorial"));
    assert!(content.contains("Defined in:"));
    assert!(content.contains(": factorial"));
    assert!(content.contains("dup 0= if"));
}

#[test]
fn test_hover_multibyte_utf8_file() {
    // Simulate a Forth file with Italian comments (multi-byte UTF-8)
    let src = "\\ tabella è unica\r\n: SAVE_BATT ( -- ) ;\r\n\\ così il test\r\n";
    let rope = Rope::from_str(src);

    let mut index = DefinitionIndex::new();
    let file_uri = "file:///test/test.f".to_string();
    index.update_file(&file_uri, &rope);

    let mut files = Vec::new();
    files.push((file_uri, rope.clone()));
    let words = Words::default();

    for line in 0..rope.len_lines() {
        let line_start = rope.line_to_char(line);
        let line_end = if line + 1 < rope.len_lines() {
            rope.line_to_char(line + 1)
        } else {
            rope.len_chars()
        };
        let line_len = line_end - line_start;
        for character in [0, line_len / 2, line_len.saturating_sub(1)] {
            let ix = line_start + character;
            if ix < rope.len_chars() {
                let word = word_on_or_before(&rope, ix);
                let _ = get_hover_result(&word, &words, Some(&index), Some(&files), true);
            }
        }
    }
}

#[test]
fn test_hover_doc_comments_with_stack_effect() {
    let words = Words::default();
    let mut index = DefinitionIndex::new();
    let file_uri = "file:///test/test.f".to_string();
    let src = "42 constant FOO\n\\ doc comment for my-word\n: my-word ( 0 -- 1 )\n  foo\n  bar ;";
    index.update_file(&file_uri, &Rope::from_str(src));

    let result = get_hover_result("my-word", &words, Some(&index), None, true);
    assert!(result.is_some());
    assert_eq!(
        result.unwrap(),
        "my-word: defined at test.f:3\n( 0 -- 1 )\ndoc comment for my-word"
    );
}

#[test]
fn test_hover_doc_comments_without_stack_effect() {
    let words = Words::default();
    let mut index = DefinitionIndex::new();
    let file_uri = "file:///test/test.f".to_string();
    let src = ": prev-word\n  foo\n  bar ;\n\\ doc-comment for qux\nvariable qux";
    index.update_file(&file_uri, &Rope::from_str(src));

    let result = get_hover_result("qux", &words, Some(&index), None, true);
    assert!(result.is_some());
    assert_eq!(result.unwrap(), "qux: defined at test.f:5\ndoc-comment for qux");
}

#[test]
fn test_hover_doc_comments_multiline() {
    let words = Words::default();
    let mut index = DefinitionIndex::new();
    let file_uri = "file:///test/test.f".to_string();
    let src = "\\ here comes\n\\ some comment block\n\\ documenting word\n: word ( a b -- c )\n  ... ;";
    index.update_file(&file_uri, &Rope::from_str(src));

    let result = get_hover_result("word", &words, Some(&index), None, true);
    assert!(result.is_some());
    assert_eq!(
        result.unwrap(),
        "word: defined at test.f:4\n( a b -- c )\nhere comes some comment block documenting word"
    );
}

#[test]
fn test_hover_doc_comments_disabled() {
    let words = Words::default();
    let mut index = DefinitionIndex::new();
    let file_uri = "file:///test/test.f".to_string();
    let rope = Rope::from_str("\\ here comes\n\\ doc comment\n: word ( a b -- c )\n  ... ;");
    index.update_file(&file_uri, &rope);

    let mut files = Vec::new();
    files.push((file_uri.clone(), rope));

    // With doc_comments = false, should fall back to existing format
    let result = get_hover_result("word", &words, Some(&index), Some(&files), false);
    assert!(result.is_some());
    let content = result.unwrap();
    assert!(content.contains("### `word`"));
    assert!(content.contains("Defined in:"));
    assert!(content.contains("```forth"));
}

#[test]
fn test_hover_cross_file_doc_comments() {
    let words = Words::default();
    let mut index = DefinitionIndex::new();
    let lib_uri = "file:///lib/math.f".to_string();
    let src_lib = "\\ adds two numbers\n: add2 ( a b -- c ) + ;";
    index.update_file(&lib_uri, &Rope::from_str(src_lib));

    // Hover in another file (files map doesn't even have to have the other file loaded in editor)
    let result = get_hover_result("add2", &words, Some(&index), None, true);
    assert!(result.is_some());
    assert_eq!(
        result.unwrap(),
        "add2: defined at math.f:2\n( a b -- c )\nadds two numbers"
    );
}

#[test]
fn test_hover_doc_comments_no_duplicates() {
    let words = Words::default();
    let mut index = DefinitionIndex::new();
    let file_path = "file://C:\\test\\test.f";
    let src = "\\ doc comment\n: my-word ( -- )\n  noop ;";
    let rope = Rope::from_str(src);
    index.update_file(file_path, &rope);
    // Simulate client didOpen updating the same file with a slightly different URI representation
    let file_uri = "file:///c%3A/test/test.f";
    index.update_file(file_uri, &rope);

    let result = get_hover_result("my-word", &words, Some(&index), None, true);
    assert!(result.is_some());
    let content = result.unwrap();
    assert_eq!(content, "my-word: defined at test.f:2\n( -- )\ndoc comment");
    // Must NOT contain duplicate sections joined by "---"
    assert!(!content.contains("---"));
}

#[test]
fn test_hover_constant_with_doc_comment() {
    let words = Words::default();
    let mut index = DefinitionIndex::new();
    let file_uri = "file:///test/test.f".to_string();
    let src = "\\ Left arrow key\n8 constant LEFT\n21 constant RIGHT";
    index.update_file(&file_uri, &Rope::from_str(src));

    let result = get_hover_result("LEFT", &words, Some(&index), None, true);
    assert!(result.is_some());
    assert_eq!(result.unwrap(), "LEFT = 8: defined at test.f:2\nLeft arrow key");
}

#[test]
fn test_hover_constant_without_doc_comment() {
    let words = Words::default();
    let mut index = DefinitionIndex::new();
    let file_uri = "file:///test/test.f".to_string();
    let src = "8 constant LEFT\n21 constant RIGHT";
    let rope = Rope::from_str(src);
    index.update_file(&file_uri, &rope);

    let mut files = Vec::new();
    files.push((file_uri.clone(), rope));

    let result = get_hover_result("LEFT", &words, Some(&index), Some(&files), true);
    assert!(result.is_some());
    let content = result.unwrap();
    assert!(content.contains("### `LEFT = 8`"));
    assert!(content.contains("Defined in:"));
    assert!(content.contains("```forth\n8 constant LEFT\n```"));
    // Must NOT contain the next line (RIGHT)
    assert!(!content.contains("RIGHT"));
}

#[test]
fn test_hover_create_and_variable_without_doc_comment() {
    let words = Words::default();
    let mut index = DefinitionIndex::new();
    let file_uri = "file:///test/test.f".to_string();
    let src = "create (vdu-buf) 512 allot\n\nvariable (vdu-fid)\n\n: (emit-buffer) ( addr len -- )\n  bounds do\n    i c@ emit\n  loop ;\n";
    let rope = Rope::from_str(src);
    index.update_file(&file_uri, &rope);

    let mut files = Vec::new();
    files.push((file_uri.clone(), rope));

    // Hover for (vdu-buf) should show only the create line
    let result_buf = get_hover_result("(vdu-buf)", &words, Some(&index), Some(&files), true);
    assert!(result_buf.is_some());
    let content = result_buf.unwrap();
    assert!(content.contains("```forth\ncreate (vdu-buf) 512 allot\n```"));
    assert!(!content.contains("variable"));
    assert!(!content.contains("(vdu-fid)"));
    assert!(!content.contains("(emit-buffer)"));
    assert!(!content.contains("loop ;"));

    // Hover for (vdu-fid) should show only the variable line
    let result_fid = get_hover_result("(vdu-fid)", &words, Some(&index), Some(&files), true);
    assert!(result_fid.is_some());
    let content = result_fid.unwrap();
    assert!(content.contains("```forth\nvariable (vdu-fid)\n```"));
    assert!(!content.contains("create"));
    assert!(!content.contains("(vdu-buf)"));
    assert!(!content.contains("(emit-buffer)"));
    assert!(!content.contains("loop ;"));

    // Hover for (emit-buffer) should show the full colon definition up to ';'
    let result_emit = get_hover_result("(emit-buffer)", &words, Some(&index), Some(&files), true);
    assert!(result_emit.is_some());
    let content = result_emit.unwrap();
    assert!(content.contains(": (emit-buffer) ( addr len -- )"));
    assert!(content.contains("bounds do"));
    assert!(content.contains("loop ;"));
    assert!(!content.contains("create"));
    assert!(!content.contains("variable"));
}

#[test]
fn hover_shows_each_file_name_and_position_once() {
    let words = Words::default();
    let mut index = DefinitionIndex::new();
    index.update_file("file:///x/b.f?q", &Rope::from_str(": w 1 ;"));
    index.update_file("file:///y/b.f", &Rope::from_str(": w 2 ;"));
    assert_eq!(index.find_definitions("w").len(), 2);
    let text = get_hover_result("w", &words, Some(&index), None, true).unwrap();
    assert_eq!(text.matches("**Defined in:**").count(), 1);
    assert!(text.contains("`b.f:1:3`"));
}
