use forth_lsp::definition_index::DefinitionIndex;
use ropey::Rope;

#[test]
fn test_index_single_file() {
    let mut index = DefinitionIndex::new();
    let file_path = String::from("/tmp/test.forth");

    let rope = Rope::from_str(": add1 1 + ;\n: double 2 * ;");
    index.update_file(&file_path, &rope);

    let locations = index.find_definitions("add1");
    assert_eq!(locations.len(), 1);
    assert!(locations[0].uri.to_string().contains("test.forth"));
}

#[test]
fn test_index_case_insensitive() {
    let mut index = DefinitionIndex::new();
    let file_path = String::from("/tmp/test.forth");

    let rope = Rope::from_str(": MyWord 1 + ;");
    index.update_file(&file_path, &rope);

    let upper = index.find_definitions("MYWORD");
    let lower = index.find_definitions("myword");
    let mixed = index.find_definitions("MyWord");

    assert_eq!(upper.len(), 1);
    assert_eq!(lower.len(), 1);
    assert_eq!(mixed.len(), 1);
    assert_eq!(upper[0].range, lower[0].range);
    assert_eq!(upper[0].range, mixed[0].range);
}

#[test]
fn test_index_multiple_files() {
    let mut index = DefinitionIndex::new();
    let file1 = String::from("/tmp/file1.forth");
    let file2 = String::from("/tmp/file2.forth");

    index.update_file(&file1, &Rope::from_str(": add1 1 + ;"));
    index.update_file(&file2, &Rope::from_str(": double 2 * ;"));

    let add1_locs = index.find_definitions("add1");
    let double_locs = index.find_definitions("double");

    assert_eq!(add1_locs.len(), 1);
    assert_eq!(double_locs.len(), 1);
    assert!(add1_locs[0].uri.to_string().contains("file1.forth"));
    assert!(double_locs[0].uri.to_string().contains("file2.forth"));
}

#[test]
fn test_index_duplicate_definitions() {
    let mut index = DefinitionIndex::new();
    let file1 = String::from("/tmp/file1.forth");
    let file2 = String::from("/tmp/file2.forth");

    index.update_file(&file1, &Rope::from_str(": test 1 + ;"));
    index.update_file(&file2, &Rope::from_str(": test 2 * ;"));

    let locations = index.find_definitions("test");
    assert_eq!(locations.len(), 2);
}

#[test]
fn test_index_update_file() {
    let mut index = DefinitionIndex::new();
    let file_path = String::from("/tmp/test.forth");

    // Initial content
    index.update_file(&file_path, &Rope::from_str(": old 1 + ;"));
    assert_eq!(index.find_definitions("old").len(), 1);
    assert_eq!(index.find_definitions("new").len(), 0);

    // Update content
    index.update_file(&file_path, &Rope::from_str(": new 2 * ;"));
    assert_eq!(index.find_definitions("old").len(), 0);
    assert_eq!(index.find_definitions("new").len(), 1);
}

#[test]
fn test_index_remove_file() {
    let mut index = DefinitionIndex::new();
    let file1 = String::from("/tmp/file1.forth");
    let file2 = String::from("/tmp/file2.forth");

    index.update_file(&file1, &Rope::from_str(": word1 1 + ;"));
    index.update_file(&file2, &Rope::from_str(": word2 2 * ;"));

    assert_eq!(index.find_definitions("word1").len(), 1);
    assert_eq!(index.find_definitions("word2").len(), 1);

    index.remove_file(&file1);

    assert_eq!(index.find_definitions("word1").len(), 0);
    assert_eq!(index.find_definitions("word2").len(), 1);
}

#[test]
fn test_index_number_prefix_words() {
    let mut index = DefinitionIndex::new();
    let file_path = String::from("/tmp/test.forth");

    let rope = Rope::from_str(": 2swap ( a b c d -- c d a b ) rot >r rot r> ;");
    index.update_file(&file_path, &rope);

    let locations = index.find_definitions("2swap");
    assert_eq!(locations.len(), 1);
}

#[test]
fn test_index_not_found() {
    let index = DefinitionIndex::new();
    let locations = index.find_definitions("nonexistent");
    assert_eq!(locations.len(), 0);
}

#[test]
fn test_all_words() {
    let mut index = DefinitionIndex::new();
    let file_path = String::from("/tmp/test.forth");

    index.update_file(&file_path, &Rope::from_str(": add1 1 + ;\n: double 2 * ;"));

    let words = index.all_words();
    assert_eq!(words.len(), 2);
    assert!(words.contains(&"add1".to_string()));
    assert!(words.contains(&"double".to_string()));
}

#[test]
fn test_find_references_simple() {
    let mut index = DefinitionIndex::new();
    let file_path = String::from("/tmp/test.forth");

    // Define a word and use it
    index.update_file(
        &file_path,
        &Rope::from_str(": add1 1 + ;\n: test add1 add1 ;"),
    );

    let refs = index.find_references("add1");
    // Should find 2 references (both calls in test word)
    assert_eq!(refs.len(), 2);
}

#[test]
fn test_find_references_excludes_definition() {
    let mut index = DefinitionIndex::new();
    let file_path = String::from("/tmp/test.forth");

    index.update_file(&file_path, &Rope::from_str(": myword 1 + ;"));

    let refs = index.find_references("myword");
    // Should find 0 references (definition is not a reference)
    assert_eq!(refs.len(), 0);
}

#[test]
fn test_find_references_case_insensitive() {
    let mut index = DefinitionIndex::new();
    let file_path = String::from("/tmp/test.forth");

    index.update_file(&file_path, &Rope::from_str(": add1 1 + ;\n: test ADD1 ;"));

    let refs = index.find_references("add1");
    assert_eq!(refs.len(), 1);

    let refs_upper = index.find_references("ADD1");
    assert_eq!(refs_upper.len(), 1);
}

#[test]
fn test_find_references_multiple_files() {
    let mut index = DefinitionIndex::new();
    let file1 = String::from("/tmp/file1.forth");
    let file2 = String::from("/tmp/file2.forth");

    index.update_file(&file1, &Rope::from_str(": add1 1 + ;"));
    index.update_file(&file2, &Rope::from_str(": test add1 add1 ;"));

    let refs = index.find_references("add1");
    // Should find 2 references in file2
    assert_eq!(refs.len(), 2);
    assert!(
        refs.iter()
            .all(|loc| loc.uri.to_string().contains("file2.forth"))
    );
}

#[test]
fn test_find_all_references_with_declaration() {
    let mut index = DefinitionIndex::new();
    let file_path = String::from("/tmp/test.forth");

    index.update_file(&file_path, &Rope::from_str(": add1 1 + ;\n: test add1 ;"));

    let all_refs = index.find_all_references("add1", true);
    // Should find 1 definition + 1 reference = 2 total
    assert_eq!(all_refs.len(), 2);
}

#[test]
fn test_find_all_references_without_declaration() {
    let mut index = DefinitionIndex::new();
    let file_path = String::from("/tmp/test.forth");

    index.update_file(&file_path, &Rope::from_str(": add1 1 + ;\n: test add1 ;"));

    let all_refs = index.find_all_references("add1", false);
    // Should find only 1 reference (no definition)
    assert_eq!(all_refs.len(), 1);
}

#[test]
fn test_find_references_builtin_words() {
    let mut index = DefinitionIndex::new();
    let file_path = String::from("/tmp/test.forth");

    // Use built-in words that aren't defined in the file
    index.update_file(&file_path, &Rope::from_str(": test + - * ;"));

    let plus_refs = index.find_references("+");
    let minus_refs = index.find_references("-");
    let mul_refs = index.find_references("*");

    // Should find references to built-in words
    assert_eq!(plus_refs.len(), 1);
    assert_eq!(minus_refs.len(), 1);
    assert_eq!(mul_refs.len(), 1);
}

#[test]
fn test_find_references_no_matches() {
    let mut index = DefinitionIndex::new();
    let file_path = String::from("/tmp/test.forth");

    index.update_file(&file_path, &Rope::from_str(": add1 1 + ;"));

    let refs = index.find_references("nonexistent");
    assert_eq!(refs.len(), 0);
}

#[test]
fn test_variable_definition() {
    let mut index = DefinitionIndex::new();
    let file_path = String::from("/tmp/test.forth");

    index.update_file(&file_path, &Rope::from_str("VARIABLE DATE"));

    let defs = index.find_definitions("DATE");
    assert_eq!(defs.len(), 1);
    assert_eq!(defs[0].range.start.line, 0);
    // Range should be for "DATE" (starts at character 9), not "VARIABLE"
    assert_eq!(defs[0].range.start.character, 9);
}

#[test]
fn test_constant_definition() {
    let mut index = DefinitionIndex::new();
    let file_path = String::from("/tmp/test.forth");

    index.update_file(&file_path, &Rope::from_str("42 CONSTANT ANSWER"));

    let defs = index.find_definitions("ANSWER");
    assert_eq!(defs.len(), 1);
}

#[test]
fn test_create_definition() {
    let mut index = DefinitionIndex::new();
    let file_path = String::from("/tmp/test.forth");

    index.update_file(&file_path, &Rope::from_str("CREATE BUFFER 100 ALLOT"));

    let defs = index.find_definitions("BUFFER");
    assert_eq!(defs.len(), 1);
}

#[test]
fn test_value_definition() {
    let mut index = DefinitionIndex::new();
    let file_path = String::from("/tmp/test.forth");

    index.update_file(&file_path, &Rope::from_str("10 VALUE counter"));

    let defs = index.find_definitions("counter");
    assert_eq!(defs.len(), 1);
}

#[test]
fn test_multiple_defining_words() {
    let mut index = DefinitionIndex::new();
    let file_path = String::from("/tmp/test.forth");

    index.update_file(
        &file_path,
        &Rope::from_str("VARIABLE x\n10 CONSTANT max\nCREATE buf 100 ALLOT\n: double 2 * ;"),
    );

    assert_eq!(index.find_definitions("x").len(), 1);
    assert_eq!(index.find_definitions("max").len(), 1);
    assert_eq!(index.find_definitions("buf").len(), 1);
    assert_eq!(index.find_definitions("double").len(), 1);
}

#[test]
fn test_defining_word_case_insensitive() {
    let mut index = DefinitionIndex::new();
    let file_path = String::from("/tmp/test.forth");

    // Test with lowercase variable keyword
    index.update_file(&file_path, &Rope::from_str("variable myvar"));

    let defs = index.find_definitions("myvar");
    assert_eq!(defs.len(), 1);
}

#[test]
fn test_2variable_definition() {
    let mut index = DefinitionIndex::new();
    let file_path = String::from("/tmp/test.forth");

    index.update_file(&file_path, &Rope::from_str("2VARIABLE dval"));

    let defs = index.find_definitions("dval");
    assert_eq!(defs.len(), 1);
}

#[test]
fn test_variable_reference_not_definition() {
    let mut index = DefinitionIndex::new();
    let file_path = String::from("/tmp/test.forth");

    // Define a variable and use it
    index.update_file(&file_path, &Rope::from_str("VARIABLE x\n: test x @ ;"));

    // Should find 1 definition
    let defs = index.find_definitions("x");
    assert_eq!(defs.len(), 1);

    // Should find 1 reference (in the test word)
    let refs = index.find_references("x");
    assert_eq!(refs.len(), 1);
}

#[test]
fn test_find_stack_effect() {
    let mut index = DefinitionIndex::new();
    let file_path = String::from("/tmp/test.forth");

    index.update_file(&file_path, &Rope::from_str(": foo ( n -- n ) 1 + ;"));

    let effect = index.find_stack_effect("foo");
    assert_eq!(effect, Some("( n -- n )".to_string()));
}

#[test]
fn test_find_stack_effect_no_comment() {
    let mut index = DefinitionIndex::new();
    let file_path = String::from("/tmp/test.forth");

    index.update_file(&file_path, &Rope::from_str(": bar 1 + ;"));

    let effect = index.find_stack_effect("bar");
    assert_eq!(effect, None);
}

#[test]
fn test_find_stack_effect_case_insensitive() {
    let mut index = DefinitionIndex::new();
    let file_path = String::from("/tmp/test.forth");

    index.update_file(&file_path, &Rope::from_str(": MyWord ( a b -- c ) + ;"));

    assert!(index.find_stack_effect("myword").is_some());
    assert!(index.find_stack_effect("MYWORD").is_some());
    assert!(index.find_stack_effect("MyWord").is_some());
}

#[test]
fn test_code_definition() {
    let mut index = DefinitionIndex::new();
    let file_path = String::from("/tmp/test.forth");

    index.update_file(
        &file_path,
        &Rope::from_str("CODE syscall0 MOV RAX RBX END-CODE\n: test syscall0 ;"),
    );

    let defs = index.find_definitions("syscall0");
    assert_eq!(defs.len(), 1);

    let refs = index.find_references("syscall0");
    assert_eq!(refs.len(), 1);
}

#[test]
fn test_colon_def_with_doc_comment_following_definition_no_blank_line() {
    let mut index = DefinitionIndex::new();
    let file_path = String::from("/tmp/test.forth");

    let src =
        "42 constant FOO\n\\ doc comment for my-word\n: my-word ( 0 -- 1 )\n  foo\n  bar ;";
    index.update_file(&file_path, &Rope::from_str(src));

    let details = index.find_definition_details("my-word");
    assert_eq!(details.len(), 1);
    assert_eq!(
        details[0].doc_comment.as_deref(),
        Some("doc comment for my-word")
    );
    assert_eq!(details[0].stack_effect.as_deref(), Some("( 0 -- 1 )"));
}

#[test]
fn test_defining_word_with_doc_comment_following_definition_no_blank_line() {
    let mut index = DefinitionIndex::new();
    let file_path = String::from("/tmp/test.forth");

    let src = ": prev-word\n  foo\n  bar ;\n\\ doc-comment for qux\nvariable qux";
    index.update_file(&file_path, &Rope::from_str(src));

    let details = index.find_definition_details("qux");
    assert_eq!(details.len(), 1);
    assert_eq!(
        details[0].doc_comment.as_deref(),
        Some("doc-comment for qux")
    );
    assert_eq!(details[0].stack_effect, None);
}

#[test]
fn test_multiline_doc_comment() {
    let mut index = DefinitionIndex::new();
    let file_path = String::from("/tmp/test.forth");

    let src = "\\ here comes\n\\ some comment block\n\\ documenting word\n: word ... ;";
    index.update_file(&file_path, &Rope::from_str(src));

    let details = index.find_definition_details("word");
    assert_eq!(details.len(), 1);
    assert_eq!(
        details[0].doc_comment.as_deref(),
        Some("here comes some comment block documenting word")
    );
}

#[test]
fn test_doc_comment_detached_by_blank_line() {
    let mut index = DefinitionIndex::new();
    let file_path = String::from("/tmp/test.forth");

    let src = "\\ detached comment\n\n: word 1 ;";
    index.update_file(&file_path, &Rope::from_str(src));

    let details = index.find_definition_details("word");
    assert_eq!(details.len(), 1);
    assert_eq!(details[0].doc_comment, None);
}

#[test]
fn test_stack_comment_on_next_line() {
    let mut index = DefinitionIndex::new();
    let file_path = String::from("/tmp/test.forth");

    let src = "\\ my doc\n: word\n  ( a -- b )\n  1 ;";
    index.update_file(&file_path, &Rope::from_str(src));

    let details = index.find_definition_details("word");
    assert_eq!(details.len(), 1);
    assert_eq!(details[0].stack_effect.as_deref(), Some("( a -- b )"));
    assert_eq!(details[0].doc_comment.as_deref(), Some("my doc"));
}

#[test]
fn test_stack_comment_not_immediate() {
    let mut index = DefinitionIndex::new();
    let file_path = String::from("/tmp/test.forth");

    let src = "\\ my doc\n: word\n  1 2 +\n  ( a -- b ) ;";
    index.update_file(&file_path, &Rope::from_str(src));

    let details = index.find_definition_details("word");
    assert_eq!(details.len(), 1);
    assert_eq!(details[0].stack_effect, None);
    assert_eq!(details[0].doc_comment.as_deref(), Some("my doc"));
}
