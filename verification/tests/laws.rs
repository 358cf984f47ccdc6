use forth_lsp::definition_index::DefinitionIndex;
use ropey::Rope;

fn snapshot(index: &DefinitionIndex, words: &[&str]) -> Vec<(usize, usize, Vec<String>)> {
    words
        .iter()
        .map(|w| {
            let defs = index.find_definition_details(w);
            let docs = defs.iter().map(|d| d.doc_comment.clone().unwrap_or_default()).collect();
            (defs.len(), index.find_references(w).len(), docs)
        })
        .collect()
}

#[test]
fn updating_twice_equals_updating_once() {
    let rope = Rope::from_str("\\ doc\n: a 1 ;\nVARIABLE v\n: b a v ;");
    let mut once = DefinitionIndex::new();
    once.update_file("/tmp/f.fs", &rope);
    let mut twice = DefinitionIndex::new();
    twice.update_file("/tmp/f.fs", &rope);
    twice.update_file("/tmp/f.fs", &rope);
    let words = ["a", "v", "b"];
    assert_eq!(snapshot(&once, &words), snapshot(&twice, &words));
    assert_eq!(twice.find_definitions("a").len(), 1);
    assert_eq!(twice.find_references("a").len(), 1);
}

#[test]
fn update_leaves_other_files_alone() {
    let mut index = DefinitionIndex::new();
    index.update_file("/tmp/one.fs", &Rope::from_str(": shared 1 ; : only-one 2 ;"));
    index.update_file("/tmp/two.fs", &Rope::from_str(": shared 3 ; shared"));
    index.update_file("/tmp/two.fs", &Rope::from_str(": other 4 ;"));
    assert_eq!(index.find_definitions("shared").len(), 1);
    assert_eq!(index.find_definitions("shared")[0].uri, "file:///tmp/one.fs");
    assert_eq!(index.find_definitions("only-one").len(), 1);
    assert_eq!(index.find_references("shared").len(), 0);
}

#[test]
fn remove_after_update_equals_remove() {
    let mut index = DefinitionIndex::new();
    index.update_file("/tmp/keep.fs", &Rope::from_str(": k 1 ;"));
    index.update_file("/tmp/gone.fs", &Rope::from_str(": g k ;"));
    index.remove_file("/tmp/gone.fs");
    assert_eq!(index.find_definitions("g").len(), 0);
    assert_eq!(index.find_references("k").len(), 0);
    assert_eq!(index.find_definitions("k").len(), 1);
    assert_eq!(index.all_words(), vec![String::from("k")]);
}

#[test]
fn lookups_ignore_case() {
    let mut index = DefinitionIndex::new();
    index.update_file("/tmp/c.fs", &Rope::from_str(": Mixed ( a -- b ) 1 ; mixed MIXED"));
    assert_eq!(index.find_definitions("MIXED").len(), 1);
    assert_eq!(index.find_references("mIxEd").len(), 2);
    assert_eq!(index.find_stack_effect("mixed"), Some(String::from("( a -- b )")));
}

#[test]
fn duplicate_file_names_at_one_position_are_reported_once() {
    let mut index = DefinitionIndex::new();
    let rope = Rope::from_str(": w 1 ;");
    index.update_file("/a/x.fs", &rope);
    index.update_file("/b/x.fs", &rope);
    index.update_file("/b/y.fs", &rope);
    assert_eq!(index.find_definitions("w").len(), 2);
    assert_eq!(index.find_definition_details("w").len(), 2);
    // the stack effect search does not drop duplicates: none here
    assert_eq!(index.find_stack_effect("w"), None);
}

#[test]
fn find_all_references_lists_definitions_first() {
    let mut index = DefinitionIndex::new();
    index.update_file("/tmp/r.fs", &Rope::from_str(": w 1 ;\n: u w w ;"));
    let all = index.find_all_references("w", true);
    assert_eq!(all.len(), 3);
    assert_eq!(all[0].range.start.line, 0);
    assert_eq!(all[0].range.start.character, 2);
    assert_eq!(all[1].range.start.line, 1);
    assert_eq!(all[1].range.start.character, 4);
}

#[test]
fn references_are_unmarked_words() {
    let mut index = DefinitionIndex::new();
    index.update_file("/tmp/u.fs", &Rope::from_str(": w 5 ;\n1 CONSTANT one\none w 5"));
    let w_refs = index.find_references("w");
    assert_eq!(w_refs.len(), 1);
    assert_eq!(w_refs[0].range.start.line, 2);
    assert_eq!(w_refs[0].range.start.character, 4);
    let one_refs = index.find_references("one");
    assert_eq!(one_refs.len(), 1);
    assert_eq!(one_refs[0].range.start.character, 0);
    assert_eq!(index.find_references("5").len(), 0);
}

#[test]
fn unread_positions_past_the_text_do_not_stop_indexing() {
    // the lexer's byte offsets of the trailing comment run past the
    // characters of the text, but no position read lies there
    let mut index = DefinitionIndex::new();
    let rope = Rope::from_str(": w 1 ;\n\\ éééééééééé");
    assert!(index.update_file("/tmp/n.fs", &rope));
    assert_eq!(index.find_definitions("w").len(), 1);
    assert_eq!(index.find_definitions("w")[0].range.start.character, 2);
}

#[test]
fn read_positions_past_the_text_leave_the_file_unindexed() {
    let mut index = DefinitionIndex::new();
    index.update_file("/tmp/m.fs", &Rope::from_str(": old 1 ;"));
    // the name `w` starts past the text's characters in byte offsets
    let rope = Rope::from_str("\\ ééééé\n: w 1 ;");
    assert!(!index.update_file("/tmp/m.fs", &rope));
    assert_eq!(index.find_definitions("old").len(), 0);
    assert_eq!(index.find_definitions("w").len(), 0);
}

#[test]
fn stack_effect_is_that_of_the_first_definition() {
    let mut index = DefinitionIndex::new();
    index.update_file("/tmp/s.fs", &Rope::from_str(": w 1 ;\n: w ( a -- b ) 2 ;"));
    assert_eq!(index.find_definitions("w").len(), 2);
    assert_eq!(index.find_stack_effect("w"), None);
}

#[test]
fn removing_a_file_twice_keeps_other_files_in_order() {
    let mut index = DefinitionIndex::new();
    index.update_file("/tmp/o1.fs", &Rope::from_str(": w 1 ;"));
    index.update_file("/tmp/o2.fs", &Rope::from_str(": w 2 ;"));
    index.update_file("/tmp/o3.fs", &Rope::from_str(": w 3 ;"));
    index.remove_file("/tmp/o2.fs");
    index.remove_file("/tmp/o2.fs");
    let defs = index.find_definition_details("w");
    assert_eq!(defs.len(), 2);
    assert_eq!(defs[0].file_path_or_uri, "/tmp/o1.fs");
    assert_eq!(defs[1].file_path_or_uri, "/tmp/o3.fs");
}

#[test]
fn defining_and_colon_definitions_record_their_names() {
    let mut index = DefinitionIndex::new();
    index.update_file("/tmp/d.fs", &Rope::from_str("variable V ( -- a )\n: Sq ( n -- n ) dup * ;"));
    let v = index.find_definition_details("v");
    assert_eq!(v.len(), 1);
    assert!(!v[0].is_colon_definition);
    assert_eq!(v[0].constant_value, None);
    assert_eq!(v[0].stack_effect, Some(String::from("( -- a )")));
    assert_eq!(v[0].range.start.character, 9);
    let sq = index.find_definition_details("SQ");
    assert_eq!(sq.len(), 1);
    assert!(sq[0].is_colon_definition);
    assert_eq!(sq[0].stack_effect, Some(String::from("( n -- n )")));
    assert_eq!(sq[0].range.start.line, 1);
    assert_eq!(sq[0].range.start.character, 2);
    assert_eq!(sq[0].range.end.character, 4);
}
