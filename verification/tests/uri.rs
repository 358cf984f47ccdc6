use forth_lsp::definition_index::DefinitionIndex;
use forth_lsp::uri::{last_segment_of, path_str_to_uri, uri_file_name_of};
use ropey::Rope;

#[test]
fn paths_become_file_uris() {
    assert_eq!(path_str_to_uri("/tmp/a.fs"), Some(String::from("file:///tmp/a.fs")));
    // a URI stays as it is
    assert_eq!(path_str_to_uri("file:///test/test.f"), Some(String::from("file:///test/test.f")));
    // a path that does not make a valid URI has none
    assert_eq!(path_str_to_uri("/tmp/with space.fs"), None);
}

#[test]
fn file_name_of_a_uri_is_its_last_path_segment() {
    assert_eq!(uri_file_name_of("file:///tmp/dir/x.fs"), "x.fs");
    assert_eq!(last_segment_of("a/b/c"), "c");
    assert_eq!(last_segment_of("plain"), "plain");
}

#[test]
fn locations_without_a_uri_are_left_out() {
    let mut index = DefinitionIndex::new();
    index.update_file("/tmp/with space.fs", &Rope::from_str(": w 1 ; w"));
    assert_eq!(index.find_definition_details("w").len(), 1);
    assert_eq!(index.find_definitions("w").len(), 0);
    assert_eq!(index.find_references("w").len(), 0);
    index.update_file("/tmp/plain.fs", &Rope::from_str(": w 1 ; w"));
    let defs = index.find_definitions("w");
    assert_eq!(defs.len(), 1);
    assert_eq!(defs[0].uri, "file:///tmp/plain.fs");
    assert_eq!(index.find_all_references("w", true).len(), 2);
}
