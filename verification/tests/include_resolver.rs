use forth_lexer::parser::Lexer;
use forth_lexer::token::Token as LexToken;
use forth_lsp::include_resolver::{
    check_candidate, find_required_file, needs_loading, scan_required_files, uri_to_load,
    DependencyWalk, WorkspaceConfig,
};
use forth_lsp::lexer::{Data, Token};
use ropey::Rope;
use std::io::{Read, Write};
use std::path::Path;
use tempfile::{tempdir, Builder, NamedTempFile, TempDir};

fn lex(source: &str) -> Vec<Token> {
    Lexer::new(source)
        .parse()
        .into_iter()
        .map(|t| {
            let d = t.get_data();
            let data = Data::new(d.start, d.end, d.value);
            match t {
                LexToken::Illegal(_) => Token::Illegal(data),
                LexToken::Eof(_) => Token::Eof(data),
                LexToken::Colon(_) => Token::Colon(data),
                LexToken::Semicolon(_) => Token::Semicolon(data),
                LexToken::Word(_) => Token::Word(data),
                LexToken::Number(_) => Token::Number(data),
                LexToken::Comment(_) => Token::Comment(data),
                LexToken::StackComment(_) => Token::StackComment(data),
            }
        })
        .collect()
}

#[test]
fn test_scan_required_files() {
    let source = "require foo.4th \n include \"bar.fs\" \n needs 'baz.fth' \n fload qux";
    let tokens = lex(source);
    let files = scan_required_files(&tokens);
    assert_eq!(files, vec!["foo.4th", "bar.fs", "baz.fth", "qux"]);
}

#[test]
fn test_scan_required_files_ignores_comments() {
    let source = "require \\ comment\n foo.4th";
    let tokens = lex(source);
    let files = scan_required_files(&tokens);
    assert_eq!(files, vec!["foo.4th"]);
}

/// A directory with exactly this name under `parent`.
fn make_dir(parent: &Path, name: &str) -> TempDir {
    Builder::new().prefix(name).rand_bytes(0).tempdir_in(parent).unwrap()
}

/// A file with exactly this name and content in `dir`.
fn make_file(dir: &Path, name: &str, content: &str) -> NamedTempFile {
    let mut f = Builder::new().prefix(name).rand_bytes(0).tempfile_in(dir).unwrap();
    f.write_all(content.as_bytes()).unwrap();
    f.flush().unwrap();
    f
}

fn path_string(p: &Path) -> String {
    p.to_string_lossy().into_owned()
}

#[test]
fn test_find_required_file_precedence() {
    let temp = tempdir().unwrap();
    let inc1 = make_dir(temp.path(), "inc1");
    let inc2 = make_dir(temp.path(), "inc2");

    // Create same file name in both include dirs
    let _f1 = make_file(inc1.path(), "common.fs", ": FROM_INC1 ;");
    let _f2 = make_file(inc2.path(), "common.fs", ": FROM_INC2 ;");

    let ws = WorkspaceConfig::default();
    let include_dirs = vec![path_string(inc1.path()), path_string(inc2.path())];

    // inc1 should be found first
    let found = find_required_file("common.fs", None, &include_dirs, &ws).unwrap();
    assert_eq!(found, path_string(&inc1.path().join("common.fs")));
}

#[test]
fn test_find_required_file_current_dir_over_include_dir() {
    let temp = tempdir().unwrap();
    let current_dir = make_dir(temp.path(), "current");
    let inc = make_dir(temp.path(), "inc");

    let _f1 = make_file(current_dir.path(), "local.fs", ": LOCAL ;");
    let _f2 = make_file(inc.path(), "local.fs", ": INC ;");

    let ws = WorkspaceConfig::default();
    let include_dirs = vec![path_string(inc.path())];

    let current = path_string(current_dir.path());
    let found = find_required_file("local.fs", Some(&current), &include_dirs, &ws).unwrap();
    assert_eq!(found, path_string(&current_dir.path().join("local.fs")));
}

#[test]
fn test_find_required_file_with_extension_fallback() {
    let temp = tempdir().unwrap();
    let inc = make_dir(temp.path(), "inc");
    let _f = make_file(inc.path(), "helper.4th", ": HELPER ;");

    let ws = WorkspaceConfig::default();
    let include_dirs = vec![path_string(inc.path())];

    // Target specifies no extension; should find helper.4th
    let found = find_required_file("helper", None, &include_dirs, &ws).unwrap();
    assert_eq!(found, path_string(&inc.path().join("helper.4th")));
}

#[test]
fn test_resolve_and_load_dependencies_recursive_and_circular() {
    let temp = tempdir().unwrap();
    let inc = make_dir(temp.path(), "inc");

    // Circular dependency: A requires B, B requires A
    let a_source = "require b.fs\n: WORD_A ;";
    let b_source = "require a.fs\n: WORD_B ;";
    let _a = make_file(inc.path(), "a.fs", a_source);
    let _b = make_file(inc.path(), "b.fs", b_source);

    let root_source = "require a.fs\n: MAIN WORD_A WORD_B ;";
    let root = make_file(temp.path(), "main.fs", root_source);

    // the files on disk, by path: the loop reads each found file from them
    let on_disk = vec![
        (path_string(&inc.path().join("a.fs")), &_a),
        (path_string(&inc.path().join("b.fs")), &_b),
    ];

    let mut files: Vec<(String, Rope)> = Vec::new();
    let mut def_index = forth_lsp::definition_index::DefinitionIndex::new();
    let ws = WorkspaceConfig::default();
    let include_dirs = vec![path_string(inc.path())];

    let tokens = lex(root_source);
    let root_path = path_string(root.path());
    let mut walk = DependencyWalk::new(&tokens, Some(&root_path));
    let mut loaded = 0;
    while let Some(found) = walk.next_file(&include_dirs, &ws) {
        let Some(uri) = uri_to_load(&files, &found) else {
            continue;
        };
        let handle = on_disk.iter().find(|(p, _)| *p == found).unwrap().1;
        let mut content = String::new();
        handle.reopen().unwrap().read_to_string(&mut content).unwrap();
        walk.load(&found, uri, &content, &mut files, &mut def_index);
        loaded += 1;
    }

    // Both A and B should have been loaded into files and indexed in def_index
    assert_eq!(loaded, 2);
    assert_eq!(files.len(), 2);
    assert!(!def_index.find_definitions("WORD_A").is_empty());
    assert!(!def_index.find_definitions("WORD_B").is_empty());
}

#[test]
fn scan_required_files_case_and_consumed_token() {
    // the dependency words match in any case; a non-word after one ends
    // the wait, and so does a word that is empty once its quotes go
    let tokens = lex("REQUIRE a.fs NEEDS ; b.fs Fload \"\" c.fs");
    let files = scan_required_files(&tokens);
    assert_eq!(files, vec!["a.fs"]);
}

#[test]
fn find_required_file_missing_target_is_none() {
    let ws = WorkspaceConfig::default();
    let dirs = vec![String::from("/nonexistent-dir-for-tests")];
    assert_eq!(find_required_file("no-such-file", None, &dirs, &ws), None);
    assert_eq!(check_candidate("/nonexistent-dir-for-tests/x", &ws), None);
}

#[test]
fn workspace_default_extensions() {
    let ws = WorkspaceConfig::default();
    assert!(ws.extensions.contains(&String::from("4th")));
}

#[test]
fn find_required_file_joins_directory_and_target() {
    // an existing file found through a directory: the join must place the
    // target under the directory
    let ws = WorkspaceConfig::default();
    let found = find_required_file("passwd", Some("/etc"), &Vec::new(), &ws);
    assert_eq!(found, Some(String::from("/etc/passwd")));
    let found = find_required_file("passwd", None, &vec![String::from("/etc")], &ws);
    assert_eq!(found, Some(String::from("/etc/passwd")));
}

#[test]
fn check_candidate_existing_absolute_file() {
    let ws = WorkspaceConfig::default();
    assert_eq!(check_candidate("/etc/passwd", &ws), Some(String::from("/etc/passwd")));
    // an absolute target is tried first
    assert_eq!(
        find_required_file("/etc/passwd", None, &Vec::new(), &ws),
        Some(String::from("/etc/passwd"))
    );
}

#[test]
fn dependency_walk_without_targets_finishes() {
    let tokens = lex(": a 1 ;");
    let mut walk = DependencyWalk::new(&tokens, None);
    let ws = WorkspaceConfig::default();
    assert_eq!(walk.next_file(&Vec::new(), &ws), None);
}

#[test]
fn dependency_walk_skips_unfound_and_visits_once() {
    let tokens = lex("require /etc/passwd require /etc/passwd require missing.fs");
    let mut walk = DependencyWalk::new(&tokens, None);
    let ws = WorkspaceConfig::default();
    assert_eq!(walk.next_file(&Vec::new(), &ws), Some(String::from("/etc/passwd")));
    // the second requirement of the same file is skipped, the missing one too
    assert_eq!(walk.next_file(&Vec::new(), &ws), None);
}

#[test]
fn dependency_walk_loads_and_indexes() {
    let tokens = lex("require /etc/passwd");
    let mut walk = DependencyWalk::new(&tokens, None);
    let ws = WorkspaceConfig::default();
    let mut files: Vec<(String, Rope)> = Vec::new();
    let mut index = forth_lsp::definition_index::DefinitionIndex::new();
    let path = walk.next_file(&Vec::new(), &ws).unwrap();
    assert!(needs_loading(&files, "file:///etc/passwd"));
    walk.load(&path, String::from("file:///etc/passwd"), ": from-dep 1 ;", &mut files, &mut index);
    assert_eq!(files.len(), 1);
    assert!(!needs_loading(&files, "file:///etc/passwd"));
    assert_eq!(index.find_definitions("FROM-DEP").len(), 1);
    // loading the same file again leaves everything as it was
    walk.load(&path, String::from("file:///etc/passwd"), ": other 1 ;", &mut files, &mut index);
    assert_eq!(files.len(), 1);
    assert_eq!(index.find_definitions("other").len(), 0);
    assert_eq!(walk.next_file(&Vec::new(), &ws), None);
}

#[test]
fn required_targets_come_unquoted_in_token_order() {
    let tokens = lex("needs \"z.fs\" ( x ) require 'a.fs' include m.fs");
    let files = scan_required_files(&tokens);
    assert_eq!(files, vec!["z.fs", "a.fs", "m.fs"]);
}

#[test]
fn uri_to_load_skips_open_files_and_paths_without_uri() {
    let mut files: Vec<(String, Rope)> = Vec::new();
    assert_eq!(uri_to_load(&files, "/tmp/a.fs"), Some(String::from("file:///tmp/a.fs")));
    files.push((String::from("file:///tmp/a.fs"), Rope::from_str("")));
    assert_eq!(uri_to_load(&files, "/tmp/a.fs"), None);
    assert_eq!(uri_to_load(&files, "/tmp/with space.fs"), None);
}
