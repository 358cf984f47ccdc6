//! Finding the files that a Forth source requires (by `require`, `needs`,
//! `fload` and the like) and where they lie on disk.

use crate::definition_index::{
    def_entries, reads_fit, ref_entries, DefinitionDetails, DefinitionIndex,
    Reference,
};
use crate::table::{add_all, without_file};
use crate::lexer::{lex, lexed, tokens_view, Token, TokenKind, TokenView};
use crate::rope::{rope_from_str, rope_len_chars, rope_text};
use ropey::Rope;
use crate::text::{
    chars_eq_ignore_ascii_case, chars_of, eq_ignore_ascii_case, str_eq_ignore_ascii_case, strip_quotes,
    strip_quotes_str,
};
use std::path::Path;
use crate::uri::{path_str_to_uri, path_uri};
use vstd::prelude::*;

verus! {

/// Command-line options: print the version, and additional directories to
/// search for required Forth files and word definitions.
pub struct Cli {
    pub version: bool,
    pub include_dirs: Vec<String>,
}

/// Workspace settings: the file extensions tried for a required file
/// named without one.
pub struct WorkspaceConfig {
    pub extensions: Vec<String>,
}

/// An extension holds no path separator (`Path::with_extension` panics on
/// one).
pub open spec fn no_separator(e: Seq<char>) -> bool {
    !e.contains('/') && !e.contains('\\')
}

/// Extensions that can be put on a path: none holds a separator.
pub open spec fn extensions_ok(exts: Seq<Seq<char>>) -> bool {
    forall|i: int| 0 <= i < exts.len() ==> no_separator(#[trigger] exts[i])
}

impl WorkspaceConfig {
    /// The extensions can be put on a path.
    pub open spec fn wf(&self) -> bool {
        extensions_ok(strs_view(self.extensions@))
    }
}

impl Default for WorkspaceConfig {
    fn default() -> (r: Self)
        ensures
            r.wf(),
            r.extensions@.len() == 5,
            r.extensions@[0]@ == "fs"@,
            r.extensions@[1]@ == "fth"@,
            r.extensions@[2]@ == "4th"@,
            r.extensions@[3]@ == "f"@,
            r.extensions@[4]@ == "forth"@,
    {
        let mut extensions: Vec<String> = Vec::new();
        extensions.push(String::from_str("fs"));
        extensions.push(String::from_str("fth"));
        extensions.push(String::from_str("4th"));
        extensions.push(String::from_str("f"));
        extensions.push(String::from_str("forth"));
        proof {
            reveal_strlit("fs");
            reveal_strlit("fth");
            reveal_strlit("4th");
            reveal_strlit("f");
            reveal_strlit("forth");
            let ev = strs_view(extensions@);
            assert forall|i: int| 0 <= i < ev.len() implies no_separator(#[trigger] ev[i]) by {
                assert(ev[i] == extensions@[i]@);
            }
        }
        WorkspaceConfig { extensions }
    }
}

// ---------------------------------------------------------------------
// Scanning for required files
// ---------------------------------------------------------------------
/// A word that introduces a file dependency (any ASCII case).
pub open spec fn is_dependency_word(v: Seq<char>) -> bool {
    ||| eq_ignore_ascii_case("require"@, v)
    ||| eq_ignore_ascii_case(seq!['i', 'n', 'c', 'l', 'u', 'd', 'e'], v)
    ||| eq_ignore_ascii_case("needs"@, v)
    ||| eq_ignore_ascii_case("fload"@, v)
}

fn dependency_word(v: &str) -> (r: bool)
    ensures
        r == is_dependency_word(v@),
{
    let inc = ['i', 'n', 'c', 'l', 'u', 'd', 'e'];
    let vc = chars_of(v);
    proof {
        assert(inc@ =~= seq!['i', 'n', 'c', 'l', 'u', 'd', 'e']);
    }
    str_eq_ignore_ascii_case("require", v) || chars_eq_ignore_ascii_case(&inc, vc.as_slice())
        || str_eq_ignore_ascii_case("needs", v) || str_eq_ignore_ascii_case("fload", v)
}

/// Scans the first `n` tokens: the targets found, and whether the scan is
/// waiting for the target of an include word. While waiting, comments are
/// skipped, a word gives the target (its quotes stripped, kept when
/// non-empty), and any other token ends the wait unused.
pub open spec fn scan_targets(ts: Seq<TokenView>, n: int) -> (Seq<Seq<char>>, bool)
    decreases n,
{
    if n <= 0 {
        (Seq::empty(), false)
    } else {
        let (acc, waiting) = scan_targets(ts, n - 1);
        let t = ts[n - 1];
        if waiting {
            if t.kind == TokenKind::Comment || t.kind == TokenKind::StackComment {
                (acc, true)
            } else if t.kind == TokenKind::Word {
                let target = strip_quotes(t.value);
                (
                    if target.len() > 0 {
                        acc.push(target)
                    } else {
                        acc
                    },
                    false,
                )
            } else {
                (acc, false)
            }
        } else {
            (acc, t.kind == TokenKind::Word && is_dependency_word(t.value))
        }
    }
}

/// The files a token sequence requires, in order.
pub open spec fn required_targets(ts: Seq<TokenView>) -> Seq<Seq<char>> {
    scan_targets(ts, ts.len() as int).0
}

/// Scan tokens for filenames referenced by the dependency words
/// (`require`, `needs`, `fload` and the like).
pub fn scan_required_files(tokens: &[Token]) -> (r: Vec<String>)
    ensures
        strs_view(r@) == required_targets(tokens_view(tokens@)),
{
    let ghost ts = tokens_view(tokens@);
    let mut targets: Vec<String> = Vec::new();
    let mut waiting = false;
    let mut n: usize = 0;
    while n < tokens.len()
        invariant
            n <= tokens@.len(),
            ts == tokens_view(tokens@),
            (strs_view(targets@), waiting) == scan_targets(ts, n as int),
        decreases tokens.len() - n,
    {
        let t = &tokens[n];
        proof {
            assert(ts[n as int] == t@);
        }
        let ghost before = strs_view(targets@);
        if waiting {
            match t {
                Token::Comment(_) | Token::StackComment(_) => {},
                Token::Word(d) => {
                    let target = strip_quotes_str(d.value.as_str());
                    if target.as_str().unicode_len() > 0 {
                        targets.push(target);
                        proof {
                            assert(strs_view(targets@) =~= before.push(
                                strip_quotes(t@.value),
                            ));
                        }
                    }
                    waiting = false;
                },
                _ => {
                    waiting = false;
                },
            }
        } else {
            if let Token::Word(d) = t {
                waiting = dependency_word(d.value.as_str());
            }
        }
        n = n + 1;
    }
    targets
}

// ---------------------------------------------------------------------
// Paths
// ---------------------------------------------------------------------
/// What `Path::join` gives for a base and a path (as text).
pub uninterp spec fn path_join(base: Seq<char>, p: Seq<char>) -> Seq<char>;

/// What `Path::is_absolute` gives for a path.
pub uninterp spec fn path_is_absolute(p: Seq<char>) -> bool;

/// Whether `Path::extension` finds an extension in a path.
pub uninterp spec fn path_has_extension(p: Seq<char>) -> bool;

/// What `Path::with_extension` gives for a path and an extension.
pub uninterp spec fn path_with_extension(p: Seq<char>, ext: Seq<char>) -> Seq<char>;

/// Calls `Path::join`; its result is named `path_join`.
#[verifier::external_body]
fn join_path(base: &str, p: &str) -> (r: String)
    ensures
        r@ == path_join(base@, p@),
{
    Path::new(base).join(p).to_string_lossy().into_owned()
}

/// Calls `Path::is_absolute`; its result is named `path_is_absolute`.
#[verifier::external_body]
fn is_absolute_path(p: &str) -> (r: bool)
    ensures
        r == path_is_absolute(p@),
{
    Path::new(p).is_absolute()
}

/// Calls `Path::extension` and tells whether it found one; named
/// `path_has_extension`.
#[verifier::external_body]
fn has_extension(p: &str) -> (r: bool)
    ensures
        r == path_has_extension(p@),
{
    Path::new(p).extension().is_some()
}

/// Calls `Path::with_extension`; its result is named `path_with_extension`.
#[verifier::external_body]
fn with_extension(p: &str, ext: &str) -> (r: String)
    requires
        no_separator(ext@),
    ensures
        r@ == path_with_extension(p@, ext@),
{
    Path::new(p).with_extension(ext).to_string_lossy().into_owned()
}

/// Calls `Path::is_file`: whether a file exists at the path. The answer
/// depends on the disk, so nothing is stated of it.
#[verifier::external_body]
fn path_is_file(p: &str) -> (r: bool) {
    Path::new(p).is_file()
}

/// The paths tried for one base path: the path itself, then, when it has
/// no extension, the path with each extension in turn.
pub open spec fn candidates_for(base: Seq<char>, exts: Seq<Seq<char>>) -> Seq<Seq<char>> {
    seq![base] + if !path_has_extension(base) {
        exts.map_values(|e: Seq<char>| path_with_extension(base, e))
    } else {
        Seq::empty()
    }
}

/// The base paths searched for a target, in order: the target itself when
/// it is absolute, then the target relative to the current file's
/// directory, then relative to each include directory.
pub open spec fn search_bases(
    target: Seq<char>,
    current_dir: Option<Seq<char>>,
    include_dirs: Seq<Seq<char>>,
) -> Seq<Seq<char>> {
    (if path_is_absolute(target) {
        seq![target]
    } else {
        Seq::empty()
    }) + (match current_dir {
        Some(d) => seq![path_join(d, target)],
        None => Seq::empty(),
    }) + include_dirs.map_values(|d: Seq<char>| path_join(d, target))
}

/// All candidate files for a target, in the order they are tried.
pub open spec fn all_candidates(bases: Seq<Seq<char>>, exts: Seq<Seq<char>>) -> Seq<Seq<char>>
    decreases bases.len(),
{
    if bases.len() == 0 {
        Seq::empty()
    } else {
        all_candidates(bases.drop_last(), exts) + candidates_for(bases.last(), exts)
    }
}

/// The first candidate reported to exist, among those probed.
pub open spec fn first_existing(cands: Seq<Seq<char>>, found: Seq<bool>) -> Option<Seq<char>>
    decreases found.len(),
{
    if found.len() == 0 {
        None
    } else {
        match first_existing(cands, found.drop_last()) {
            Some(c) => Some(c),
            None => if found.last() {
                Some(cands[found.len() - 1])
            } else {
                None
            },
        }
    }
}

/// What a search in order can give: the candidates were probed in order up
/// to the first that exists, or all of them when none does.
pub open spec fn probed_in_order(cands: Seq<Seq<char>>, found: Seq<bool>, r: Option<Seq<char>>) -> bool {
    &&& found.len() <= cands.len()
    &&& r == first_existing(cands, found)
    &&& r is None ==> found.len() == cands.len()
}

/// The first candidate marked as existing.
pub fn select_existing(cands: &Vec<String>, found: &Vec<bool>) -> (r: Option<String>)
    requires
        found@.len() <= cands@.len(),
    ensures
        match r {
            Some(s) => first_existing(strs_view(cands@), found@) == Some(s@),
            None => first_existing(strs_view(cands@), found@) is None,
        },
{
    let ghost cv = strs_view(cands@);
    let mut i: usize = 0;
    while i < found.len()
        invariant
            i <= found@.len() <= cands@.len(),
            cv == strs_view(cands@),
            first_existing(cv, found@.take(i as int)) is None,
        decreases found.len() - i,
    {
        proof {
            assert(found@.take(i + 1).drop_last() == found@.take(i as int));
        }
        if found[i] {
            proof {
                lemma_first_existing_prefix(cv, found@, i + 1);
            }
            return Some(cands[i].clone());
        }
        i = i + 1;
    }
    proof {
        assert(found@.take(i as int) == found@);
    }
    None
}

/// Extending the probes past the first found one does not change the answer.
proof fn lemma_first_existing_prefix(cands: Seq<Seq<char>>, found: Seq<bool>, k: int)
    requires
        0 <= k <= found.len(),
        first_existing(cands, found.take(k)) is Some,
    ensures
        first_existing(cands, found) == first_existing(cands, found.take(k)),
    decreases found.len() - k,
{
    if k < found.len() {
        assert(found.take(k + 1).drop_last() == found.take(k));
        assert(first_existing(cands, found.take(k + 1)) == first_existing(cands, found.take(k)));
        lemma_first_existing_prefix(cands, found, k + 1);
    } else {
        assert(found.take(k) == found);
    }
}

/// Probes the candidates in order and gives the first that is a file.
fn probe_in_order(cands: &Vec<String>) -> (r: Option<String>)
    ensures
        exists|found: Seq<bool>|
            #[trigger] probed_in_order(strs_view(cands@), found, opt_str(r)),
{
    let ghost cv = strs_view(cands@);
    let mut found: Vec<bool> = Vec::new();
    let mut i: usize = 0;
    let mut hit = false;
    while i < cands.len() && !hit
        invariant
            i <= cands@.len(),
            found@.len() == i,
            cv == strs_view(cands@),
            !hit ==> first_existing(cv, found@) is None,
            hit ==> first_existing(cv, found@) is Some,
        decreases cands.len() - i,
    {
        let f = path_is_file(cands[i].as_str());
        let ghost before = found@;
        found.push(f);
        proof {
            assert(found@.drop_last() == before);
        }
        hit = f;
        i = i + 1;
    }
    let r = select_existing(cands, &found);
    proof {
        assert(probed_in_order(cv, found@, opt_str(r)));
    }
    r
}

/// The view of an optional directory.
pub open spec fn opt_dir(o: Option<&str>) -> Option<Seq<char>> {
    match o {
        Some(d) => Some(d@),
        None => None,
    }
}

/// The views of a sequence of texts.
pub open spec fn strs_view(v: Seq<String>) -> Seq<Seq<char>> {
    v.map_values(|c: String| c@)
}

/// The view of an optional text.
pub open spec fn opt_str(o: Option<String>) -> Option<Seq<char>> {
    match o {
        Some(s) => Some(s@),
        None => None,
    }
}

/// The candidate files for one base path.
fn candidate_files(base: &str, extensions: &Vec<String>) -> (r: Vec<String>)
    requires
        extensions_ok(strs_view(extensions@)),
    ensures
        strs_view(r@) == candidates_for(
            base@,
            strs_view(extensions@),
        ),
{
    let ghost ev = strs_view(extensions@);
    let mut r: Vec<String> = Vec::new();
    r.push(String::from_str(base));
    if !has_extension(base) {
        let mut i: usize = 0;
        while i < extensions.len()
            invariant
                i <= extensions@.len(),
                ev == strs_view(extensions@),
                !path_has_extension(base@),
                extensions_ok(ev),
                strs_view(r@) == seq![base@] + ev.take(i as int).map_values(
                    |e: Seq<char>| path_with_extension(base@, e),
                ),
            decreases extensions.len() - i,
        {
            proof {
                assert(ev[i as int] == extensions@[i as int]@);
            }
            let c = with_extension(base, extensions[i].as_str());
            let ghost before = strs_view(r@);
            r.push(c);
            proof {
                assert(strs_view(r@) =~= before.push(c@));
                assert(ev.take(i + 1) =~= ev.take(i as int).push(extensions@[i as int]@));
                assert(seq![base@] + ev.take(i + 1).map_values(
                    |e: Seq<char>| path_with_extension(base@, e),
                ) =~= (seq![base@] + ev.take(i as int).map_values(
                    |e: Seq<char>| path_with_extension(base@, e),
                )).push(c@));
            }
            i = i + 1;
        }
        proof {
            assert(ev.take(i as int) == ev);
        }
    } else {
        proof {
            assert(strs_view(r@) =~= seq![base@] + Seq::<Seq<char>>::empty());
        }
    }
    r
}

/// Checks whether a candidate path exists as a file, or, when it has no
/// extension, with one of the workspace's extensions.
pub fn check_candidate(path: &str, workspace: &WorkspaceConfig) -> (r: Option<String>)
    requires
        workspace.wf(),
    ensures
        exists|found: Seq<bool>|
            #[trigger] probed_in_order(
                candidates_for(path@, strs_view(workspace.extensions@)),
                found,
                opt_str(r),
            ),
{
    let cands = candidate_files(path, &workspace.extensions);
    probe_in_order(&cands)
}

/// The base paths searched for a target.
fn search_base_paths(target: &str, current_file_dir: Option<&str>, include_dirs: &Vec<String>) -> (r: Vec<String>)
    ensures
        strs_view(r@) == search_bases(
            target@,
            opt_dir(current_file_dir),
            strs_view(include_dirs@),
        ),
{
    let ghost dv = strs_view(include_dirs@);
    let mut r: Vec<String> = Vec::new();
    if is_absolute_path(target) {
        r.push(String::from_str(target));
    }
    if let Some(dir) = current_file_dir {
        r.push(join_path(dir, target));
    }
    let ghost head = strs_view(r@);
    proof {
        assert(head =~= (if path_is_absolute(target@) {
            seq![target@]
        } else {
            Seq::empty()
        }) + (match current_file_dir {
            Some(d) => seq![path_join(d@, target@)],
            None => Seq::<Seq<char>>::empty(),
        }));
    }
    let mut i: usize = 0;
    while i < include_dirs.len()
        invariant
            i <= include_dirs@.len(),
            dv == strs_view(include_dirs@),
            strs_view(r@) == head + dv.take(i as int).map_values(
                |d: Seq<char>| path_join(d, target@),
            ),
        decreases include_dirs.len() - i,
    {
        let c = join_path(include_dirs[i].as_str(), target);
        let ghost before = strs_view(r@);
        r.push(c);
        proof {
            assert(strs_view(r@) =~= before.push(c@));
            assert(dv.take(i + 1) =~= dv.take(i as int).push(include_dirs@[i as int]@));
            assert(head + dv.take(i + 1).map_values(|d: Seq<char>| path_join(d, target@)) =~= (head
                + dv.take(i as int).map_values(|d: Seq<char>| path_join(d, target@))).push(c@));
        }
        i = i + 1;
    }
    proof {
        assert(dv.take(i as int) == dv);
    }
    r
}

/// Search for a required file target:
/// 1. If `target` is absolute, check it.
/// 2. If `current_file_dir` is provided, check relative to it.
/// 3. Check relative to each directory in `include_dirs` in order.
///
/// Each base path is tried as it is and, without an extension, with each
/// workspace extension; the first that is a file is the answer.
pub fn find_required_file(
    target: &str,
    current_file_dir: Option<&str>,
    include_dirs: &Vec<String>,
    workspace: &WorkspaceConfig,
) -> (r: Option<String>)
    requires
        workspace.wf(),
    ensures
        exists|found: Seq<bool>|
            #[trigger] probed_in_order(
                all_candidates(
                    search_bases(
                        target@,
                        opt_dir(current_file_dir),
                        strs_view(include_dirs@),
                    ),
                    strs_view(workspace.extensions@),
                ),
                found,
                opt_str(r),
            ),
{
    let bases = search_base_paths(target, current_file_dir, include_dirs);
    let ghost bv = strs_view(bases@);
    let ghost ev = strs_view(workspace.extensions@);
    let mut cands: Vec<String> = Vec::new();
    let mut i: usize = 0;
    while i < bases.len()
        invariant
            i <= bases@.len(),
            bv == strs_view(bases@),
            ev == strs_view(workspace.extensions@),
            workspace.wf(),
            strs_view(cands@) == all_candidates(bv.take(i as int), ev),
        decreases bases.len() - i,
    {
        let mut more = candidate_files(bases[i].as_str(), &workspace.extensions);
        let ghost before = strs_view(cands@);
        let ghost add = strs_view(more@);
        cands.append(&mut more);
        proof {
            assert(strs_view(cands@) =~= before + add);
            assert(bv.take(i + 1).drop_last() == bv.take(i as int));
            assert(bv.take(i + 1).last() == bases@[i as int]@);
        }
        i = i + 1;
    }
    proof {
        assert(bv.take(i as int) == bv);
    }
    probe_in_order(&cands)
}

// ---------------------------------------------------------------------
// Walking the dependencies
// ---------------------------------------------------------------------
/// What `Path::parent` gives for a path.
pub uninterp spec fn path_parent(p: Seq<char>) -> Option<Seq<char>>;

/// Calls `Path::parent`; its result is named `path_parent`.
#[verifier::external_body]
fn parent_dir(p: &str) -> (r: Option<String>)
    ensures
        opt_str(r) == path_parent(p@),
{
    Path::new(p).parent().map(|d| d.to_string_lossy().into_owned())
}

/// Calls `Path::canonicalize`. The answer depends on the disk, so nothing
/// is stated of it.
#[verifier::external_body]
fn canonical_path(p: &str) -> (r: Option<String>) {
    Path::new(p).canonicalize().ok().map(|c| c.to_string_lossy().into_owned())
}

/// The targets of one file still to resolve, and the file's directory.
struct WalkFrame {
    targets: Vec<String>,
    next: usize,
    dir: Option<String>,
}

/// A pending file as a plain value: its targets, how many of them were
/// taken, and its directory.
pub type FrameView = (Seq<Seq<char>>, int, Option<Seq<char>>);

spec fn frame_view(f: WalkFrame) -> FrameView {
    (strs_view(f.targets@), f.next as int, opt_str(f.dir))
}

spec fn frames_view(fs: Seq<WalkFrame>) -> Seq<FrameView> {
    fs.map_values(|f: WalkFrame| frame_view(f))
}

/// The pending files without the innermost ones whose targets are all taken.
pub open spec fn drop_done(p: Seq<FrameView>) -> Seq<FrameView>
    decreases p.len(),
{
    if p.len() > 0 && p.last().1 >= p.last().0.len() {
        drop_done(p.drop_last())
    } else {
        p
    }
}

/// The next target to look up, with the directory of the file that requires
/// it: the first untaken target of the innermost file that has one.
pub open spec fn next_target(p: Seq<FrameView>) -> Option<(Seq<char>, Option<Seq<char>>)> {
    let q = drop_done(p);
    if q.len() == 0 {
        None
    } else {
        Some((q.last().0[q.last().1], q.last().2))
    }
}

/// The pending files once the next target is taken.
pub open spec fn after_target(p: Seq<FrameView>) -> Seq<FrameView> {
    let q = drop_done(p);
    if q.len() == 0 {
        q
    } else {
        q.update(q.len() - 1, (q.last().0, q.last().1 + 1, q.last().2))
    }
}

/// The pending files once `n` targets are taken.
pub open spec fn after_targets(p: Seq<FrameView>, n: nat) -> Seq<FrameView>
    decreases n,
{
    if n == 0 {
        p
    } else {
        after_target(after_targets(p, (n - 1) as nat))
    }
}

/// No pending file has taken more targets than it has.
pub open spec fn frames_ok(p: Seq<FrameView>) -> bool {
    forall|i: int| 0 <= i < p.len() ==> 0 <= #[trigger] p[i].1 <= p[i].0.len()
}

/// The work left in a walk: the untaken targets and the pending files.
pub open spec fn work_left(p: Seq<FrameView>) -> int
    decreases p.len(),
{
    if p.len() == 0 {
        0
    } else {
        work_left(p.drop_last()) + (p.last().0.len() - p.last().1) + 1
    }
}

proof fn lemma_work_nonneg(p: Seq<FrameView>)
    requires
        frames_ok(p),
    ensures
        work_left(p) >= 0,
    decreases p.len(),
{
    if p.len() > 0 {
        assert(frames_ok(p.drop_last())) by {
            assert forall|i: int| 0 <= i < p.drop_last().len() implies 0 <= #[trigger] p.drop_last()[i].1
                <= p.drop_last()[i].0.len() by {
                assert(p.drop_last()[i] == p[i]);
            }
        }
        lemma_work_nonneg(p.drop_last());
        assert(p.last() == p[p.len() - 1]);
    }
}

/// Taking a target leaves less work, when there is one to take.
proof fn lemma_after_target_work(p: Seq<FrameView>)
    requires
        frames_ok(p),
    ensures
        frames_ok(after_target(p)),
        next_target(p) is Some ==> work_left(after_target(p)) < work_left(p),
        next_target(p) is None ==> after_target(p).len() == 0,
    decreases p.len(),
{
    if p.len() > 0 && p.last().1 >= p.last().0.len() {
        assert(frames_ok(p.drop_last())) by {
            assert forall|i: int| 0 <= i < p.drop_last().len() implies 0 <= #[trigger] p.drop_last()[i].1
                <= p.drop_last()[i].0.len() by {
                assert(p.drop_last()[i] == p[i]);
            }
        }
        lemma_after_target_work(p.drop_last());
        assert(p.last() == p[p.len() - 1]);
        lemma_work_nonneg(p.drop_last());
    } else if p.len() > 0 {
        let q = p.update(p.len() - 1, (p.last().0, p.last().1 + 1, p.last().2));
        assert(q.drop_last() == p.drop_last());
        assert(p.last() == p[p.len() - 1]);
        assert forall|i: int| 0 <= i < q.len() implies 0 <= #[trigger] q[i].1 <= q[i].0.len() by {
            if i < q.len() - 1 {
                assert(q[i] == p[i]);
            }
        }
    }
}

/// What a search for a target can give (see `find_required_file`).
pub open spec fn may_find(
    target: Seq<char>,
    dir: Option<Seq<char>>,
    include_dirs: Seq<Seq<char>>,
    exts: Seq<Seq<char>>,
    r: Option<Seq<char>>,
) -> bool {
    exists|found: Seq<bool>|
        #[trigger] probed_in_order(
            all_candidates(search_bases(target, dir, include_dirs), exts),
            found,
            r,
        )
}

/// The directory of an optional path.
pub open spec fn parent_of(path: Option<Seq<char>>) -> Option<Seq<char>> {
    match path {
        Some(p) => path_parent(p),
        None => None,
    }
}

proof fn lemma_drop_done_frames(fs: Seq<WalkFrame>)
    ensures
        drop_done(frames_view(fs)).len() <= fs.len(),
        drop_done(frames_view(fs)) == frames_view(fs.take(drop_done(frames_view(fs)).len() as int)),
    decreases fs.len(),
{
    if fs.len() > 0 && frames_view(fs).last().1 >= frames_view(fs).last().0.len() {
        assert(frames_view(fs).drop_last() == frames_view(fs.drop_last()));
        lemma_drop_done_frames(fs.drop_last());
        let k = drop_done(frames_view(fs)).len() as int;
        assert(fs.drop_last().take(k) == fs.take(k));
    } else {
        assert(fs.take(fs.len() as int) == fs);
    }
}

/// A depth-first walk through the files that a source requires. Each file
/// is visited once, by its canonical path, so circular requirements end.
pub struct DependencyWalk {
    visited: Vec<String>,
    frames: Vec<WalkFrame>,
}

impl DependencyWalk {
    /// The canonical paths visited so far.
    pub closed spec fn visited(&self) -> Seq<Seq<char>> {
        strs_view(self.visited@)
    }

    /// The files whose targets are still being walked, outermost first.
    pub closed spec fn pending(&self) -> Seq<FrameView> {
        frames_view(self.frames@)
    }

    /// No path is visited twice, and no file has taken more targets than
    /// it has.
    pub closed spec fn wf(&self) -> bool {
        &&& distinct_strs(self.visited@)
        &&& forall|i: int|
            0 <= i < self.frames@.len() ==> #[trigger] self.frames@[i].next
                <= self.frames@[i].targets@.len()
    }

    /// A well-formed walk's pending files have taken no more targets than
    /// they have.
    pub proof fn lemma_wf_frames_ok(&self)
        requires
            self.wf(),
        ensures
            frames_ok(self.pending()),
    {
        assert forall|i: int| 0 <= i < self.pending().len() implies 0 <= #[trigger] self.pending()[i].1
            <= self.pending()[i].0.len() by {
            assert(self.pending()[i] == frame_view(self.frames@[i]));
        }
    }

    /// Starts a walk at a source: the current file (by its canonical path
    /// when it has one) counts as visited, and its targets are pending.
    pub fn new(tokens: &[Token], current_file_path: Option<&str>) -> (r: Self)
        ensures
            r.wf(),
            current_file_path is None ==> r.visited().len() == 0,
            current_file_path is Some ==> r.visited().len() == 1,
            r.pending() == seq![
                (required_targets(tokens_view(tokens@)), 0int, parent_of(opt_dir(current_file_path))),
            ],
    {
        let mut visited: Vec<String> = Vec::new();
        let mut dir: Option<String> = None;
        if let Some(path) = current_file_path {
            match canonical_path(path) {
                Some(c) => visited.push(c),
                None => visited.push(String::from_str(path)),
            }
            dir = parent_dir(path);
        }
        let targets = scan_required_files(tokens);
        let mut frames: Vec<WalkFrame> = Vec::new();
        frames.push(WalkFrame { targets, next: 0, dir });
        let r = DependencyWalk { visited, frames };
        proof {
            assert(r.pending() =~= seq![
                (required_targets(tokens_view(tokens@)), 0int, parent_of(opt_dir(current_file_path))),
            ]);
        }
        r
    }

    /// Starts a walk at a document: lexes its text first.
    pub fn from_document(rope: &Rope, current_file_path: Option<&str>) -> (r: Self)
        ensures
            r.wf(),
            current_file_path is None ==> r.visited().len() == 0,
            current_file_path is Some ==> r.visited().len() == 1,
            r.pending() == seq![
                (required_targets(lexed(rope_text(*rope))), 0int, parent_of(opt_dir(current_file_path))),
            ],
    {
        let text = crate::rope::rope_to_string(rope);
        let tokens = lex(text.as_str());
        Self::new(tokens.as_slice(), current_file_path)
    }

    /// Takes the next target to look up, with the directory of the file
    /// that requires it; `None` when no target is left.
    pub fn take_target(&mut self) -> (r: Option<(String, Option<String>)>)
        requires
            old(self).wf(),
        ensures
            final(self).wf(),
            final(self).visited() == old(self).visited(),
            final(self).pending() == after_target(old(self).pending()),
            match r {
                None => next_target(old(self).pending()) is None,
                Some((t, d)) => next_target(old(self).pending()) == Some((t@, opt_str(d))),
            },
    {
        let mut frames: Vec<WalkFrame> = Vec::new();
        std::mem::swap(&mut frames, &mut self.frames);
        let ghost p0 = frames_view(frames@);
        proof {
            lemma_drop_done_frames(frames@);
        }
        while frames.len() > 0 && frames[frames.len() - 1].next >= frames[frames.len() - 1].targets.len()
            invariant
                drop_done(frames_view(frames@)) == drop_done(p0),
                forall|i: int|
                    0 <= i < frames@.len() ==> #[trigger] frames@[i].next
                        <= frames@[i].targets@.len(),
            decreases frames@.len(),
        {
            let ghost before = frames@;
            frames.pop();
            proof {
                assert(frames_view(before).drop_last() == frames_view(frames@));
                assert(frames_view(before).last() == frame_view(before.last()));
            }
        }
        proof {
            let fv = frames_view(frames@);
            if fv.len() > 0 {
                assert(fv.last() == frame_view(frames@.last()));
            }
            assert(drop_done(fv) == fv);
        }
        if frames.len() == 0 {
            self.frames = frames;
            return None;
        }
        let mut frame = frames.pop().unwrap();
        let target = frame.targets[frame.next].clone();
        let dir = match &frame.dir {
            Some(d) => Some(d.clone()),
            None => None,
        };
        let ghost fv = frame_view(frame);
        proof {
            assert(fv.0[frame.next as int] == frame.targets@[frame.next as int]@);
        }
        frame.next = frame.next + 1;
        frames.push(frame);
        proof {
            let q = drop_done(p0);
            assert(frames_view(frames@) =~= q.update(q.len() - 1, (q.last().0, q.last().1 + 1, q.last().2)));
        }
        self.frames = frames;
        Some((target, dir))
    }

    /// Marks a canonical path visited; false, with nothing changed, when it
    /// already was.
    pub fn mark_visited(&mut self, key: String) -> (r: bool)
        requires
            old(self).wf(),
        ensures
            final(self).wf(),
            final(self).pending() == old(self).pending(),
            r == !old(self).visited().contains(key@),
            r ==> final(self).visited() == old(self).visited().push(key@),
            !r ==> final(self).visited() == old(self).visited(),
    {
        let mut visited: Vec<String> = Vec::new();
        std::mem::swap(&mut visited, &mut self.visited);
        let r = visit(&mut visited, key);
        self.visited = visited;
        r
    }

    /// Records a found file: marks its canonical path (the path itself
    /// when it has none) visited, and gives the file back when it was not
    /// visited before.
    pub fn accept_found(&mut self, found: String) -> (r: Option<String>)
        requires
            old(self).wf(),
        ensures
            final(self).wf(),
            final(self).pending() == old(self).pending(),
            r is None ==> final(self).visited() == old(self).visited(),
            r matches Some(f) ==> f@ == found@ && exists|k: Seq<char>|
                !old(self).visited().contains(k) && final(self).visited() == old(self).visited().push(k),
    {
        let key = match canonical_path(found.as_str()) {
            Some(c) => c,
            None => found.clone(),
        };
        let ghost k = key@;
        if self.mark_visited(key) {
            proof {
                assert(!old(self).visited().contains(k) && self.visited() == old(self).visited().push(k));
            }
            Some(found)
        } else {
            None
        }
    }

    /// The next required file to load: takes targets in turn, looks each
    /// one up, and gives the first found file that was not visited; `None`
    /// when no target is left.
    pub fn next_file(&mut self, include_dirs: &Vec<String>, workspace: &WorkspaceConfig) -> (r: Option<String>)
        requires
            old(self).wf(),
            workspace.wf(),
        ensures
            final(self).wf(),
            r is None ==> next_target(final(self).pending()) is None && final(self).visited()
                == old(self).visited(),
            r is None ==> exists|n: nat| final(self).pending() == after_targets(old(self).pending(), n),
            r matches Some(f) ==> exists|k: Seq<char>|
                !old(self).visited().contains(k) && final(self).visited() == old(self).visited().push(k),
            r matches Some(f) ==> exists|n: nat|
                #![trigger after_targets(old(self).pending(), n)]
                next_target(after_targets(old(self).pending(), n)) matches Some((t, d))
                    && final(self).pending() == after_targets(old(self).pending(), n + 1)
                    && may_find(t, d, strs_view(include_dirs@), strs_view(workspace.extensions@), Some(f@)),
    {
        let ghost start = self.pending();
        let ghost start_visited = self.visited();
        let ghost mut n: nat = 0;
        proof {
            self.lemma_wf_frames_ok();
        }
        loop
            invariant
                self.wf(),
                workspace.wf(),
                self.pending() == after_targets(start, n),
                self.visited() == start_visited,
                start == old(self).pending(),
                start_visited == old(self).visited(),
                frames_ok(self.pending()),
            decreases work_left(self.pending()),
        {
            let ghost before = self.pending();
            proof {
                lemma_after_target_work(before);
                lemma_work_nonneg(before);
            }
            let taken = self.take_target();
            match taken {
                None => {
                    proof {
                        assert(self.pending() == after_targets(start, n + 1));
                        assert(drop_done(self.pending()) == self.pending());
                    }
                    return None;
                },
                Some((target, dir)) => {
                    let dref: Option<&str> = match &dir {
                        Some(d) => Some(d.as_str()),
                        None => None,
                    };
                    proof {
                        assert(opt_dir(dref) == opt_str(dir));
                    }
                    let found = find_required_file(target.as_str(), dref, include_dirs, workspace);
                    if let Some(found_path) = found {
                        let accepted = self.accept_found(found_path);
                        if accepted.is_some() {
                            proof {
                                assert(self.pending() == after_targets(start, n + 1));
                            }
                            return accepted;
                        }
                    }
                    proof {
                        n = n + 1;
                        self.lemma_wf_frames_ok();
                        lemma_work_nonneg(self.pending());
                    }
                },
            }
        }
    }
}

impl DependencyWalk {
    /// Records a loaded file: its text is indexed under `uri`, added to the
    /// open files, and its own requirements are walked next. A file that is
    /// open already is left alone.
    pub fn load(
        &mut self,
        path: &str,
        uri: String,
        content: &str,
        files: &mut Vec<(String, Rope)>,
        def_index: &mut DefinitionIndex,
    )
        requires
            old(self).wf(),
            old(def_index).wf(),
        ensures
            final(self).wf(),
            final(def_index).wf(),
            final(self).visited() == old(self).visited(),
            files_contain(old(files)@, uri@) ==> final(files)@ == old(files)@ && final(self).pending()
                == old(self).pending(),
            !files_contain(old(files)@, uri@) ==> final(self).pending() == old(self).pending().push(
                (required_targets(lexed(content@)), 0int, path_parent(path@)),
            ),
            !files_contain(old(files)@, uri@) ==> final(files)@.len() == old(files)@.len() + 1
                && final(files)@.last().0@ == uri@ && rope_text(final(files)@.last().1) == content@
                && final(files)@.drop_last() == old(files)@,
            ({
                let loaded = !files_contain(old(files)@, uri@);
                let fits = reads_fit(
                    lexed(content@),
                    content@,
                    uri@,
                    without_file::<DefinitionDetails>(old(def_index).defs(), uri@),
                );
                &&& loaded && fits ==> final(def_index).defs() == add_all(
                    without_file::<DefinitionDetails>(old(def_index).defs(), uri@),
                    def_entries(lexed(content@), content@, uri@),
                )
                &&& loaded && fits ==> final(def_index).refs() == add_all(
                    without_file::<Reference>(old(def_index).refs(), uri@),
                    ref_entries(lexed(content@), content@, uri@, final(def_index).defs()),
                )
                &&& loaded && !fits ==> final(def_index).defs() == without_file::<DefinitionDetails>(
                    old(def_index).defs(),
                    uri@,
                ) && final(def_index).refs() == without_file::<Reference>(old(def_index).refs(), uri@)
                &&& !loaded ==> final(def_index).defs() == old(def_index).defs()
                    && final(def_index).refs() == old(def_index).refs()
            }),
    {
        if needs_loading(files, uri.as_str()) {
            let rope = rope_from_str(content);
            let tokens = lex(content);
            def_index.update_file(uri.as_str(), &rope);
            files.push((uri, rope));
            let targets = scan_required_files(tokens.as_slice());
            let dir = parent_dir(path);
            let ghost before = self.frames@;
            self.frames.push(WalkFrame { targets, next: 0, dir });
            proof {
                assert(frames_view(self.frames@) =~= frames_view(before).push(
                    (required_targets(lexed(content@)), 0int, path_parent(path@)),
                ));
            }
        }
    }
}

/// No text occurs twice.
pub open spec fn distinct_strs(v: Seq<String>) -> bool {
    forall|i: int, j: int| 0 <= i < j < v.len() ==> v[i]@ != v[j]@
}

/// Marks a canonical path visited; false when it already was.
fn visit(visited: &mut Vec<String>, key: String) -> (r: bool)
    requires
        distinct_strs(old(visited)@),
    ensures
        distinct_strs(final(visited)@),
        r == !strs_view(old(visited)@).contains(key@),
        r ==> strs_view(final(visited)@) == strs_view(old(visited)@).push(key@),
        !r ==> final(visited)@ == old(visited)@,
{
    if strings_contain(visited, key.as_str()) {
        return false;
    }
    let ghost before = visited@;
    visited.push(key);
    proof {
        assert(strs_view(visited@) =~= strs_view(before).push(key@));
        assert forall|a: int, b: int|
            0 <= a < b < visited@.len() implies visited@[a]@ != visited@[b]@ by {
            assert(visited@[a] == before[a]);
            if b < before.len() {
                assert(visited@[b] == before[b]);
            } else {
                assert(strs_view(before)[a] == before[a]@);
            }
        }
    }
    true
}

/// Whether a list of texts holds a text.
fn strings_contain(v: &Vec<String>, x: &str) -> (r: bool)
    ensures
        r == strs_view(v@).contains(x@),
{
    let mut i: usize = 0;
    while i < v.len()
        invariant
            i <= v@.len(),
            forall|j: int| 0 <= j < i ==> v@[j]@ != x@,
        decreases v.len() - i,
    {
        if crate::text::str_eq(v[i].as_str(), x) {
            proof {
                assert(strs_view(v@)[i as int] == x@);
            }
            return true;
        }
        i = i + 1;
    }
    proof {
        if strs_view(v@).contains(x@) {
            let j = choose|j: int| 0 <= j < strs_view(v@).len() && strs_view(v@)[j] == x@;
            assert(v@[j]@ == x@);
        }
    }
    false
}

/// Some open file has this key.
pub open spec fn files_contain(files: Seq<(String, Rope)>, uri: Seq<char>) -> bool {
    exists|i: int| 0 <= i < files.len() && (#[trigger] files[i]).0@ == uri
}

/// Whether a file still has to be loaded: no open file has its key.
pub fn needs_loading(files: &Vec<(String, Rope)>, uri: &str) -> (r: bool)
    ensures
        r == !files_contain(files@, uri@),
{
    let mut i: usize = 0;
    while i < files.len()
        invariant
            i <= files@.len(),
            forall|j: int| 0 <= j < i ==> (#[trigger] files@[j]).0@ != uri@,
        decreases files.len() - i,
    {
        if crate::text::str_eq(files[i].0.as_str(), uri) {
            return false;
        }
        i = i + 1;
    }
    true
}

/// The URI under which a found file is to be loaded: none when the path
/// has no URI, or when a file with that URI is open already.
pub fn uri_to_load(files: &Vec<(String, Rope)>, found: &str) -> (r: Option<String>)
    ensures
        match r {
            Some(u) => path_uri(found@) == Some(u@) && !files_contain(files@, u@),
            None => match path_uri(found@) {
                Some(u) => files_contain(files@, u),
                None => true,
            },
        },
{
    match path_str_to_uri(found) {
        Some(uri) => {
            if needs_loading(files, uri.as_str()) {
                Some(uri)
            } else {
                None
            }
        },
        None => None,
    }
}

} // verus!
