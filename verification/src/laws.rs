//! Properties of the index that hold across calls.

use crate::definition_index::{
    all_marks, colon_blocks, colon_pass, def_entries, def_key, def_pass, dedup_defs, def_steps,
    ref_entries, ref_pass, DefView, DefinitionDetails, RefView, Reference,
};
use crate::definition_index::{def_locations, DefinitionIndex};
use crate::definition_index::{
    colon_block_named, defines_at, is_constant_word, stack_effect_at, tok_line,
};
use crate::document::{apply_change, change_applies, range_lines_in_bounds};
use crate::rope::{line_count, line_start, line_text};
use crate::include_resolver::{path_join, path_is_absolute, search_bases};
use crate::text::eq_ignore_ascii_case;
use crate::hover::source_lines;
use crate::hover::{dedup_locs, definition_hover, hover_text, Word};
use crate::include_resolver::{
    after_target, after_targets, drop_done, frames_ok, is_dependency_word, next_target,
    required_targets, scan_targets, FrameView,
};
use crate::lexer::{TokenKind, TokenView};
use crate::position::{range_of, Range};
use crate::table::{add_all, add_one, keep_file, without_file, FileEntry};
use crate::text::{is_quote, lowercase, strip_end, strip_pred, strip_quotes, strip_start};
use vstd::prelude::*;

verus! {

proof fn lemma_keep_file_push<V: FileEntry>(s: Seq<V::V>, v: V::V, p: Seq<char>)
    ensures
        keep_file::<V>(s.push(v), p) == if V::file_of(v) != p {
            keep_file::<V>(s, p).push(v)
        } else {
            keep_file::<V>(s, p)
        },
{
    reveal(Seq::filter);
    assert(s.push(v).drop_last() == s);
}

proof fn lemma_keep_file_idempotent<V: FileEntry>(s: Seq<V::V>, p: Seq<char>)
    ensures
        keep_file::<V>(keep_file::<V>(s, p), p) == keep_file::<V>(s, p),
    decreases s.len(),
{
    reveal(Seq::filter);
    if s.len() > 0 {
        lemma_keep_file_idempotent::<V>(s.drop_last(), p);
        lemma_keep_file_push::<V>(keep_file::<V>(s.drop_last(), p), s.last(), p);
    }
}

proof fn lemma_keep_file_excludes<V: FileEntry>(s: Seq<V::V>, p: Seq<char>)
    ensures
        forall|i: int|
            0 <= i < keep_file::<V>(s, p).len() ==> V::file_of(#[trigger] keep_file::<V>(s, p)[i])
                != p,
    decreases s.len(),
{
    reveal(Seq::filter);
    if s.len() > 0 {
        lemma_keep_file_excludes::<V>(s.drop_last(), p);
    }
}

proof fn lemma_without_file_idempotent<V: FileEntry>(m: Map<Seq<char>, Seq<V::V>>, p: Seq<char>)
    ensures
        without_file::<V>(without_file::<V>(m, p), p) == without_file::<V>(m, p),
{
    let w = without_file::<V>(m, p);
    assert forall|k: Seq<char>| w.contains_key(k) implies keep_file::<V>(w[k], p) == w[k] by {
        lemma_keep_file_idempotent::<V>(m[k], p);
    }
    assert(without_file::<V>(w, p) =~= w);
}

proof fn lemma_without_file_add_one<V: FileEntry>(
    m: Map<Seq<char>, Seq<V::V>>,
    k: Seq<char>,
    v: V::V,
    p: Seq<char>,
)
    requires
        V::file_of(v) == p,
    ensures
        without_file::<V>(add_one(m, k, v), p) == without_file::<V>(m, p),
{
    let m2 = add_one(m, k, v);
    let base = if m.contains_key(k) {
        m[k]
    } else {
        Seq::empty()
    };
    lemma_keep_file_push::<V>(base, v, p);
    if !m.contains_key(k) {
        reveal(Seq::filter);
        assert(keep_file::<V>(Seq::<V::V>::empty(), p) =~= Seq::<V::V>::empty());
    }
    assert(without_file::<V>(m2, p) =~= without_file::<V>(m, p));
}

proof fn lemma_without_file_add_all<V: FileEntry>(
    m: Map<Seq<char>, Seq<V::V>>,
    es: Seq<(Seq<char>, V::V)>,
    p: Seq<char>,
)
    requires
        forall|i: int| 0 <= i < es.len() ==> V::file_of(#[trigger] es[i].1) == p,
    ensures
        without_file::<V>(add_all(m, es), p) == without_file::<V>(m, p),
    decreases es.len(),
{
    if es.len() > 0 {
        let init = es.drop_last();
        assert forall|i: int| 0 <= i < init.len() implies V::file_of(#[trigger] init[i].1) == p by {
            assert(init[i] == es[i]);
        }
        lemma_without_file_add_all::<V>(m, init, p);
        assert(V::file_of(es[es.len() - 1].1) == p);
        lemma_without_file_add_one::<V>(add_all(m, init), es.last().0, es.last().1, p);
    }
}

proof fn lemma_colon_pass_file(ts: Seq<TokenView>, s: Seq<char>, p: Seq<char>, n: int)
    ensures
        forall|i: int|
            0 <= i < colon_pass(ts, s, p, n).1.len() ==> (#[trigger] colon_pass(ts, s, p, n).1[i]).1.file
                == p,
    decreases n,
{
    if n > 0 {
        lemma_colon_pass_file(ts, s, p, n - 1);
    }
}

proof fn lemma_def_pass_file(ts: Seq<TokenView>, s: Seq<char>, p: Seq<char>, n: int)
    ensures
        forall|i: int|
            0 <= i < def_pass(ts, s, p, n).1.len() ==> (#[trigger] def_pass(ts, s, p, n).1[i]).1.file
                == p,
    decreases n,
{
    if n > 0 {
        lemma_def_pass_file(ts, s, p, n - 1);
    }
}

proof fn lemma_ref_pass_file(
    ts: Seq<TokenView>,
    s: Seq<char>,
    p: Seq<char>,
    marks: Seq<usize>,
    dm: Map<Seq<char>, Seq<DefView>>,
    n: int,
)
    ensures
        forall|i: int|
            0 <= i < ref_pass(ts, s, p, marks, dm, n).len() ==> (#[trigger] ref_pass(
                ts,
                s,
                p,
                marks,
                dm,
                n,
            )[i]).1.file == p,
    decreases n,
{
    if n > 0 {
        lemma_ref_pass_file(ts, s, p, marks, dm, n - 1);
        let prev = ref_pass(ts, s, p, marks, dm, n - 1);
        let cur = ref_pass(ts, s, p, marks, dm, n);
        assert forall|i: int| #![trigger cur[i]] 0 <= i < cur.len() implies (#[trigger] cur[i]).1.file == p by {
            if i < prev.len() {
                assert(cur[i] == prev[i]);
            }
        }
    }
}

/// Every definition that indexing a file adds belongs to that file.
pub proof fn law_def_entries_belong_to_file(ts: Seq<TokenView>, s: Seq<char>, p: Seq<char>)
    ensures
        forall|i: int|
            0 <= i < def_entries(ts, s, p).len() ==> (#[trigger] def_entries(ts, s, p)[i]).1.file
                == p,
{
    let a = colon_pass(ts, s, p, colon_blocks(ts).len() as int).1;
    let b = def_pass(ts, s, p, def_steps(ts)).1;
    lemma_colon_pass_file(ts, s, p, colon_blocks(ts).len() as int);
    lemma_def_pass_file(ts, s, p, def_steps(ts));
    assert forall|i: int| 0 <= i < def_entries(ts, s, p).len() implies (#[trigger] def_entries(
        ts,
        s,
        p,
    )[i]).1.file == p by {
        if i < a.len() {
            assert(def_entries(ts, s, p)[i] == a[i]);
        } else {
            assert(def_entries(ts, s, p)[i] == b[i - a.len()]);
        }
    }
}

/// Every reference that indexing a file adds belongs to that file.
pub proof fn law_ref_entries_belong_to_file(
    ts: Seq<TokenView>,
    s: Seq<char>,
    p: Seq<char>,
    dm: Map<Seq<char>, Seq<DefView>>,
)
    ensures
        forall|i: int|
            0 <= i < ref_entries(ts, s, p, dm).len() ==> (#[trigger] ref_entries(ts, s, p, dm)[i]).1.file
                == p,
{
    lemma_ref_pass_file(ts, s, p, all_marks(ts, s, p), dm, ts.len() as int);
}

/// Indexing a file leaves the definitions and references of every other
/// file as they were: dropping the file's entries from the old and the new
/// index gives the same maps (so removing a file after indexing it gives
/// what removing it alone gives).
pub proof fn law_update_touches_only_its_file(
    defs: Map<Seq<char>, Seq<DefView>>,
    refs: Map<Seq<char>, Seq<RefView>>,
    ts: Seq<TokenView>,
    s: Seq<char>,
    p: Seq<char>,
)
    ensures
        ({
            let new_defs = add_all(without_file::<DefinitionDetails>(defs, p), def_entries(ts, s, p));
            let new_refs = add_all(
                without_file::<Reference>(refs, p),
                ref_entries(ts, s, p, new_defs),
            );
            &&& without_file::<DefinitionDetails>(new_defs, p) == without_file::<DefinitionDetails>(
                defs,
                p,
            )
            &&& without_file::<Reference>(new_refs, p) == without_file::<Reference>(refs, p)
        }),
{
    let new_defs = add_all(without_file::<DefinitionDetails>(defs, p), def_entries(ts, s, p));
    law_def_entries_belong_to_file(ts, s, p);
    lemma_without_file_add_all::<DefinitionDetails>(
        without_file::<DefinitionDetails>(defs, p),
        def_entries(ts, s, p),
        p,
    );
    lemma_without_file_idempotent::<DefinitionDetails>(defs, p);
    law_ref_entries_belong_to_file(ts, s, p, new_defs);
    lemma_without_file_add_all::<Reference>(
        without_file::<Reference>(refs, p),
        ref_entries(ts, s, p, new_defs),
        p,
    );
    lemma_without_file_idempotent::<Reference>(refs, p);
}

/// Indexing the same file twice with the same text gives the same index as
/// indexing it once.
pub proof fn law_update_idempotent(
    defs: Map<Seq<char>, Seq<DefView>>,
    refs: Map<Seq<char>, Seq<RefView>>,
    ts: Seq<TokenView>,
    s: Seq<char>,
    p: Seq<char>,
)
    ensures
        ({
            let defs1 = add_all(without_file::<DefinitionDetails>(defs, p), def_entries(ts, s, p));
            let refs1 = add_all(without_file::<Reference>(refs, p), ref_entries(ts, s, p, defs1));
            let defs2 = add_all(without_file::<DefinitionDetails>(defs1, p), def_entries(ts, s, p));
            let refs2 = add_all(without_file::<Reference>(refs1, p), ref_entries(ts, s, p, defs2));
            defs2 == defs1 && refs2 == refs1
        }),
{
    law_update_touches_only_its_file(defs, refs, ts, s, p);
}

/// Removing a file leaves no definition or reference of it.
pub proof fn law_remove_file_leaves_none(
    defs: Map<Seq<char>, Seq<DefView>>,
    refs: Map<Seq<char>, Seq<RefView>>,
    p: Seq<char>,
)
    ensures
        forall|k: Seq<char>, i: int|
            without_file::<DefinitionDetails>(defs, p).contains_key(k) && 0 <= i
                < without_file::<DefinitionDetails>(defs, p)[k].len() ==> (#[trigger] without_file::<
                DefinitionDetails,
            >(defs, p)[k][i]).file != p,
        forall|k: Seq<char>, i: int|
            without_file::<Reference>(refs, p).contains_key(k) && 0 <= i < without_file::<Reference>(
                refs,
                p,
            )[k].len() ==> (#[trigger] without_file::<Reference>(refs, p)[k][i]).file != p,
{
    assert forall|k: Seq<char>, i: int|
        without_file::<DefinitionDetails>(defs, p).contains_key(k) && 0 <= i
            < without_file::<DefinitionDetails>(defs, p)[k].len() implies (#[trigger] without_file::<
        DefinitionDetails,
    >(defs, p)[k][i]).file != p by {
        lemma_keep_file_excludes::<DefinitionDetails>(defs[k], p);
    }
    assert forall|k: Seq<char>, i: int|
        without_file::<Reference>(refs, p).contains_key(k) && 0 <= i < without_file::<Reference>(
            refs,
            p,
        )[k].len() implies (#[trigger] without_file::<Reference>(refs, p)[k][i]).file != p by {
        lemma_keep_file_excludes::<Reference>(refs[k], p);
    }
}

proof fn lemma_dedup_subset(ds: Seq<DefView>)
    ensures
        forall|i: int|
            0 <= i < dedup_defs(ds).len() ==> exists|j: int|
                0 <= j < ds.len() && ds[j] == #[trigger] dedup_defs(ds)[i],
    decreases ds.len(),
{
    if ds.len() > 0 {
        lemma_dedup_subset(ds.drop_last());
        let prev = dedup_defs(ds.drop_last());
        assert forall|i: int| 0 <= i < dedup_defs(ds).len() implies exists|j: int|
            0 <= j < ds.len() && ds[j] == #[trigger] dedup_defs(ds)[i] by {
            if i < prev.len() {
                assert(dedup_defs(ds)[i] == prev[i]);
                let j = choose|j: int| 0 <= j < ds.drop_last().len() && ds.drop_last()[j] == prev[i];
                assert(ds[j] == ds.drop_last()[j]);
            } else {
                assert(dedup_defs(ds)[i] == ds.last());
                assert(ds[ds.len() - 1] == ds.last());
            }
        }
    }
}

/// The definitions a lookup reports never share a file name and start
/// position.
pub proof fn law_dedup_distinct(ds: Seq<DefView>)
    ensures
        forall|i: int, j: int|
            0 <= i < j < dedup_defs(ds).len() ==> def_key(dedup_defs(ds)[i]) != def_key(
                dedup_defs(ds)[j],
            ),
    decreases ds.len(),
{
    if ds.len() > 0 {
        let init = ds.drop_last();
        law_dedup_distinct(init);
        lemma_dedup_subset(init);
        let prev = dedup_defs(init);
        let cur = dedup_defs(ds);
        assert forall|i: int, j: int| 0 <= i < j < cur.len() implies def_key(cur[i]) != def_key(
            cur[j],
        ) by {
            if j < prev.len() {
                assert(cur[i] == prev[i]);
                assert(cur[j] == prev[j]);
            } else {
                assert(cur[i] == prev[i]);
                assert(cur[j] == ds.last());
                let q = choose|q: int| 0 <= q < init.len() && init[q] == #[trigger] prev[i];
                assert(ds[q] == init[q]);
            }
        }
    }
}

/// Lookups are case-insensitive: two words with the same lower-case form
/// have the same definitions and references.
pub proof fn law_lookup_case_insensitive(ix: DefinitionIndex, w1: Seq<char>, w2: Seq<char>)
    requires
        lowercase(w1) == lowercase(w2),
    ensures
        ix.defs_of(w1) == ix.defs_of(w2),
        ix.refs_of(w1) == ix.refs_of(w2),
{
}

/// The entry `e` records token `j`: a word or number token that does not
/// name a definition, under its lower-case name and at its range.
pub open spec fn records_token(
    ts: Seq<TokenView>,
    s: Seq<char>,
    marks: Seq<usize>,
    e: (Seq<char>, RefView),
    j: int,
) -> bool {
    &&& 0 <= j < ts.len()
    &&& !marks.contains(ts[j].start)
    &&& (ts[j].kind == TokenKind::Word || ts[j].kind == TokenKind::Number)
    &&& e.0 == lowercase(ts[j].value)
    &&& e.1.range == range_of(s, ts[j].start as int, ts[j].end as int)
}

/// The entry `e` records one of the tokens.
pub open spec fn records_some_token(
    ts: Seq<TokenView>,
    s: Seq<char>,
    marks: Seq<usize>,
    e: (Seq<char>, RefView),
) -> bool {
    exists|j: int| records_token(ts, s, marks, e, j)
}

/// Every reference that indexing a file records is a word or number token
/// that does not name a definition, under its lower-case name and at its
/// range.
pub proof fn law_references_are_unmarked_tokens(
    ts: Seq<TokenView>,
    s: Seq<char>,
    p: Seq<char>,
    dm: Map<Seq<char>, Seq<DefView>>,
)
    ensures
        forall|i: int|
            0 <= i < ref_entries(ts, s, p, dm).len() ==> records_some_token(
                ts,
                s,
                all_marks(ts, s, p),
                #[trigger] ref_entries(ts, s, p, dm)[i],
            ),
{
    let marks = all_marks(ts, s, p);
    assert forall|i: int| 0 <= i < ref_entries(ts, s, p, dm).len() implies records_some_token(
        ts,
        s,
        marks,
        #[trigger] ref_entries(ts, s, p, dm)[i],
    ) by {
        let j = lemma_ref_pass_entry(ts, s, p, marks, dm, ts.len() as int, i);
        assert(records_token(ts, s, marks, ref_entries(ts, s, p, dm)[i], j));
    }
}

/// The `i`-th reference among the first `n` tokens records some token.
proof fn lemma_ref_pass_entry(
    ts: Seq<TokenView>,
    s: Seq<char>,
    p: Seq<char>,
    marks: Seq<usize>,
    dm: Map<Seq<char>, Seq<DefView>>,
    n: int,
    i: int,
) -> (j: int)
    requires
        n <= ts.len(),
        0 <= i < ref_pass(ts, s, p, marks, dm, n).len(),
    ensures
        records_token(ts, s, marks, ref_pass(ts, s, p, marks, dm, n)[i], j),
    decreases n,
{
    let prev = ref_pass(ts, s, p, marks, dm, n - 1);
    if i < prev.len() {
        lemma_ref_pass_entry(ts, s, p, marks, dm, n - 1, i)
    } else {
        n - 1
    }
}

/// A word that has user definitions gets their documentation on hover,
/// whatever the built-in words are.
pub proof fn law_user_definitions_override_builtins(
    word: Seq<char>,
    words1: Seq<Word>,
    words2: Seq<Word>,
    ix: DefinitionIndex,
    files: Option<Seq<(Seq<char>, Seq<char>)>>,
    doc_comments: bool,
)
    requires
        dedup_defs(ix.defs_of(word)).len() > 0,
    ensures
        hover_text(word, words1, Some(ix), files, doc_comments) == hover_text(
            word,
            words2,
            Some(ix),
            files,
            doc_comments,
        ),
{
}

/// With doc comments turned off, the hover text of a user-defined word is
/// its locations and source.
pub proof fn law_hover_without_doc_comments(
    word: Seq<char>,
    words: Seq<Word>,
    ix: DefinitionIndex,
    files: Option<Seq<(Seq<char>, Seq<char>)>>,
)
    requires
        word.len() > 0,
        dedup_defs(ix.defs_of(word)).len() > 0,
    ensures
        hover_text(word, words, Some(ix), files, false) == Some(
            definition_hover(
                word,
                dedup_defs(ix.defs_of(word)),
                dedup_locs(def_locations(dedup_defs(ix.defs_of(word)))),
                files,
            ),
        ),
{
}

/// A change with no range, or with lines outside the document, replaces
/// the whole document with its text.
pub proof fn law_full_sync_replaces_document(s: Seq<char>, r: Option<Range>, text: Seq<char>)
    requires
        r matches Some(range) ==> !range_lines_in_bounds(s, range),
    ensures
        apply_change(s, r, text) == text,
{
}

/// The targets a walk has still to take: those not yet taken, of every
/// pending file.
pub open spec fn untaken(p: Seq<FrameView>) -> int
    decreases p.len(),
{
    if p.len() == 0 {
        0
    } else {
        untaken(p.drop_last()) + (p.last().0.len() - p.last().1)
    }
}

proof fn lemma_frames_ok_prefix(p: Seq<FrameView>, k: int)
    requires
        frames_ok(p),
        0 <= k <= p.len(),
    ensures
        frames_ok(p.take(k)),
{
    assert forall|i: int| 0 <= i < p.take(k).len() implies 0 <= #[trigger] p.take(k)[i].1
        <= p.take(k)[i].0.len() by {
        assert(p.take(k)[i] == p[i]);
    }
}

proof fn lemma_untaken_nonneg(p: Seq<FrameView>)
    requires
        frames_ok(p),
    ensures
        untaken(p) >= 0,
    decreases p.len(),
{
    if p.len() > 0 {
        lemma_frames_ok_prefix(p, p.len() - 1);
        assert(p.take(p.len() - 1) == p.drop_last());
        lemma_untaken_nonneg(p.drop_last());
        assert(p.last() == p[p.len() - 1]);
    }
}

/// Dropping the finished innermost files leaves the untaken targets as they
/// are; there is a next target exactly when some target is untaken.
proof fn lemma_drop_done_untaken(p: Seq<FrameView>)
    requires
        frames_ok(p),
    ensures
        untaken(drop_done(p)) == untaken(p),
        frames_ok(drop_done(p)),
        drop_done(p).len() > 0 <==> untaken(p) > 0,
        drop_done(p).len() > 0 ==> drop_done(p).last().1 < drop_done(p).last().0.len(),
    decreases p.len(),
{
    if p.len() > 0 {
        lemma_frames_ok_prefix(p, p.len() - 1);
        assert(p.take(p.len() - 1) == p.drop_last());
        assert(p.last() == p[p.len() - 1]);
        if p.last().1 >= p.last().0.len() {
            lemma_drop_done_untaken(p.drop_last());
        } else {
            lemma_untaken_nonneg(p.drop_last());
        }
    }
}

/// Taking the next target takes one untaken target.
proof fn lemma_after_target_untaken(p: Seq<FrameView>)
    requires
        frames_ok(p),
        untaken(p) > 0,
    ensures
        untaken(after_target(p)) == untaken(p) - 1,
        frames_ok(after_target(p)),
{
    lemma_drop_done_untaken(p);
    let q = drop_done(p);
    let r = after_target(p);
    assert(r.drop_last() == q.drop_last());
    assert(q.last() == q[q.len() - 1]);
    assert forall|i: int| 0 <= i < r.len() implies 0 <= #[trigger] r[i].1 <= r[i].0.len() by {
        if i < r.len() - 1 {
            assert(r[i] == q[i]);
        }
    }
}

proof fn lemma_after_targets_untaken(p: Seq<FrameView>, k: nat)
    requires
        frames_ok(p),
        k <= untaken(p),
    ensures
        untaken(after_targets(p, k)) == untaken(p) - k,
        frames_ok(after_targets(p, k)),
    decreases k,
{
    if k > 0 {
        lemma_after_targets_untaken(p, (k - 1) as nat);
        lemma_after_target_untaken(after_targets(p, (k - 1) as nat));
    }
}

/// A walk looks up every pending target, each once: taking targets one at
/// a time, there is a next target exactly as many times as targets are
/// untaken, and none after that.
pub proof fn law_walk_takes_every_target(p: Seq<FrameView>, k: nat)
    requires
        frames_ok(p),
    ensures
        untaken(p) >= 0,
        k < untaken(p) ==> next_target(after_targets(p, k)) is Some,
        k == untaken(p) ==> next_target(after_targets(p, k)) is None,
{
    lemma_untaken_nonneg(p);
    if k <= untaken(p) {
        lemma_after_targets_untaken(p, k);
        lemma_drop_done_untaken(after_targets(p, k));
    }
}

/// A file whose requirements are added to a walk (see `DependencyWalk::load`)
/// adds each of them to what the walk has still to take, and the first of
/// them is the next one looked up.
pub proof fn law_loaded_requirements_come_next(
    p: Seq<FrameView>,
    targets: Seq<Seq<char>>,
    dir: Option<Seq<char>>,
)
    requires
        frames_ok(p),
    ensures
        untaken(p.push((targets, 0int, dir))) == untaken(p) + targets.len(),
        targets.len() > 0 ==> next_target(p.push((targets, 0int, dir))) == Some((targets[0], dir)),
{
    assert(p.push((targets, 0int, dir)).drop_last() == p);
}

/// The files a source requires are named by non-empty texts.
pub proof fn law_required_targets_nonempty(ts: Seq<TokenView>)
    ensures
        forall|i: int|
            0 <= i < required_targets(ts).len() ==> (#[trigger] required_targets(ts)[i]).len() > 0,
{
    lemma_scan_targets_nonempty(ts, ts.len() as int);
}

proof fn lemma_scan_targets_nonempty(ts: Seq<TokenView>, n: int)
    ensures
        forall|i: int|
            0 <= i < scan_targets(ts, n).0.len() ==> (#[trigger] scan_targets(ts, n).0[i]).len() > 0,
    decreases n,
{
    if n > 0 {
        lemma_scan_targets_nonempty(ts, n - 1);
        let prev = scan_targets(ts, n - 1).0;
        let cur = scan_targets(ts, n).0;
        assert forall|i: int| 0 <= i < cur.len() implies (#[trigger] cur[i]).len() > 0 by {
            if i < prev.len() {
                assert(cur[i] == prev[i]);
            }
        }
    }
}

/// Every name of the map has at least one entry.
pub open spec fn lists_nonempty<W>(m: Map<Seq<char>, Seq<W>>) -> bool {
    forall|k: Seq<char>| m.contains_key(k) ==> #[trigger] m[k].len() > 0
}

/// The index never keeps a name without entries: dropping a file's entries
/// removes the names left empty, and adding entries leaves each name with
/// at least one.
pub proof fn law_index_lists_nonempty<V: FileEntry>(
    m: Map<Seq<char>, Seq<V::V>>,
    p: Seq<char>,
    es: Seq<(Seq<char>, V::V)>,
)
    requires
        lists_nonempty(m),
    ensures
        lists_nonempty(without_file::<V>(m, p)),
        lists_nonempty(add_all(without_file::<V>(m, p), es)),
{
    lemma_add_all_nonempty(without_file::<V>(m, p), es);
}

proof fn lemma_add_all_nonempty<W>(m: Map<Seq<char>, Seq<W>>, es: Seq<(Seq<char>, W)>)
    requires
        lists_nonempty(m),
    ensures
        lists_nonempty(add_all(m, es)),
    decreases es.len(),
{
    if es.len() > 0 {
        lemma_add_all_nonempty(m, es.drop_last());
        let prev = add_all(m, es.drop_last());
        let e = es.last();
        assert forall|k: Seq<char>| add_one(prev, e.0, e.1).contains_key(k) implies #[trigger] add_one(
            prev,
            e.0,
            e.1,
        )[k].len() > 0 by {
            if k != e.0 {
                assert(prev.contains_key(k));
            }
        }
    }
}

/// The entries of file `g` in a list.
pub open spec fn of_file<V: FileEntry>(s: Seq<V::V>, g: Seq<char>) -> Seq<V::V> {
    s.filter(|v: V::V| V::file_of(v) == g)
}

/// The entries of file `g` recorded under name `k`.
pub open spec fn file_entries<V: FileEntry>(m: Map<Seq<char>, Seq<V::V>>, k: Seq<char>, g: Seq<char>) -> Seq<V::V> {
    if m.contains_key(k) {
        of_file::<V>(m[k], g)
    } else {
        Seq::empty()
    }
}

proof fn lemma_keep_other_file<V: FileEntry>(s: Seq<V::V>, p: Seq<char>, g: Seq<char>)
    requires
        g != p,
    ensures
        of_file::<V>(keep_file::<V>(s, p), g) == of_file::<V>(s, g),
    decreases s.len(),
{
    reveal(Seq::filter);
    if s.len() > 0 {
        lemma_keep_other_file::<V>(s.drop_last(), p, g);
        lemma_keep_file_push::<V>(s.drop_last(), s.last(), p);
        assert(s.drop_last().push(s.last()) == s);
        let k0 = keep_file::<V>(s.drop_last(), p);
        assert(k0.push(s.last()).drop_last() == k0);
    }
}

/// Removing a file leaves the entries of every other file under every
/// name as they were, in the same order.
pub proof fn law_remove_file_keeps_other_files<V: FileEntry>(
    m: Map<Seq<char>, Seq<V::V>>,
    p: Seq<char>,
    g: Seq<char>,
    k: Seq<char>,
)
    requires
        g != p,
    ensures
        file_entries::<V>(without_file::<V>(m, p), k, g) == file_entries::<V>(m, k, g),
{
    if m.contains_key(k) {
        lemma_keep_other_file::<V>(m[k], p, g);
        if keep_file::<V>(m[k], p).len() == 0 {
            reveal(Seq::filter);
            assert(keep_file::<V>(m[k], p) =~= Seq::<V::V>::empty());
            assert(of_file::<V>(Seq::<V::V>::empty(), g) =~= Seq::<V::V>::empty());
        }
    }
}

/// Removing a file a second time changes nothing.
pub proof fn law_remove_file_twice<V: FileEntry>(m: Map<Seq<char>, Seq<V::V>>, p: Seq<char>)
    ensures
        without_file::<V>(without_file::<V>(m, p), p) == without_file::<V>(m, p),
{
    lemma_without_file_idempotent::<V>(m, p);
}

/// The indices of the tokens whose text gives the targets found among the
/// first `n` tokens.
pub open spec fn target_tokens(ts: Seq<TokenView>, n: int) -> Seq<int>
    decreases n,
{
    if n <= 0 {
        Seq::empty()
    } else {
        let prev = target_tokens(ts, n - 1);
        let t = ts[n - 1];
        if scan_targets(ts, n - 1).1 && t.kind == TokenKind::Word && strip_quotes(t.value).len() > 0 {
            prev.push(n - 1)
        } else {
            prev
        }
    }
}

/// Position `j` follows a dependency word (`require`, `include`, `needs`,
/// `fload`, any case) with only comments between.
pub open spec fn after_dependency_word(ts: Seq<TokenView>, j: int) -> bool {
    exists|d: int|
        0 <= d < j && ts[d].kind == TokenKind::Word && is_dependency_word(#[trigger] ts[d].value)
            && forall|m: int|
            d < m < j ==> (#[trigger] ts[m].kind == TokenKind::Comment || ts[m].kind
                == TokenKind::StackComment)
}

proof fn lemma_strip_start_first(s: Seq<char>, q: bool)
    ensures
        strip_start(s, q).len() > 0 ==> !strip_pred(q, strip_start(s, q)[0]),
    decreases s.len(),
{
    if s.len() > 0 && strip_pred(q, s[0]) {
        lemma_strip_start_first(s.drop_first(), q);
    }
}

proof fn lemma_strip_end_prefix(s: Seq<char>, q: bool)
    ensures
        strip_end(s, q).len() <= s.len(),
        strip_end(s, q) == s.subrange(0, strip_end(s, q).len() as int),
        strip_end(s, q).len() > 0 ==> !strip_pred(q, strip_end(s, q).last()),
    decreases s.len(),
{
    if s.len() > 0 && strip_pred(q, s.last()) {
        lemma_strip_end_prefix(s.drop_last(), q);
        let k = strip_end(s, q).len() as int;
        assert(s.drop_last().subrange(0, k) == s.subrange(0, k));
    } else {
        assert(s.subrange(0, s.len() as int) == s);
    }
}

/// A target with its quotes stripped neither starts nor ends with a quote.
proof fn lemma_strip_quotes_ends(s: Seq<char>)
    ensures
        strip_quotes(s).len() > 0 ==> !is_quote(strip_quotes(s)[0]) && !is_quote(
            strip_quotes(s).last(),
        ),
{
    let u = strip_start(s, true);
    lemma_strip_start_first(s, true);
    lemma_strip_end_prefix(u, true);
    let t = strip_end(u, true);
    if t.len() > 0 {
        assert(t[0] == u.subrange(0, t.len() as int)[0]);
    }
}

proof fn lemma_scan_targets_tokens(ts: Seq<TokenView>, n: int)
    requires
        0 <= n <= ts.len(),
    ensures
        target_tokens(ts, n).len() == scan_targets(ts, n).0.len(),
        forall|i: int|
            0 <= i < target_tokens(ts, n).len() ==> {
                let j = #[trigger] target_tokens(ts, n)[i];
                &&& 0 <= j < n
                &&& ts[j].kind == TokenKind::Word
                &&& scan_targets(ts, n).0[i] == strip_quotes(ts[j].value)
                &&& after_dependency_word(ts, j)
            },
        forall|i: int, k: int|
            0 <= i < k < target_tokens(ts, n).len() ==> #[trigger] target_tokens(ts, n)[i]
                < #[trigger] target_tokens(ts, n)[k],
        scan_targets(ts, n).1 ==> after_dependency_word(ts, n),
    decreases n,
{
    if n > 0 {
        lemma_scan_targets_tokens(ts, n - 1);
        let prev = target_tokens(ts, n - 1);
        let cur = target_tokens(ts, n);
        let pacc = scan_targets(ts, n - 1).0;
        let acc = scan_targets(ts, n).0;
        let t = ts[n - 1];
        let waiting = scan_targets(ts, n - 1).1;
        assert forall|i: int| 0 <= i < prev.len() implies cur[i] == prev[i] && acc[i] == pacc[i] by {}
        if scan_targets(ts, n).1 {
            if waiting {
                let d = choose|d: int|
                    0 <= d < n - 1 && ts[d].kind == TokenKind::Word && is_dependency_word(
                        #[trigger] ts[d].value,
                    ) && forall|m: int|
                        d < m < n - 1 ==> (#[trigger] ts[m].kind == TokenKind::Comment
                            || ts[m].kind == TokenKind::StackComment);
                assert forall|m: int| d < m < n implies (#[trigger] ts[m].kind
                    == TokenKind::Comment || ts[m].kind == TokenKind::StackComment) by {}
                assert(is_dependency_word(ts[d].value));
            } else {
                assert forall|m: int| n - 1 < m < n implies (#[trigger] ts[m].kind
                    == TokenKind::Comment || ts[m].kind == TokenKind::StackComment) by {}
                assert(is_dependency_word(ts[n - 1].value));
            }
        }
    }
}

/// The files a source requires come in token order: each is the text of a
/// word that follows a dependency word with only comments between, with
/// its quotes stripped; it is non-empty and neither starts nor ends with a
/// quote.
pub proof fn law_required_targets_in_token_order(ts: Seq<TokenView>)
    ensures
        target_tokens(ts, ts.len() as int).len() == required_targets(ts).len(),
        forall|i: int|
            0 <= i < required_targets(ts).len() ==> {
                let j = #[trigger] target_tokens(ts, ts.len() as int)[i];
                &&& 0 <= j < ts.len()
                &&& ts[j].kind == TokenKind::Word
                &&& after_dependency_word(ts, j)
                &&& required_targets(ts)[i] == strip_quotes(ts[j].value)
            },
        forall|i: int, k: int|
            0 <= i < k < required_targets(ts).len() ==> #[trigger] target_tokens(
                ts,
                ts.len() as int,
            )[i] < #[trigger] target_tokens(ts, ts.len() as int)[k],
        forall|i: int|
            0 <= i < required_targets(ts).len() ==> {
                let t = #[trigger] required_targets(ts)[i];
                t.len() > 0 && !is_quote(t[0]) && !is_quote(t.last())
            },
{
    lemma_scan_targets_tokens(ts, ts.len() as int);
    law_required_targets_nonempty(ts);
    assert forall|i: int| 0 <= i < required_targets(ts).len() implies {
        let t = #[trigger] required_targets(ts)[i];
        t.len() > 0 && !is_quote(t[0]) && !is_quote(t.last())
    } by {
        let j = target_tokens(ts, ts.len() as int)[i];
        lemma_strip_quotes_ends(ts[j].value);
    }
}

proof fn lemma_def_pass_prefix(ts: Seq<TokenView>, s: Seq<char>, p: Seq<char>, m: int, n: int)
    requires
        0 <= m <= n,
    ensures
        def_pass(ts, s, p, m).1.len() <= def_pass(ts, s, p, n).1.len(),
        forall|j: int|
            0 <= j < def_pass(ts, s, p, m).1.len() ==> #[trigger] def_pass(ts, s, p, n).1[j]
                == def_pass(ts, s, p, m).1[j],
    decreases n - m,
{
    if m < n {
        lemma_def_pass_prefix(ts, s, p, m, n - 1);
        assert forall|j: int| 0 <= j < def_pass(ts, s, p, n - 1).1.len() implies #[trigger] def_pass(
            ts,
            s,
            p,
            n,
        ).1[j] == def_pass(ts, s, p, n - 1).1[j] by {}
    }
}

proof fn lemma_colon_pass_prefix(ts: Seq<TokenView>, s: Seq<char>, p: Seq<char>, m: int, n: int)
    requires
        0 <= m <= n,
    ensures
        colon_pass(ts, s, p, m).1.len() <= colon_pass(ts, s, p, n).1.len(),
        forall|j: int|
            0 <= j < colon_pass(ts, s, p, m).1.len() ==> #[trigger] colon_pass(ts, s, p, n).1[j]
                == colon_pass(ts, s, p, m).1[j],
    decreases n - m,
{
    if m < n {
        lemma_colon_pass_prefix(ts, s, p, m, n - 1);
        assert forall|j: int| 0 <= j < colon_pass(ts, s, p, n - 1).1.len() implies #[trigger] colon_pass(
            ts,
            s,
            p,
            n,
        ).1[j] == colon_pass(ts, s, p, n - 1).1[j] by {}
    }
}

/// The definition recorded for the word after the defining word at `i`:
/// under the word's lower-case name, in file `p`, at the word's range, not
/// a colon definition, with the stack comment right after the word (on its
/// line or the next) as stack effect, and a value only for a defining word
/// that defines a constant or value.
pub open spec fn records_defining_word(
    e: (Seq<char>, DefView),
    ts: Seq<TokenView>,
    s: Seq<char>,
    p: Seq<char>,
    i: int,
) -> bool {
    let nt = ts[i + 1];
    &&& e.0 == lowercase(nt.value)
    &&& e.1.file == p
    &&& e.1.range == range_of(s, nt.start as int, nt.end as int)
    &&& !e.1.is_colon_definition
    &&& e.1.stack_effect == stack_effect_at(ts, s, i + 2, tok_line(s, nt))
    &&& (!is_constant_word(ts[i].value) ==> e.1.constant_value is None)
}

/// The definition recorded for the colon block `b`: under its name's
/// lower-case text, in file `p`, at the name's range, a colon definition
/// without a value, with the stack comment right after the name (on its
/// line or the next) as stack effect.
pub open spec fn records_colon_definition(
    e: (Seq<char>, DefView),
    ts: Seq<TokenView>,
    s: Seq<char>,
    p: Seq<char>,
    b: (int, int),
) -> bool {
    let nt = ts[b.0 + 1];
    &&& e.0 == lowercase(nt.value)
    &&& e.1.file == p
    &&& e.1.range == range_of(s, nt.start as int, nt.end as int)
    &&& e.1.is_colon_definition
    &&& e.1.constant_value is None
    &&& e.1.stack_effect == (if b.1 >= b.0 + 2 {
        stack_effect_at(ts, s, b.0 + 2, tok_line(s, nt))
    } else {
        None
    })
}

/// Indexing a file records a definition for each word that follows a
/// defining word (`VARIABLE`, `CONSTANT`, `CREATE`, ...).
pub proof fn law_defining_word_records(ts: Seq<TokenView>, s: Seq<char>, p: Seq<char>, i: int)
    requires
        0 <= i < def_steps(ts),
        defines_at(ts, i),
    ensures
        exists|j: int|
            0 <= j < def_entries(ts, s, p).len() && records_defining_word(
                #[trigger] def_entries(ts, s, p)[j],
                ts,
                s,
                p,
                i,
            ),
{
    let c = colon_pass(ts, s, p, colon_blocks(ts).len() as int).1;
    let k = def_pass(ts, s, p, i).1.len() as int;
    lemma_def_pass_prefix(ts, s, p, i + 1, def_steps(ts));
    assert(def_pass(ts, s, p, def_steps(ts)).1[k] == def_pass(ts, s, p, i + 1).1[k]);
    let j = c.len() + k;
    assert(def_entries(ts, s, p)[j] == def_pass(ts, s, p, def_steps(ts)).1[k]);
    assert(records_defining_word(def_entries(ts, s, p)[j], ts, s, p, i));
}

/// Indexing a file records a definition for each colon block whose second
/// token (a word or number) names it.
pub proof fn law_colon_definition_records(ts: Seq<TokenView>, s: Seq<char>, p: Seq<char>, b: int)
    requires
        0 <= b < colon_blocks(ts).len(),
        colon_block_named(ts, colon_blocks(ts)[b]),
    ensures
        exists|j: int|
            0 <= j < def_entries(ts, s, p).len() && records_colon_definition(
                #[trigger] def_entries(ts, s, p)[j],
                ts,
                s,
                p,
                colon_blocks(ts)[b],
            ),
{
    let n = colon_blocks(ts).len() as int;
    let k = colon_pass(ts, s, p, b).1.len() as int;
    lemma_colon_pass_prefix(ts, s, p, b + 1, n);
    assert(colon_pass(ts, s, p, n).1[k] == colon_pass(ts, s, p, b + 1).1[k]);
    assert(def_entries(ts, s, p)[k] == colon_pass(ts, s, p, n).1[k]);
    assert(records_colon_definition(def_entries(ts, s, p)[k], ts, s, p, colon_blocks(ts)[b]));
}

proof fn lemma_of_file_push<V: FileEntry>(s: Seq<V::V>, v: V::V, g: Seq<char>)
    ensures
        of_file::<V>(s.push(v), g) == if V::file_of(v) == g {
            of_file::<V>(s, g).push(v)
        } else {
            of_file::<V>(s, g)
        },
{
    reveal(Seq::filter);
    assert(s.push(v).drop_last() == s);
}

proof fn lemma_of_file_none<V: FileEntry>(s: Seq<V::V>, g: Seq<char>)
    requires
        forall|i: int| 0 <= i < s.len() ==> V::file_of(#[trigger] s[i]) != g,
    ensures
        of_file::<V>(s, g) == Seq::<V::V>::empty(),
    decreases s.len(),
{
    reveal(Seq::filter);
    if s.len() > 0 {
        lemma_of_file_none::<V>(s.drop_last(), g);
        assert(V::file_of(s[s.len() - 1]) != g);
    } else {
        assert(s.filter(|v: V::V| V::file_of(v) == g) =~= Seq::<V::V>::empty());
    }
}

proof fn lemma_fresh_entries<V: FileEntry>(
    m: Map<Seq<char>, Seq<V::V>>,
    p: Seq<char>,
    es: Seq<(Seq<char>, V::V)>,
    k: Seq<char>,
)
    ensures
        file_entries::<V>(add_all(without_file::<V>(m, p), es), k, p) == file_entries::<V>(
            add_all(Map::<Seq<char>, Seq<V::V>>::empty(), es),
            k,
            p,
        ),
    decreases es.len(),
{
    let w = without_file::<V>(m, p);
    let z = Map::<Seq<char>, Seq<V::V>>::empty();
    if es.len() == 0 {
        if w.contains_key(k) {
            lemma_keep_file_excludes::<V>(m[k], p);
            lemma_of_file_none::<V>(w[k], p);
        }
    } else {
        lemma_fresh_entries::<V>(m, p, es.drop_last(), k);
        let e = es.last();
        let a = add_all(w, es.drop_last());
        let b = add_all(z, es.drop_last());
        if e.0 == k {
            let sa = if a.contains_key(k) { a[k] } else { Seq::empty() };
            let sb = if b.contains_key(k) { b[k] } else { Seq::empty() };
            lemma_of_file_push::<V>(sa, e.1, p);
            lemma_of_file_push::<V>(sb, e.1, p);
            if !a.contains_key(k) {
                reveal(Seq::filter);
                assert(of_file::<V>(Seq::<V::V>::empty(), p) =~= Seq::<V::V>::empty());
            }
            if !b.contains_key(k) {
                reveal(Seq::filter);
                assert(of_file::<V>(Seq::<V::V>::empty(), p) =~= Seq::<V::V>::empty());
            }
        }
    }
}

/// After an update, the entries a file has under each name are exactly
/// those the same update makes on an empty index.
pub proof fn law_update_as_on_fresh_index<V: FileEntry>(
    m: Map<Seq<char>, Seq<V::V>>,
    p: Seq<char>,
    es: Seq<(Seq<char>, V::V)>,
    k: Seq<char>,
)
    ensures
        file_entries::<V>(add_all(without_file::<V>(m, p), es), k, p) == file_entries::<V>(
            add_all(Map::<Seq<char>, Seq<V::V>>::empty(), es),
            k,
            p,
        ),
{
    lemma_fresh_entries::<V>(m, p, es, k);
}

/// A word that follows one of the defining words VARIABLE, CONSTANT,
/// CREATE, VALUE, 2VARIABLE, 2CONSTANT, 2VALUE, FVARIABLE, FCONSTANT,
/// DEFER, BUFFER: or CODE (in any ASCII case) is recorded as a definition.
pub proof fn law_defining_words_define(ts: Seq<TokenView>, s: Seq<char>, p: Seq<char>, i: int)
    requires
        0 <= i,
        i + 1 < ts.len(),
        ts[i].kind == TokenKind::Word,
        ts[i + 1].kind == TokenKind::Word,
        ({
            let v = ts[i].value;
            ||| eq_ignore_ascii_case("VARIABLE"@, v)
            ||| eq_ignore_ascii_case("CONSTANT"@, v)
            ||| eq_ignore_ascii_case("CREATE"@, v)
            ||| eq_ignore_ascii_case("VALUE"@, v)
            ||| eq_ignore_ascii_case("2VARIABLE"@, v)
            ||| eq_ignore_ascii_case("2CONSTANT"@, v)
            ||| eq_ignore_ascii_case("2VALUE"@, v)
            ||| eq_ignore_ascii_case("FVARIABLE"@, v)
            ||| eq_ignore_ascii_case("FCONSTANT"@, v)
            ||| eq_ignore_ascii_case("DEFER"@, v)
            ||| eq_ignore_ascii_case("BUFFER:"@, v)
            ||| eq_ignore_ascii_case("CODE"@, v)
        }),
    ensures
        exists|j: int|
            0 <= j < def_entries(ts, s, p).len() && {
                let e = #[trigger] def_entries(ts, s, p)[j];
                &&& e.0 == lowercase(ts[i + 1].value)
                &&& e.1.file == p
                &&& e.1.range == range_of(s, ts[i + 1].start as int, ts[i + 1].end as int)
                &&& !e.1.is_colon_definition
            },
{
    assert(defines_at(ts, i));
    law_defining_word_records(ts, s, p, i);
    let j = choose|j: int|
        0 <= j < def_entries(ts, s, p).len() && records_defining_word(
            #[trigger] def_entries(ts, s, p)[j],
            ts,
            s,
            p,
            i,
        );
    assert(records_defining_word(def_entries(ts, s, p)[j], ts, s, p, i));
}

/// Text `l` is a line of `s` from line `idx` to `upper`, right-trimmed.
pub open spec fn is_shown_line(s: Seq<char>, l: Seq<char>, idx: int, upper: int) -> bool {
    exists|n: nat|
        idx <= n <= upper && n < line_count(s) && l == strip_end(#[trigger] line_text(s, n), false)
}

/// The source lines shown for a colon definition stop at the line that
/// closes it: no line but the last shown ends with `;` (after trimming its
/// end), and each shown line is a line of the text in the range, right-
/// trimmed, in order.
pub proof fn law_source_lines_stop_at_semicolon(s: Seq<char>, idx: int, upper: int)
    ensures
        forall|k: int|
            0 <= k < source_lines(s, idx, upper).len() - 1 ==> !({
                let l = #[trigger] source_lines(s, idx, upper)[k];
                l.len() > 0 && l.last() == ';'
            }),
        forall|k: int|
            0 <= k < source_lines(s, idx, upper).len() ==> is_shown_line(
                s,
                #[trigger] source_lines(s, idx, upper)[k],
                idx,
                upper,
            ),
    decreases upper - idx + 1,
{
    if idx > upper || idx < 0 {
    } else if idx < line_count(s) {
        law_source_lines_stop_at_semicolon(s, idx + 1, upper);
        let l = strip_end(line_text(s, idx as nat), false);
        let rest = source_lines(s, idx + 1, upper);
        let all = source_lines(s, idx, upper);
        if !(l.len() > 0 && l.last() == ';') {
            assert(all == seq![l] + rest);
            assert forall|k: int| 0 <= k < all.len() - 1 implies !({
                let m = #[trigger] all[k];
                m.len() > 0 && m.last() == ';'
            }) by {
                if k > 0 {
                    assert(all[k] == rest[k - 1]);
                }
            }
            assert forall|k: int| #![trigger all[k]] 0 <= k < all.len() implies is_shown_line(s, all[k], idx, upper) by {
                if k > 0 {
                    assert(all[k] == rest[k - 1]);
                    assert(is_shown_line(s, rest[k - 1], idx + 1, upper));
                } else {
                    assert(all[0] == strip_end(line_text(s, idx as nat), false));
                }
            }
        } else {
            assert(all == seq![l]);
            assert forall|k: int| #![trigger all[k]] 0 <= k < all.len() implies is_shown_line(s, all[k], idx, upper) by {
                assert(k == 0);
                assert(all[0] == strip_end(line_text(s, idx as nat), false));
            }
        }
    } else {
        law_source_lines_stop_at_semicolon(s, idx + 1, upper);
        let all = source_lines(s, idx, upper);
        let rest = source_lines(s, idx + 1, upper);
        assert(all == rest);
        assert forall|k: int| #![trigger all[k]] 0 <= k < all.len() implies is_shown_line(s, all[k], idx, upper) by {
            assert(all[k] == rest[k]);
            assert(is_shown_line(s, rest[k], idx + 1, upper));
        }
    }
}

/// Every include directory is searched, in order, after the target itself
/// (when it is absolute) and the current file's directory: the search
/// bases end with the target joined to each include directory in turn.
pub proof fn law_search_bases_cover_include_dirs(
    target: Seq<char>,
    current_dir: Option<Seq<char>>,
    include_dirs: Seq<Seq<char>>,
)
    ensures
        ({
            let pre = (if path_is_absolute(target) {
                1int
            } else {
                0int
            }) + (if current_dir is Some {
                1int
            } else {
                0int
            });
            &&& search_bases(target, current_dir, include_dirs).len() == pre + include_dirs.len()
            &&& path_is_absolute(target) ==> search_bases(target, current_dir, include_dirs)[0]
                == target
            &&& current_dir matches Some(d) ==> search_bases(target, current_dir, include_dirs)[pre
                - 1] == path_join(d, target)
            &&& forall|i: int|
                0 <= i < include_dirs.len() ==> #[trigger] search_bases(
                    target,
                    current_dir,
                    include_dirs,
                )[pre + i] == path_join(include_dirs[i], target)
        }),
{
}

/// A change whose lines lie within the document replaces exactly the text
/// between its two positions, each read on its own line; it can be applied
/// exactly when those positions are in order within the text.
pub proof fn law_change_replaces_between_positions(s: Seq<char>, r: Range, text: Seq<char>)
    requires
        r.start.line < line_count(s),
        r.end.line < line_count(s),
    ensures
        ({
            let a = line_start(s, r.start.line as nat) + r.start.character;
            let b = line_start(s, r.end.line as nat) + r.end.character;
            &&& change_applies(s, Some(r)) <==> (a <= b <= s.len() && b <= usize::MAX)
            &&& (a <= b <= s.len()) ==> apply_change(s, Some(r), text) == s.subrange(0, a) + text
                + s.subrange(b, s.len() as int)
        }),
{
}

proof fn lemma_eq_ignore_case_trans(a: Seq<char>, b: Seq<char>, c: Seq<char>)
    requires
        eq_ignore_ascii_case(a, b),
        eq_ignore_ascii_case(b, c),
    ensures
        eq_ignore_ascii_case(a, c),
{
    assert forall|i: int| 0 <= i < a.len() implies crate::text::ascii_lower(#[trigger] a[i])
        == crate::text::ascii_lower(c[i]) by {
        assert(crate::text::ascii_lower(a[i]) == crate::text::ascii_lower(b[i]));
        assert(crate::text::ascii_lower(b[i]) == crate::text::ascii_lower(c[i]));
    }
}

proof fn lemma_eq_ignore_case_sym(a: Seq<char>, b: Seq<char>)
    requires
        eq_ignore_ascii_case(a, b),
    ensures
        eq_ignore_ascii_case(b, a),
{
    assert forall|i: int| 0 <= i < b.len() implies crate::text::ascii_lower(#[trigger] b[i])
        == crate::text::ascii_lower(a[i]) by {
        assert(crate::text::ascii_lower(a[i]) == crate::text::ascii_lower(b[i]));
    }
}

/// Recognising a dependency word ignores ASCII case, and `require`,
/// `include`, `needs` and `fload` are dependency words.
pub proof fn law_dependency_words_ignore_case(v: Seq<char>, w: Seq<char>)
    ensures
        eq_ignore_ascii_case(v, w) ==> is_dependency_word(v) == is_dependency_word(w),
        is_dependency_word("require"@),
        is_dependency_word(seq!['i', 'n', 'c', 'l', 'u', 'd', 'e']),
        is_dependency_word("needs"@),
        is_dependency_word("fload"@),
{
    if eq_ignore_ascii_case(v, w) {
        lemma_eq_ignore_case_sym(v, w);
        let lits = seq!["require"@, seq!['i', 'n', 'c', 'l', 'u', 'd', 'e'], "needs"@, "fload"@];
        assert forall|k: int| 0 <= k < 4 implies (eq_ignore_ascii_case(#[trigger] lits[k], v)
            <==> eq_ignore_ascii_case(lits[k], w)) by {
            if eq_ignore_ascii_case(lits[k], v) {
                lemma_eq_ignore_case_trans(lits[k], v, w);
            }
            if eq_ignore_ascii_case(lits[k], w) {
                lemma_eq_ignore_case_trans(lits[k], w, v);
            }
        }
        assert(eq_ignore_ascii_case(lits[0], v) <==> eq_ignore_ascii_case(lits[0], w));
        assert(eq_ignore_ascii_case(lits[1], v) <==> eq_ignore_ascii_case(lits[1], w));
        assert(eq_ignore_ascii_case(lits[2], v) <==> eq_ignore_ascii_case(lits[2], w));
        assert(eq_ignore_ascii_case(lits[3], v) <==> eq_ignore_ascii_case(lits[3], w));
    }
}

} // verus!
