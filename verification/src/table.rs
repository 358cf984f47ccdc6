//! A table from text keys to non-empty lists of entries, each entry tagged
//! with the file it comes from. Its model is a `Map` from keys to the
//! sequences of entry views.

use crate::text::str_eq;
use vstd::prelude::*;

verus! {

/// An entry that records the file it comes from.
pub trait FileEntry: View + Sized {
    spec fn file_of(v: Self::V) -> Seq<char>;

    fn file(&self) -> (r: &String)
        ensures
            r@ == Self::file_of(self@),
    ;

    fn duplicate(&self) -> (r: Self)
        ensures
            r@ == self@,
    ;
}

/// The views of a sequence of entries.
pub open spec fn vals<V: View>(v: Seq<V>) -> Seq<V::V> {
    v.map_values(|x: V| x@)
}

/// The view of a table row.
pub open spec fn row_view<V: View>(e: (String, Vec<V>)) -> (Seq<char>, Seq<V::V>) {
    (e.0@, vals(e.1@))
}

/// The views of the rows of a table.
pub open spec fn rows_view<V: View>(t: Seq<(String, Vec<V>)>) -> Seq<(Seq<char>, Seq<V::V>)> {
    t.map_values(|e: (String, Vec<V>)| row_view(e))
}

/// The map that a sequence of key/value pairs stands for (later pairs win).
pub open spec fn pairs_map<K, W>(t: Seq<(K, W)>) -> Map<K, W>
    decreases t.len(),
{
    if t.len() == 0 {
        Map::empty()
    } else {
        pairs_map(t.drop_last()).insert(t.last().0, t.last().1)
    }
}

/// No key occurs twice.
pub open spec fn keys_distinct<K, W>(t: Seq<(K, W)>) -> bool {
    forall|i: int, j: int| 0 <= i < t.len() && 0 <= j < t.len() && i != j ==> t[i].0 != t[j].0
}

/// Appends one value to the list of a key.
pub open spec fn add_one<W>(m: Map<Seq<char>, Seq<W>>, k: Seq<char>, v: W) -> Map<
    Seq<char>,
    Seq<W>,
> {
    m.insert(
        k,
        if m.contains_key(k) {
            m[k]
        } else {
            Seq::empty()
        }.push(v),
    )
}

/// Appends each of the key/value pairs in turn.
pub open spec fn add_all<W>(m: Map<Seq<char>, Seq<W>>, es: Seq<(Seq<char>, W)>) -> Map<
    Seq<char>,
    Seq<W>,
>
    decreases es.len(),
{
    if es.len() == 0 {
        m
    } else {
        let e = es.last();
        add_one(add_all(m, es.drop_last()), e.0, e.1)
    }
}

/// The map with every entry of file `p` left out, and the keys whose lists
/// become empty dropped.
pub open spec fn without_file<V: FileEntry>(m: Map<Seq<char>, Seq<V::V>>, p: Seq<char>) -> Map<
    Seq<char>,
    Seq<V::V>,
> {
    Map::new(
        |k: Seq<char>| m.contains_key(k) && keep_file::<V>(m[k], p).len() > 0,
        |k: Seq<char>| keep_file::<V>(m[k], p),
    )
}

/// The entries that do not come from file `p`.
pub open spec fn keep_file<V: FileEntry>(s: Seq<V::V>, p: Seq<char>) -> Seq<V::V> {
    s.filter(|v: V::V| V::file_of(v) != p)
}

pub proof fn lemma_pairs_map_dom<K, W>(t: Seq<(K, W)>, k: K)
    ensures
        pairs_map(t).contains_key(k) <==> exists|i: int| 0 <= i < t.len() && t[i].0 == k,
    decreases t.len(),
{
    if t.len() > 0 {
        lemma_pairs_map_dom(t.drop_last(), k);
        if pairs_map(t).contains_key(k) && t.last().0 != k {
            let i = choose|i: int| 0 <= i < t.drop_last().len() && t.drop_last()[i].0 == k;
            assert(t[i].0 == k);
        }
        if exists|i: int| 0 <= i < t.len() && t[i].0 == k {
            let i = choose|i: int| 0 <= i < t.len() && t[i].0 == k;
            if i < t.len() - 1 {
                assert(t.drop_last()[i].0 == k);
            }
        }
    }
}

pub proof fn lemma_pairs_map_val<K, W>(t: Seq<(K, W)>, i: int)
    requires
        keys_distinct(t),
        0 <= i < t.len(),
    ensures
        pairs_map(t).contains_key(t[i].0),
        pairs_map(t)[t[i].0] == t[i].1,
    decreases t.len(),
{
    if i < t.len() - 1 {
        lemma_pairs_map_val(t.drop_last(), i);
        assert(t.drop_last()[i] == t[i]);
    }
}

pub proof fn lemma_pairs_map_update<K, W>(t: Seq<(K, W)>, i: int, w: W)
    requires
        keys_distinct(t),
        0 <= i < t.len(),
    ensures
        pairs_map(t.update(i, (t[i].0, w))) == pairs_map(t).insert(t[i].0, w),
    decreases t.len(),
{
    let u = t.update(i, (t[i].0, w));
    if i == t.len() - 1 {
        assert(u.drop_last() == t.drop_last());
    } else {
        lemma_pairs_map_update(t.drop_last(), i, w);
        assert(u.drop_last() == t.drop_last().update(i, (t[i].0, w)));
        assert(t.last().0 != t[i].0);
        assert(pairs_map(u) =~= pairs_map(t).insert(t[i].0, w));
    }
}

/// A table from keys to non-empty lists of entries.
pub struct Table<V> {
    pub rows: Vec<(String, Vec<V>)>,
}

impl<V: FileEntry> Table<V> {
    /// The map from each key to the views of its entries.
    pub open spec fn map(&self) -> Map<Seq<char>, Seq<V::V>> {
        pairs_map(rows_view(self.rows@))
    }

    /// Keys are distinct and no list is empty.
    pub open spec fn wf(&self) -> bool {
        &&& keys_distinct(rows_view(self.rows@))
        &&& forall|i: int| 0 <= i < self.rows@.len() ==> #[trigger] self.rows@[i].1@.len() > 0
    }

    pub fn new() -> (t: Self)
        ensures
            t.wf(),
            t.map() == Map::<Seq<char>, Seq<V::V>>::empty(),
    {
        let t = Table { rows: Vec::new() };
        assert(rows_view(t.rows@) =~= Seq::empty());
        t
    }

    /// The row holding a key, if any.
    pub fn find_row(&self, key: &str) -> (r: Option<usize>)
        requires
            self.wf(),
        ensures
            r matches Some(i) ==> i < self.rows@.len() && self.rows@[i as int].0@ == key@,
            r is None ==> !self.map().contains_key(key@),
            self.map().contains_key(key@) == r is Some,
    {
        let mut i: usize = 0;
        while i < self.rows.len()
            invariant
                i <= self.rows@.len(),
                forall|j: int| 0 <= j < i ==> #[trigger] self.rows@[j].0@ != key@,
            decreases self.rows.len() - i,
        {
            if str_eq(self.rows[i].0.as_str(), key) {
                proof {
                    assert(rows_view(self.rows@)[i as int].0 == key@);
                    lemma_pairs_map_dom(rows_view(self.rows@), key@);
                }
                return Some(i);
            }
            i = i + 1;
        }
        proof {
            lemma_pairs_map_dom(rows_view(self.rows@), key@);
            if self.map().contains_key(key@) {
                let j = choose|j: int|
                    0 <= j < rows_view(self.rows@).len() && rows_view(self.rows@)[j].0 == key@;
                assert(self.rows@[j].0@ == key@);
            }
        }
        None
    }

    /// The entries of a key (empty when the key is absent).
    pub fn get(&self, key: &str) -> (r: &[V])
        requires
            self.wf(),
        ensures
            self.map().contains_key(key@) ==> vals(r@) == self.map()[key@],
            !self.map().contains_key(key@) ==> r@.len() == 0,
    {
        match self.find_row(key) {
            Some(i) => {
                proof {
                    lemma_pairs_map_val(rows_view(self.rows@), i as int);
                }
                self.rows[i].1.as_slice()
            },
            None => &[],
        }
    }

    /// Whether the table holds a key.
    pub fn contains_key(&self, key: &str) -> (r: bool)
        requires
            self.wf(),
        ensures
            r == self.map().contains_key(key@),
    {
        self.find_row(key).is_some()
    }

    /// Appends an entry to the list of its key.
    pub fn push(&mut self, key: String, v: V)
        requires
            old(self).wf(),
        ensures
            final(self).wf(),
            final(self).map() == add_one(old(self).map(), key@, v@),
    {
        let ghost old_rows = rows_view(self.rows@);
        match self.find_row(key.as_str()) {
            Some(i) => {
                proof {
                    lemma_pairs_map_val(old_rows, i as int);
                }
                let (k, mut vs) = self.rows.remove(i);
                let ghost old_vs = vs@;
                vs.push(v);
                proof {
                    assert(vals(vs@) == vals(old_vs).push(v@));
                }
                self.rows.insert(i, (k, vs));
                proof {
                    assert(rows_view(self.rows@) =~= old_rows.update(
                        i as int,
                        (old_rows[i as int].0, vals(vs@)),
                    ));
                    lemma_pairs_map_update(old_rows, i as int, vals(vs@));
                    assert forall|a: int, b: int|
                        0 <= a < rows_view(self.rows@).len() && 0 <= b < rows_view(
                            self.rows@,
                        ).len() && a != b implies rows_view(self.rows@)[a].0 != rows_view(
                        self.rows@,
                    )[b].0 by {
                        assert(rows_view(self.rows@)[a].0 == old_rows[a].0);
                        assert(rows_view(self.rows@)[b].0 == old_rows[b].0);
                    }
                    assert forall|j: int| 0 <= j < self.rows@.len() implies #[trigger] self.rows@[
                        j
                    ].1@.len() > 0 by {
                        if j != i {
                            assert(self.rows@[j] == old(self).rows@[j]);
                        }
                    }
                }
            },
            None => {
                let mut vs: Vec<V> = Vec::new();
                vs.push(v);
                proof {
                    lemma_pairs_map_dom(old_rows, key@);
                }
                self.rows.push((key, vs));
                proof {
                    assert(rows_view(self.rows@).drop_last() =~= old_rows);
                    assert(vals(vs@) =~= seq![v@]);
                    assert forall|a: int, b: int|
                        0 <= a < rows_view(self.rows@).len() && 0 <= b < rows_view(
                            self.rows@,
                        ).len() && a != b implies rows_view(self.rows@)[a].0 != rows_view(
                        self.rows@,
                    )[b].0 by {
                        if a < old_rows.len() && b < old_rows.len() {
                            assert(rows_view(self.rows@)[a].0 == old_rows[a].0);
                            assert(rows_view(self.rows@)[b].0 == old_rows[b].0);
                        } else if a < old_rows.len() {
                            assert(rows_view(self.rows@)[a].0 == old_rows[a].0);
                        } else {
                            assert(rows_view(self.rows@)[b].0 == old_rows[b].0);
                        }
                    }
                    assert forall|j: int| 0 <= j < self.rows@.len() implies #[trigger] self.rows@[
                        j
                    ].1@.len() > 0 by {
                        if j < old_rows.len() {
                            assert(self.rows@[j] == old(self).rows@[j]);
                        }
                    }
                }
            },
        }
    }

    /// Appends each key/entry pair in turn.
    pub fn push_all(&mut self, es: &Vec<(String, V)>)
        requires
            old(self).wf(),
        ensures
            final(self).wf(),
            final(self).map() == add_all(
                old(self).map(),
                es@.map_values(|e: (String, V)| (e.0@, e.1@)),
            ),
    {
        let ghost ev = es@.map_values(|e: (String, V)| (e.0@, e.1@));
        let ghost base = self.map();
        let mut k: usize = 0;
        while k < es.len()
            invariant
                k <= es@.len(),
                ev == es@.map_values(|e: (String, V)| (e.0@, e.1@)),
                self.wf(),
                self.map() == add_all(base, ev.take(k as int)),
            decreases es.len() - k,
        {
            let e = &es[k];
            proof {
                assert(ev.take(k + 1).drop_last() == ev.take(k as int));
                assert(ev.take(k + 1).last() == (e.0@, e.1@));
            }
            self.push(e.0.clone(), e.1.duplicate());
            k = k + 1;
        }
        proof {
            assert(ev.take(k as int) == ev);
        }
    }

    /// Drops every entry of a file, and the keys left without entries.
    pub fn remove_file(&mut self, path: &str)
        requires
            old(self).wf(),
        ensures
            final(self).wf(),
            final(self).map() == without_file::<V>(old(self).map(), path@),
    {
        let ghost old_rows = rows_view(self.rows@);
        let mut rows: Vec<(String, Vec<V>)> = Vec::new();
        let mut i: usize = 0;
        while i < self.rows.len()
            invariant
                i <= self.rows@.len(),
                old_rows == rows_view(self.rows@),
                keys_distinct(old_rows),
                keys_distinct(rows_view(rows@)),
                forall|j: int| 0 <= j < rows@.len() ==> #[trigger] rows@[j].1@.len() > 0,
                forall|j: int|
                    0 <= j < rows@.len() ==> exists|m: int|
                        0 <= m < i && #[trigger] rows_view(rows@)[j].0 == old_rows[m].0,
                pairs_map(rows_view(rows@)) == without_file::<V>(
                    pairs_map(old_rows.take(i as int)),
                    path@,
                ),
            decreases self.rows.len() - i,
        {
            let row = &self.rows[i];
            let mut kept: Vec<V> = Vec::new();
            let mut j: usize = 0;
            while j < row.1.len()
                invariant
                    j <= row.1@.len(),
                    vals(kept@) == keep_file::<V>(vals(row.1@.take(j as int)), path@),
                decreases row.1.len() - j,
            {
                let v = &row.1[j];
                proof {
                    assert(vals(row.1@.take(j + 1)).drop_last() == vals(row.1@.take(j as int)));
                    assert(vals(row.1@.take(j + 1)).last() == v@);
                }
                let ghost prev = vals(row.1@.take(j as int));
                let ghost cur = vals(row.1@.take(j + 1));
                proof {
                    reveal(Seq::filter);
                    assert(cur.drop_last() == prev);
                    assert(keep_file::<V>(cur, path@) == if V::file_of(v@) != path@ {
                        keep_file::<V>(prev, path@).push(v@)
                    } else {
                        keep_file::<V>(prev, path@)
                    });
                }
                if !str_eq(v.file().as_str(), path) {
                    let ghost before = kept@;
                    kept.push(v.duplicate());
                    proof {
                        assert(vals(kept@) =~= vals(before).push(v@));
                    }
                }
                j = j + 1;
            }
            proof {
                assert(row.1@.take(row.1@.len() as int) == row.1@);
            }
            let ghost prefix = old_rows.take(i as int);
            let ghost m0 = pairs_map(prefix);
            let ghost k = old_rows[i as int].0;
            proof {
                assert(old_rows.take(i + 1).drop_last() == prefix);
                assert(old_rows.take(i + 1).last() == old_rows[i as int]);
                lemma_pairs_map_dom(prefix, k);
                if m0.contains_key(k) {
                    let m = choose|m: int| 0 <= m < prefix.len() && prefix[m].0 == k;
                    assert(old_rows[m].0 == k);
                }
                assert(!m0.contains_key(k));
            }
            if kept.len() > 0 {
                let ghost before = rows_view(rows@);
                rows.push((row.0.clone(), kept));
                proof {
                    assert(rows_view(rows@).drop_last() =~= before);
                    lemma_pairs_map_dom(before, k);
                    assert forall|a: int, b: int|
                        0 <= a < rows_view(rows@).len() && 0 <= b < rows_view(rows@).len() && a
                            != b implies rows_view(rows@)[a].0 != rows_view(rows@)[b].0 by {
                        if a < before.len() {
                            assert(rows_view(rows@)[a] == before[a]);
                        }
                        if b < before.len() {
                            assert(rows_view(rows@)[b] == before[b]);
                        }
                        if a == before.len() {
                            let m = choose|m: int|
                                0 <= m < i && #[trigger] rows_view(rows@)[b].0 == old_rows[m].0;
                        }
                        if b == before.len() {
                            let m = choose|m: int|
                                0 <= m < i && #[trigger] rows_view(rows@)[a].0 == old_rows[m].0;
                        }
                    }
                    assert forall|j: int| 0 <= j < rows_view(rows@).len() implies exists|m: int|
                        0 <= m < i + 1 && #[trigger] rows_view(rows@)[j].0 == old_rows[m].0 by {
                        if j < before.len() {
                            assert(rows_view(rows@)[j] == before[j]);
                            let m = choose|m: int|
                                0 <= m < i && #[trigger] before[j].0 == old_rows[m].0;
                        } else {
                            assert(rows_view(rows@)[j].0 == old_rows[i as int].0);
                        }
                    }
                    assert forall|j: int| 0 <= j < rows@.len() implies #[trigger] rows@[
                        j
                    ].1@.len() > 0 by {
                        if j < before.len() {
                            assert(rows@[j] == rows@.drop_last()[j]);
                        }
                    }
                    assert(pairs_map(rows_view(rows@)) =~= without_file::<V>(
                        pairs_map(old_rows.take(i + 1)),
                        path@,
                    ));
                }
            } else {
                proof {
                    assert(pairs_map(rows_view(rows@)) =~= without_file::<V>(
                        pairs_map(old_rows.take(i + 1)),
                        path@,
                    ));
                    assert forall|j: int| 0 <= j < rows@.len() implies exists|m: int|
                        0 <= m < i + 1 && #[trigger] rows_view(rows@)[j].0 == old_rows[m].0 by {
                        let m = choose|m: int|
                            0 <= m < i && #[trigger] rows_view(rows@)[j].0 == old_rows[m].0;
                    }
                }
            }
            i = i + 1;
        }
        proof {
            assert(old_rows.take(i as int) == old_rows);
        }
        self.rows = rows;
    }

    /// The keys of the table, each once.
    pub fn keys(&self) -> (r: Vec<String>)
        requires
            self.wf(),
        ensures
            r@.len() == self.map().dom().len(),
            forall|k: Seq<char>|
                self.map().contains_key(k) <==> exists|i: int|
                    0 <= i < r@.len() && #[trigger] r@[i]@ == k,
            forall|i: int, j: int| 0 <= i < j < r@.len() ==> r@[i]@ != r@[j]@,
    {
        let mut r: Vec<String> = Vec::new();
        let mut i: usize = 0;
        while i < self.rows.len()
            invariant
                i <= self.rows@.len(),
                r@.len() == i,
                forall|j: int| 0 <= j < i ==> #[trigger] r@[j]@ == self.rows@[j].0@,
            decreases self.rows.len() - i,
        {
            r.push(self.rows[i].0.clone());
            i = i + 1;
        }
        proof {
            let rv = rows_view(self.rows@);
            assert forall|k: Seq<char>|
                self.map().contains_key(k) <==> exists|i: int|
                    0 <= i < r@.len() && #[trigger] r@[i]@ == k by {
                lemma_pairs_map_dom(rv, k);
                if self.map().contains_key(k) {
                    let m = choose|m: int| 0 <= m < rv.len() && rv[m].0 == k;
                    assert(r@[m]@ == k);
                }
                if exists|i: int| 0 <= i < r@.len() && #[trigger] r@[i]@ == k {
                    let m = choose|i: int| 0 <= i < r@.len() && #[trigger] r@[i]@ == k;
                    assert(rv[m].0 == k);
                }
            }
            assert forall|a: int, b: int| 0 <= a < b < r@.len() implies r@[a]@ != r@[b]@ by {
                assert(rv[a].0 == r@[a]@);
                assert(rv[b].0 == r@[b]@);
            }
            lemma_keys_len(rv);
        }
        r
    }
}

/// The map of distinct keys has as many keys as there are pairs.
pub proof fn lemma_keys_len<K, W>(t: Seq<(K, W)>)
    requires
        keys_distinct(t),
    ensures
        pairs_map(t).dom().finite(),
        pairs_map(t).dom().len() == t.len(),
    decreases t.len(),
{
    if t.len() > 0 {
        let u = t.drop_last();
        assert(keys_distinct(u)) by {
            assert forall|i: int, j: int|
                0 <= i < u.len() && 0 <= j < u.len() && i != j implies u[i].0 != u[j].0 by {
                assert(u[i] == t[i]);
                assert(u[j] == t[j]);
            }
        }
        lemma_keys_len(u);
        lemma_pairs_map_dom(u, t.last().0);
        if pairs_map(u).contains_key(t.last().0) {
            let m = choose|m: int| 0 <= m < u.len() && u[m].0 == t.last().0;
            assert(t[m].0 == t[t.len() - 1].0);
        }
    }
}

} // verus!
