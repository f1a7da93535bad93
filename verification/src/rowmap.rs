//! Sparse, ordered storage for one column: a mapping from row ids to values,
//! kept as a vector of `(key, value)` pairs with strictly increasing keys.

use vstd::prelude::*;

verus! {

/// Do the keys of `s` increase strictly from left to right?
pub open spec fn entries_sorted<V>(s: Seq<(usize, V)>) -> bool {
    forall|i: int, j: int| 0 <= i < j < s.len() ==> s[i].0 < s[j].0
}

/// The value stored at key `k` in the entry sequence `s`, if any.
pub open spec fn slookup<V>(s: Seq<(usize, V)>, k: usize) -> Option<V>
    decreases s.len(),
{
    if s.len() == 0 {
        None
    } else if s[0].0 == k {
        Some(s[0].1)
    } else {
        slookup(s.drop_first(), k)
    }
}

/// Does the entry sequence `s` hold a value at key `k`?
pub open spec fn has_key<V>(s: Seq<(usize, V)>, k: usize) -> bool {
    slookup(s, k) is Some
}

/// `s` with the value at `k` set to `v`: an existing entry is replaced, a
/// missing one is inserted in key order.
pub open spec fn seq_upsert<V>(s: Seq<(usize, V)>, k: usize, v: V) -> Seq<(usize, V)>
    decreases s.len(),
{
    if s.len() == 0 {
        seq![(k, v)]
    } else if k < s[0].0 {
        seq![(k, v)] + s
    } else if k == s[0].0 {
        seq![(k, v)] + s.drop_first()
    } else {
        seq![s[0]] + seq_upsert(s.drop_first(), k, v)
    }
}

/// `s` without the entry at key `k`, if there was one.
pub open spec fn seq_remove<V>(s: Seq<(usize, V)>, k: usize) -> Seq<(usize, V)>
    decreases s.len(),
{
    if s.len() == 0 {
        s
    } else if s[0].0 == k {
        s.drop_first()
    } else {
        seq![s[0]] + seq_remove(s.drop_first(), k)
    }
}

/// The keys of `s`, in entry order.
pub open spec fn keys_of<V>(s: Seq<(usize, V)>) -> Seq<usize> {
    s.map_values(|p: (usize, V)| p.0)
}

/// The largest key of `s`, or 0 when `s` is empty; for sorted entries this is
/// the key of the last entry.
pub open spec fn max_key_of<V>(s: Seq<(usize, V)>) -> usize {
    if s.len() == 0 {
        0
    } else {
        s.last().0
    }
}

/// The entries of `s` whose key occurs in `keep`.
pub open spec fn seq_retain<V>(s: Seq<(usize, V)>, keep: Seq<usize>) -> Seq<(usize, V)>
    decreases s.len(),
{
    if s.len() == 0 {
        s
    } else if keep.contains(s[0].0) {
        seq![s[0]] + seq_retain(s.drop_first(), keep)
    } else {
        seq_retain(s.drop_first(), keep)
    }
}

/// In a sorted entry sequence, `slookup` finds the entry at index `i`.
pub proof fn lemma_sorted_lookup_at<V>(s: Seq<(usize, V)>, i: int)
    requires
        entries_sorted(s),
        0 <= i < s.len(),
    ensures
        slookup(s, s[i].0) == Some(s[i].1),
    decreases s.len(),
{
    if i > 0 {
        assert(s[0].0 < s[i].0);
        assert(s.drop_first()[i - 1] == s[i]);
        lemma_sorted_lookup_at(s.drop_first(), i - 1);
    }
}

/// `slookup` succeeds exactly on the keys that occur in the sequence.
pub proof fn lemma_lookup_is_index<V>(s: Seq<(usize, V)>, k: usize)
    ensures
        has_key(s, k) <==> exists|i: int| 0 <= i < s.len() && s[i].0 == k,
    decreases s.len(),
{
    if s.len() > 0 && s[0].0 != k {
        lemma_lookup_is_index(s.drop_first(), k);
        if has_key(s.drop_first(), k) {
            let i = choose|i: int| 0 <= i < s.drop_first().len() && s.drop_first()[i].0 == k;
            assert(s[i + 1].0 == k);
        }
        if exists|i: int| 0 <= i < s.len() && s[i].0 == k {
            let i = choose|i: int| 0 <= i < s.len() && s[i].0 == k;
            assert(s.drop_first()[i - 1].0 == k);
        }
    }
}

/// `slookup` on a sequence with an explicit head entry.
pub proof fn lemma_slookup_cons<V>(e: (usize, V), s: Seq<(usize, V)>, k: usize)
    ensures
        slookup(seq![e] + s, k) == if e.0 == k {
            Some(e.1)
        } else {
            slookup(s, k)
        },
{
    let t = seq![e] + s;
    assert(t[0] == e);
    assert(t.drop_first() =~= s);
}

/// What `seq_upsert` does to sortedness and to each key's value.
pub proof fn lemma_upsert<V>(s: Seq<(usize, V)>, k: usize, v: V)
    requires
        entries_sorted(s),
    ensures
        entries_sorted(seq_upsert(s, k, v)),
        slookup(seq_upsert(s, k, v), k) == Some(v),
        forall|k2: usize| k2 != k ==> slookup(seq_upsert(s, k, v), k2) == slookup(s, k2),
    decreases s.len(),
{
    let r = seq_upsert(s, k, v);
    if s.len() == 0 {
        assert(r =~= seq![(k, v)] + Seq::<(usize, V)>::empty());
        lemma_slookup_cons((k, v), Seq::<(usize, V)>::empty(), k);
        assert forall|k2: usize| k2 != k implies slookup(r, k2) == slookup(s, k2) by {
            lemma_slookup_cons((k, v), Seq::<(usize, V)>::empty(), k2);
        }
    } else if k < s[0].0 {
        lemma_slookup_cons((k, v), s, k);
        assert forall|k2: usize| k2 != k implies slookup(r, k2) == slookup(s, k2) by {
            lemma_slookup_cons((k, v), s, k2);
        }
    } else if k == s[0].0 {
        assert(s =~= seq![s[0]] + s.drop_first());
        lemma_slookup_cons((k, v), s.drop_first(), k);
        assert forall|k2: usize| k2 != k implies slookup(r, k2) == slookup(s, k2) by {
            lemma_slookup_cons((k, v), s.drop_first(), k2);
            lemma_slookup_cons(s[0], s.drop_first(), k2);
        }
        assert(r.drop_first() =~= s.drop_first());
    } else {
        lemma_upsert(s.drop_first(), k, v);
        let rr = seq_upsert(s.drop_first(), k, v);
        assert(s =~= seq![s[0]] + s.drop_first());
        assert(r =~= seq![s[0]] + rr);
        lemma_slookup_cons(s[0], rr, k);
        assert forall|k2: usize| k2 != k implies slookup(r, k2) == slookup(s, k2) by {
            lemma_slookup_cons(s[0], rr, k2);
            lemma_slookup_cons(s[0], s.drop_first(), k2);
        }
        // every key in the recursive result is either k or an old key of the tail
        assert forall|i: int| 0 <= i < rr.len() implies s[0].0 < rr[i].0 by {
            lemma_sorted_lookup_at(rr, i);
            lemma_lookup_is_index(s.drop_first(), rr[i].0);
            if rr[i].0 != k {
                let j = choose|j: int|
                    0 <= j < s.drop_first().len() && s.drop_first()[j].0 == rr[i].0;
                assert(s[0].0 < s[j + 1].0);
            }
        }
        assert(r.drop_first() =~= rr);
    }
}

/// Upserting past every existing key appends the new entry.
pub proof fn lemma_upsert_at_end<V>(s: Seq<(usize, V)>, k: usize, v: V)
    requires
        entries_sorted(s),
        s.len() == 0 || s.last().0 < k,
    ensures
        seq_upsert(s, k, v) == s.push((k, v)),
    decreases s.len(),
{
    if s.len() == 0 {
        assert(seq_upsert(s, k, v) =~= s.push((k, v)));
    } else {
        assert(s[0].0 < k);
        lemma_upsert_at_end(s.drop_first(), k, v);
        assert(seq_upsert(s, k, v) =~= s.push((k, v)));
    }
}

/// What `seq_remove` does to sortedness and to each key's value.
pub proof fn lemma_remove<V>(s: Seq<(usize, V)>, k: usize)
    requires
        entries_sorted(s),
    ensures
        entries_sorted(seq_remove(s, k)),
        slookup(seq_remove(s, k), k) is None,
        forall|k2: usize| k2 != k ==> slookup(seq_remove(s, k), k2) == slookup(s, k2),
    decreases s.len(),
{
    let r = seq_remove(s, k);
    if s.len() == 0 {
    } else if s[0].0 == k {
        lemma_lookup_is_index(s.drop_first(), k);
        if has_key(s.drop_first(), k) {
            let i = choose|i: int|
                0 <= i < s.drop_first().len() && s.drop_first()[i].0 == k;
            assert(s[i + 1].0 == k);
            assert(s[0].0 < s[i + 1].0);
        }
        assert(s =~= seq![s[0]] + s.drop_first());
        assert forall|k2: usize| k2 != k implies slookup(r, k2) == slookup(s, k2) by {
            lemma_slookup_cons(s[0], s.drop_first(), k2);
        }
    } else {
        lemma_remove(s.drop_first(), k);
        let rr = seq_remove(s.drop_first(), k);
        assert(s =~= seq![s[0]] + s.drop_first());
        assert(r =~= seq![s[0]] + rr);
        lemma_slookup_cons(s[0], rr, k);
        assert forall|k2: usize| k2 != k implies slookup(r, k2) == slookup(s, k2) by {
            lemma_slookup_cons(s[0], rr, k2);
            lemma_slookup_cons(s[0], s.drop_first(), k2);
        }
        assert forall|i: int| 0 <= i < rr.len() implies s[0].0 < rr[i].0 by {
            lemma_sorted_lookup_at(rr, i);
            lemma_lookup_is_index(s.drop_first(), rr[i].0);
            let j = choose|j: int|
                0 <= j < s.drop_first().len() && s.drop_first()[j].0 == rr[i].0;
            assert(s[0].0 < s[j + 1].0);
        }
        assert(r.drop_first() =~= rr);
    }
}

/// What `seq_retain` does: it keeps, in order, exactly the entries whose key
/// is in `keep`.
pub proof fn lemma_retain<V>(s: Seq<(usize, V)>, keep: Seq<usize>)
    requires
        entries_sorted(s),
    ensures
        entries_sorted(seq_retain(s, keep)),
        forall|k2: usize|
            slookup(seq_retain(s, keep), k2) == if keep.contains(k2) {
                slookup(s, k2)
            } else {
                None::<V>
            },
    decreases s.len(),
{
    let r = seq_retain(s, keep);
    if s.len() > 0 {
        lemma_retain(s.drop_first(), keep);
        let rr = seq_retain(s.drop_first(), keep);
        assert forall|i: int| 0 <= i < rr.len() implies s[0].0 < rr[i].0 by {
            lemma_sorted_lookup_at(rr, i);
            lemma_lookup_is_index(s.drop_first(), rr[i].0);
            let j = choose|j: int|
                0 <= j < s.drop_first().len() && s.drop_first()[j].0 == rr[i].0;
            assert(s[0].0 < s[j + 1].0);
        }
        if keep.contains(s[0].0) {
            assert(r.drop_first() =~= rr);
        }
    }
}

/// A sparse, ordered mapping from row ids to values.
#[derive(Debug)]
pub struct RowMap<V> {
    entries: Vec<(usize, V)>,
}

impl<V> View for RowMap<V> {
    type V = Seq<(usize, V)>;

    closed spec fn view(&self) -> Seq<(usize, V)> {
        self.entries@
    }
}

impl<V> RowMap<V> {
    /// The map is well formed when its keys increase strictly.
    pub open spec fn wf(&self) -> bool {
        entries_sorted(self@)
    }

    /// The value at key `k`, if any.
    pub open spec fn spec_get(&self, k: usize) -> Option<V> {
        slookup(self@, k)
    }

    pub fn new() -> (r: Self)
        ensures
            r@ == Seq::<(usize, V)>::empty(),
            r.wf(),
    {
        RowMap { entries: Vec::new() }
    }

    pub fn from_entries(entries: Vec<(usize, V)>) -> (r: Self)
        requires
            entries_sorted(entries@),
        ensures
            r@ == entries@,
            r.wf(),
    {
        RowMap { entries }
    }

    pub fn num_entries(&self) -> (n: usize)
        ensures
            n == self@.len(),
    {
        self.entries.len()
    }

    pub fn key_at(&self, i: usize) -> (k: usize)
        requires
            i < self@.len(),
        ensures
            k == self@[i as int].0,
    {
        self.entries[i].0
    }

    pub fn val_at(&self, i: usize) -> (v: &V)
        requires
            i < self@.len(),
        ensures
            *v == self@[i as int].1,
    {
        &self.entries[i].1
    }

    pub fn is_empty(&self) -> (r: bool)
        ensures
            r == (self@.len() == 0),
    {
        self.entries.len() == 0
    }

    /// The largest key, or 0 when the map is empty.
    pub fn max_key(&self) -> (r: usize)
        requires
            self.wf(),
        ensures
            r == max_key_of(self@),
    {
        if self.entries.len() == 0 {
            0
        } else {
            self.entries[self.entries.len() - 1].0
        }
    }

    pub fn get(&self, k: usize) -> (r: Option<&V>)
        requires
            self.wf(),
        ensures
            match r {
                Some(v) => self.spec_get(k) == Some(*v),
                None => self.spec_get(k) is None,
            },
    {
        let n = self.entries.len();
        let mut i: usize = 0;
        while i < n
            invariant
                n == self@.len(),
                0 <= i <= n,
                self.wf(),
                forall|j: int| 0 <= j < i ==> self@[j].0 != k,
            decreases n - i,
        {
            if self.entries[i].0 == k {
                proof {
                    lemma_sorted_lookup_at(self@, i as int);
                }
                return Some(&self.entries[i].1);
            }
            i += 1;
        }
        proof {
            lemma_lookup_is_index(self@, k);
        }
        None
    }

    /// Store `v` at key `k`, replacing any previous value.
    pub fn upsert(&mut self, k: usize, v: V)
        requires
            old(self).wf(),
        ensures
            final(self)@ == seq_upsert(old(self)@, k, v),
            final(self).wf(),
            final(self).spec_get(k) == Some(v),
            forall|k2: usize| k2 != k ==> final(self).spec_get(k2) == old(self).spec_get(k2),
    {
        let n = self.entries.len();
        let mut i: usize = 0;
        while i < n
            invariant
                n == self@.len(),
                0 <= i <= n,
                self.wf(),
                self@ == old(self)@,
                forall|j: int| 0 <= j < i ==> self@[j].0 < k,
            decreases n - i,
        {
            if self.entries[i].0 == k {
                self.entries.remove(i);
                self.entries.insert(i, (k, v));
                proof {
                    lemma_upsert(old(self)@, k, v);
                    lemma_seq_upsert_middle(old(self)@, k, v, i as int);
                    assert(self@ =~= old(self)@.update(i as int, (k, v)));
                }
                return ;
            }
            if self.entries[i].0 > k {
                self.entries.insert(i, (k, v));
                proof {
                    lemma_upsert(old(self)@, k, v);
                    lemma_seq_upsert_middle(old(self)@, k, v, i as int);
                    assert(self@ =~= old(self)@.take(i as int).push((k, v)) + old(
                        self,
                    )@.skip(i as int));
                }
                return ;
            }
            i += 1;
        }
        self.entries.push((k, v));
        proof {
            lemma_upsert(old(self)@, k, v);
            lemma_upsert_at_end(old(self)@, k, v);
        }
    }

    /// Remove the entry at key `k`, if there is one.
    pub fn remove(&mut self, k: usize)
        requires
            old(self).wf(),
        ensures
            final(self)@ == seq_remove(old(self)@, k),
            final(self).wf(),
            final(self).spec_get(k) is None,
            forall|k2: usize| k2 != k ==> final(self).spec_get(k2) == old(self).spec_get(k2),
    {
        let n = self.entries.len();
        let mut i: usize = 0;
        while i < n
            invariant
                n == self@.len(),
                0 <= i <= n,
                self.wf(),
                self@ == old(self)@,
                forall|j: int| 0 <= j < i ==> self@[j].0 != k,
            decreases n - i,
        {
            if self.entries[i].0 == k {
                self.entries.remove(i);
                proof {
                    lemma_remove(old(self)@, k);
                    lemma_seq_remove_middle(old(self)@, k, i as int);
                    assert(self@ =~= old(self)@.take(i as int) + old(self)@.skip(i + 1));
                }
                return ;
            }
            i += 1;
        }
        proof {
            lemma_remove(old(self)@, k);
            lemma_seq_remove_absent(old(self)@, k);
        }
    }

    /// Drop every entry.
    pub fn clear(&mut self)
        ensures
            final(self)@ == Seq::<(usize, V)>::empty(),
            final(self).wf(),
    {
        self.entries.clear();
    }

    /// All keys, in ascending order.
    pub fn keys(&self) -> (r: Vec<usize>)
        ensures
            r@ == keys_of(self@),
    {
        let n = self.entries.len();
        let mut r: Vec<usize> = Vec::new();
        let mut i: usize = 0;
        while i < n
            invariant
                n == self@.len(),
                0 <= i <= n,
                r@ == keys_of(self@.take(i as int)),
            decreases n - i,
        {
            r.push(self.entries[i].0);
            proof {
                assert(self@.take(i + 1).drop_last() =~= self@.take(i as int));
                assert(keys_of(self@.take(i + 1)) =~= keys_of(self@.take(i as int)).push(
                    self@[i as int].0,
                ));
            }
            i += 1;
        }
        proof {
            assert(self@.take(n as int) =~= self@);
        }
        r
    }

    /// Keep only the entries whose key occurs in `keep`.
    pub fn retain_keys(&mut self, keep: &Vec<usize>)
        requires
            old(self).wf(),
        ensures
            final(self)@ == seq_retain(old(self)@, keep@),
            final(self).wf(),
            forall|k2: usize|
                final(self).spec_get(k2) == if keep@.contains(k2) {
                    old(self).spec_get(k2)
                } else {
                    None::<V>
                },
    {
        let ghost orig = self@;
        let ghost mut i: int = 0;
        let mut out: Vec<(usize, V)> = Vec::new();
        while self.entries.len() > 0
            invariant
                orig == old(self)@,
                0 <= i <= orig.len(),
                self@ == orig.skip(i),
                out@ == seq_retain(orig.take(i), keep@),
            decreases self@.len(),
        {
            let e = self.entries.remove(0);
            let keep_it = vec_contains_usize(keep, e.0);
            proof {
                assert(e == orig.skip(i)[0]);
                assert(e == orig[i]);
                assert(orig.take(i + 1).drop_last() =~= orig.take(i));
                assert(orig.take(i + 1).last() == orig[i]);
                lemma_retain_push(orig.take(i), orig[i], keep@);
                assert(orig.take(i).push(orig[i]) =~= orig.take(i + 1));
                assert(self@ =~= orig.skip(i + 1));
                i = i + 1;
            }
            if keep_it {
                out.push(e);
            }
        }
        proof {
            lemma_retain(old(self)@, keep@);
            assert(orig.take(i) =~= orig);
        }
        self.entries = out;
    }
}

/// `seq_retain` over a sequence extended by one entry keeps that entry
/// exactly when its key is in `keep`.
proof fn lemma_retain_push<V>(s: Seq<(usize, V)>, e: (usize, V), keep: Seq<usize>)
    ensures
        seq_retain(s.push(e), keep) == if keep.contains(e.0) {
            seq_retain(s, keep).push(e)
        } else {
            seq_retain(s, keep)
        },
    decreases s.len(),
{
    if s.len() == 0 {
        assert(s.push(e)[0] == e);
        assert(s.push(e).drop_first() =~= Seq::<(usize, V)>::empty());
        assert(seq_retain(s.push(e).drop_first(), keep) =~= Seq::<(usize, V)>::empty());
        if keep.contains(e.0) {
            assert(seq_retain(s.push(e), keep) =~= seq_retain(s, keep).push(e));
        } else {
            assert(seq_retain(s.push(e), keep) =~= seq_retain(s, keep));
        }
    } else {
        assert(s.push(e)[0] == s[0]);
        assert(s.push(e).drop_first() =~= s.drop_first().push(e));
        lemma_retain_push(s.drop_first(), e, keep);
        if keep.contains(s[0].0) {
            assert(seq_retain(s.push(e), keep) == seq![s.push(e)[0]] + seq_retain(
                s.push(e).drop_first(),
                keep,
            ));
        }
        if keep.contains(e.0) {
            assert(seq_retain(s.push(e), keep) =~= seq_retain(s, keep).push(e));
        } else {
            assert(seq_retain(s.push(e), keep) =~= seq_retain(s, keep));
        }
    }
}

impl<V: Copy> RowMap<V> {
    /// A copy of the map, for value types that copy freely.
    pub fn duplicate_copy(&self) -> (r: Self)
        ensures
            r@ == self@,
    {
        let n = self.entries.len();
        let mut out: Vec<(usize, V)> = Vec::new();
        let mut i: usize = 0;
        while i < n
            invariant
                n == self@.len(),
                0 <= i <= n,
                out@ == self@.take(i as int),
            decreases n - i,
        {
            out.push((self.entries[i].0, self.entries[i].1));
            proof {
                assert(out@ =~= self@.take(i + 1));
            }
            i += 1;
        }
        proof {
            assert(self@.take(n as int) =~= self@);
        }
        RowMap { entries: out }
    }
}

impl RowMap<String> {
    /// A copy of the map; cloned strings keep their value.
    pub fn duplicate_str(&self) -> (r: Self)
        ensures
            r@ == self@,
    {
        let n = self.entries.len();
        let mut out: Vec<(usize, String)> = Vec::new();
        let mut i: usize = 0;
        while i < n
            invariant
                n == self@.len(),
                0 <= i <= n,
                out@ == self@.take(i as int),
            decreases n - i,
        {
            out.push((self.entries[i].0, self.entries[i].1.clone()));
            proof {
                assert(out@ =~= self@.take(i + 1));
            }
            i += 1;
        }
        proof {
            assert(self@.take(n as int) =~= self@);
        }
        RowMap { entries: out }
    }
}

/// Does `v` hold `k`?
fn vec_contains_usize(v: &Vec<usize>, k: usize) -> (r: bool)
    ensures
        r == v@.contains(k),
{
    let n = v.len();
    let mut i: usize = 0;
    while i < n
        invariant
            n == v@.len(),
            0 <= i <= n,
            forall|j: int| 0 <= j < i ==> v@[j] != k,
        decreases n - i,
    {
        if v[i] == k {
            return true;
        }
        i += 1;
    }
    false
}

/// Upserting key `k` at position `i` of a sorted sequence, where every
/// earlier key is below `k` and the key at `i` (if any) is at least `k`,
/// either replaces or inserts at `i`.
proof fn lemma_seq_upsert_middle<V>(s: Seq<(usize, V)>, k: usize, v: V, i: int)
    requires
        entries_sorted(s),
        0 <= i < s.len(),
        forall|j: int| 0 <= j < i ==> s[j].0 < k,
        s[i].0 >= k,
    ensures
        s[i].0 == k ==> seq_upsert(s, k, v) == s.update(i, (k, v)),
        s[i].0 > k ==> seq_upsert(s, k, v) == s.take(i).push((k, v)) + s.skip(i),
    decreases i,
{
    if i == 0 {
        if s[0].0 == k {
            assert(seq_upsert(s, k, v) =~= s.update(0, (k, v)));
        } else {
            assert(seq_upsert(s, k, v) =~= s.take(0).push((k, v)) + s.skip(0));
        }
    } else {
        assert(s[0].0 < k);
        lemma_seq_upsert_middle(s.drop_first(), k, v, i - 1);
        if s[i].0 == k {
            assert(s.drop_first()[i - 1] == s[i]);
            assert(seq_upsert(s, k, v) =~= s.update(i, (k, v)));
        } else {
            assert(seq_upsert(s, k, v) =~= s.take(i).push((k, v)) + s.skip(i));
        }
    }
}

/// Removing key `k` found at position `i` deletes exactly that entry.
proof fn lemma_seq_remove_middle<V>(s: Seq<(usize, V)>, k: usize, i: int)
    requires
        0 <= i < s.len(),
        forall|j: int| 0 <= j < i ==> s[j].0 != k,
        s[i].0 == k,
    ensures
        seq_remove(s, k) == s.take(i) + s.skip(i + 1),
    decreases i,
{
    if i == 0 {
        assert(seq_remove(s, k) =~= s.take(0) + s.skip(1));
    } else {
        lemma_seq_remove_middle(s.drop_first(), k, i - 1);
        assert(seq_remove(s, k) =~= s.take(i) + s.skip(i + 1));
    }
}

/// Removing an absent key changes nothing.
proof fn lemma_seq_remove_absent<V>(s: Seq<(usize, V)>, k: usize)
    requires
        forall|j: int| 0 <= j < s.len() ==> s[j].0 != k,
    ensures
        seq_remove(s, k) == s,
    decreases s.len(),
{
    if s.len() > 0 {
        lemma_seq_remove_absent(s.drop_first(), k);
        assert(seq_remove(s, k) =~= s);
    }
}

} // verus!
