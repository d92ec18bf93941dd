use vstd::prelude::*;
use crate::text;

verus! {

/// A map from strings to values that keeps its entries in insertion order.
pub struct StrMap<V> {
    pub entries: Vec<(String, V)>,
}

impl<V> StrMap<V> {
    /// The keys, in order.
    pub open spec fn keys(&self) -> Seq<Seq<char>> {
        Seq::new(self.entries@.len(), |i: int| self.entries@[i].0@)
    }

    /// The values, in the order of their keys.
    pub open spec fn vals(&self) -> Seq<V> {
        Seq::new(self.entries@.len(), |i: int| self.entries@[i].1)
    }

    /// No key occurs twice.
    pub open spec fn wf(&self) -> bool {
        self.keys().no_duplicates()
    }

    /// Whether `k` is a key.
    pub open spec fn has(&self, k: Seq<char>) -> bool {
        self.keys().contains(k)
    }

    /// The value stored under `k`, if any.
    pub open spec fn lookup(&self, k: Seq<char>) -> Option<V> {
        if self.has(k) {
            Some(self.vals()[self.keys().index_of(k)])
        } else {
            None
        }
    }

    /// The value at position `i` is the one stored under the key at `i`.
    pub proof fn lemma_lookup_at(&self, i: int)
        requires
            self.wf(),
            0 <= i < self.entries@.len(),
        ensures
            self.lookup(self.keys()[i]) == Some(self.vals()[i]),
    {
        let k = self.keys()[i];
        assert(self.keys()[i] == k);
        assert(self.has(k));
        let j = self.keys().index_of(k);
        assert(self.keys()[j] == k);
    }

    /// An empty map.
    pub fn new() -> (m: Self)
        ensures
            m.wf(),
            m.keys() == Seq::<Seq<char>>::empty(),
            m.entries@.len() == 0,
    {
        let m = StrMap { entries: Vec::new() };
        assert(m.keys() =~= Seq::<Seq<char>>::empty());
        m
    }

    /// The number of entries.
    pub fn len(&self) -> (n: usize)
        ensures
            n == self.entries@.len(),
            n == self.keys().len(),
    {
        self.entries.len()
    }

    /// The position of `key`, if it is a key.
    pub fn find(&self, key: &str) -> (r: Option<usize>)
        ensures
            match r {
                Some(i) => i < self.entries@.len() && self.keys()[i as int] == key@,
                None => !self.has(key@),
            },
    {
        let mut i: usize = 0;
        while i < self.entries.len()
            invariant
                i <= self.entries@.len(),
                forall|k: int| 0 <= k < i ==> self.keys()[k] != key@,
            decreases self.entries.len() - i,
        {
            if text::str_eq(self.entries[i].0.as_str(), key) {
                return Some(i);
            }
            i = i + 1;
        }
        proof {
            if self.has(key@) {
                let j = self.keys().index_of(key@);
                assert(self.keys()[j] == key@);
            }
        }
        None
    }

    /// The value stored under `key`, if any.
    pub fn get(&self, key: &str) -> (r: Option<&V>)
        requires
            self.wf(),
        ensures
            match r {
                Some(v) => self.lookup(key@) == Some(*v),
                None => self.lookup(key@) is None,
            },
    {
        match self.find(key) {
            Some(i) => {
                proof {
                    self.lemma_lookup_at(i as int);
                }
                Some(&self.entries[i].1)
            },
            None => None,
        }
    }

    /// Whether `key` is a key.
    pub fn contains_key(&self, key: &str) -> (b: bool)
        ensures
            b == self.has(key@),
    {
        self.find(key).is_some()
    }

    /// Stores `value` under `key`: in place of the old value where `key` is a
    /// key, else as a new last entry.
    pub fn insert(&mut self, key: String, value: V)
        requires
            old(self).wf(),
        ensures
            final(self).wf(),
            old(self).has(key@) ==> final(self).keys() == old(self).keys(),
            !old(self).has(key@) ==> final(self).keys() == old(self).keys().push(key@),
            final(self).lookup(key@) == Some(value),
            forall|k: Seq<char>| k != key@ ==> #[trigger] final(self).lookup(k) == old(self).lookup(k),
            forall|i: int|
                0 <= i < old(self).entries@.len() && old(self).keys()[i] != key@
                    ==> #[trigger] final(self).vals()[i] == old(self).vals()[i],
    {
        let ghost k0 = key@;
        match self.find(key.as_str()) {
            Some(i) => {
                self.entries.set(i, (key, value));
                proof {
                    assert(self.keys() =~= old(self).keys());
                    assert(self.vals() =~= old(self).vals().update(i as int, value));
                    self.lemma_lookup_at(i as int);
                    assert forall|k: Seq<char>| k != k0 implies #[trigger] self.lookup(k)
                        == old(self).lookup(k) by {
                        if self.has(k) {
                            let j = self.keys().index_of(k);
                            assert(self.keys()[j] == k);
                            assert(j != i);
                            self.lemma_lookup_at(j);
                            old(self).lemma_lookup_at(j);
                        }
                    }
                }
            },
            None => {
                self.entries.push((key, value));
                proof {
                    let n = old(self).entries@.len() as int;
                    assert(self.keys() =~= old(self).keys().push(k0));
                    assert(self.vals() =~= old(self).vals().push(value));
                    assert(self.keys()[n] == k0);
                    self.lemma_lookup_at(n);
                    assert forall|k: Seq<char>| k != k0 implies #[trigger] self.lookup(k)
                        == old(self).lookup(k) by {
                        if self.has(k) {
                            let j = self.keys().index_of(k);
                            assert(self.keys()[j] == k);
                            assert(j != n);
                            self.lemma_lookup_at(j);
                            old(self).lemma_lookup_at(j);
                        } else {
                            if old(self).has(k) {
                                let j = old(self).keys().index_of(k);
                                assert(old(self).keys()[j] == k);
                                assert(self.keys()[j] == k);
                            }
                        }
                    }
                }
            },
        }
    }

    /// The key at position `i`.
    pub fn key_at(&self, i: usize) -> (k: &String)
        requires
            i < self.entries@.len(),
        ensures
            k@ == self.keys()[i as int],
    {
        &self.entries[i].0
    }

    /// The value at position `i`.
    pub fn value_at(&self, i: usize) -> (v: &V)
        requires
            i < self.entries@.len(),
        ensures
            *v == self.vals()[i as int],
    {
        &self.entries[i].1
    }

    /// Takes the value at position `i` out, leaving `fill` in its place.
    pub fn swap_value(&mut self, i: usize, fill: V) -> (v: V)
        requires
            i < old(self).entries@.len(),
        ensures
            v == old(self).vals()[i as int],
            final(self).keys() == old(self).keys(),
            final(self).vals() == old(self).vals().update(i as int, fill),
            old(self).wf() ==> final(self).wf(),
            old(self).wf() ==> final(self).lookup(old(self).keys()[i as int]) == Some(fill),
            old(self).wf() ==> forall|k: Seq<char>|
                k != old(self).keys()[i as int] ==> #[trigger] final(self).lookup(k) == old(
                    self,
                ).lookup(k),
    {
        let (k, v) = self.entries.remove(i);
        self.entries.insert(i, (k, fill));
        proof {
            assert(self.keys() =~= old(self).keys());
            assert(self.vals() =~= old(self).vals().update(i as int, fill));
            if old(self).wf() {
                self.lemma_lookup_at(i as int);
                let ki = self.keys()[i as int];
                assert forall|k2: Seq<char>| k2 != ki implies #[trigger] self.lookup(k2)
                    == old(self).lookup(k2) by {
                    if self.has(k2) {
                        let j = self.keys().index_of(k2);
                        assert(self.keys()[j] == k2);
                        self.lemma_lookup_at(j);
                        old(self).lemma_lookup_at(j);
                    }
                }
            }
        }
        v
    }
}

impl<V: View> View for StrMap<V> {
    type V = Seq<(Seq<char>, V::V)>;

    /// The entries, in order, each as its key and the view of its value.
    open spec fn view(&self) -> Seq<(Seq<char>, V::V)> {
        Seq::new(self.entries@.len(), |i: int| (self.entries@[i].0@, self.entries@[i].1@))
    }
}

/// The entries after storing `w` under `k`: in place of the entry with that
/// key, if there is one, else as a new last entry.
pub open spec fn upsert<W>(s: Seq<(Seq<char>, W)>, k: Seq<char>, w: W) -> Seq<(Seq<char>, W)> {
    if exists|i: int| 0 <= i < s.len() && (#[trigger] s[i]).0 == k {
        s.update(key_pos(s, k), (k, w))
    } else {
        s.push((k, w))
    }
}

/// A position of key `k` among the entries.
pub open spec fn key_pos<W>(s: Seq<(Seq<char>, W)>, k: Seq<char>) -> int {
    choose|i: int| 0 <= i < s.len() && (#[trigger] s[i]).0 == k
}

/// The entries that storing the pairs in order gives.
pub open spec fn collect<W>(ps: Seq<(Seq<char>, W)>) -> Seq<(Seq<char>, W)>
    decreases ps.len(),
{
    if ps.len() == 0 {
        Seq::empty()
    } else {
        upsert(collect(ps.drop_last()), ps.last().0, ps.last().1)
    }
}

/// Whether some entry has key `k`.
pub open spec fn has_key<W>(s: Seq<(Seq<char>, W)>, k: Seq<char>) -> bool {
    exists|i: int| 0 <= i < s.len() && (#[trigger] s[i]).0 == k
}

/// The value of an entry with key `k`, if there is one.
pub open spec fn seq_lookup<W>(s: Seq<(Seq<char>, W)>, k: Seq<char>) -> Option<W> {
    if has_key(s, k) {
        Some(s[key_pos(s, k)].1)
    } else {
        None
    }
}

/// Pairs with distinct keys are stored as they are.
pub proof fn lemma_collect_distinct<W>(ps: Seq<(Seq<char>, W)>)
    requires
        forall|i: int, j: int| 0 <= i < j < ps.len() ==> (#[trigger] ps[i]).0 != (#[trigger] ps[j]).0,
    ensures
        collect(ps) == ps,
    decreases ps.len(),
{
    if ps.len() > 0 {
        let pre = ps.drop_last();
        lemma_collect_distinct(pre);
        assert(!exists|i: int| 0 <= i < pre.len() && (#[trigger] pre[i]).0 == ps.last().0) by {
            if exists|i: int| 0 <= i < pre.len() && (#[trigger] pre[i]).0 == ps.last().0 {
                let i = choose|i: int| 0 <= i < pre.len() && (#[trigger] pre[i]).0 == ps.last().0;
                assert(ps[i] == pre[i]);
            }
        }
        assert(pre.push(ps.last()) =~= ps);
    }
}

impl<V: View> StrMap<V> {
    /// The entries' view agrees with `has` and `lookup`.
    pub proof fn lemma_view_lookup(&self, k: Seq<char>)
        requires
            self.wf(),
        ensures
            has_key(self@, k) == self.has(k),
            seq_lookup(self@, k) == match self.lookup(k) {
                Some(v) => Some(v@),
                None => None,
            },
    {
        if self.has(k) {
            let i = self.keys().index_of(k);
            assert(self.keys()[i] == k);
            assert(self@[i].0 == k);
            self.lemma_lookup_at(i);
            let j = key_pos(self@, k);
            assert(self.keys()[j] == k);
        }
        if has_key(self@, k) {
            let j = key_pos(self@, k);
            assert(self.keys()[j] == k);
        }
    }

    /// Adds an entry under a key that is not yet a key.
    pub fn push_new(&mut self, key: String, value: V)
        requires
            old(self).wf(),
            !old(self).has(key@),
        ensures
            final(self).wf(),
            final(self).entries@ == old(self).entries@.push((key, value)),
            final(self)@ == old(self)@.push((key@, value@)),
            final(self).keys() == old(self).keys().push(key@),
    {
        let ghost k = key@;
        let ghost vv = value@;
        self.entries.push((key, value));
        proof {
            assert(self.keys() =~= old(self).keys().push(k));
            assert(self@ =~= old(self)@.push((k, vv)));
            assert forall|i: int, j: int|
                0 <= i < self.keys().len() && 0 <= j < self.keys().len() && i != j implies self.keys()[i]
                != self.keys()[j] by {
                if i < old(self).keys().len() && j < old(self).keys().len() {
                } else if i < old(self).keys().len() {
                    assert(old(self).keys()[i] == self.keys()[i]);
                    assert(old(self).keys().contains(self.keys()[i]));
                } else {
                    assert(old(self).keys()[j] == self.keys()[j]);
                    assert(old(self).keys().contains(self.keys()[j]));
                }
            }
        }
    }

    /// Stores `value` under `key`, as `insert` does, described on the entries.
    pub fn put(&mut self, key: String, value: V)
        requires
            old(self).wf(),
        ensures
            final(self).wf(),
            final(self)@ == upsert(old(self)@, key@, value@),
            final(self).entries@ == old(self).entries@.push((key, value)) || exists|p: int|
                0 <= p < old(self).entries@.len() && final(self).entries@ == old(
                    self,
                ).entries@.update(p, (key, value)),
    {
        let ghost k = key@;
        let ghost vv = value@;
        match self.find(key.as_str()) {
            Some(i) => {
                self.entries.set(i, (key, value));
                proof {
                    assert(self.keys() =~= old(self).keys());
                    assert(old(self)@[i as int].0 == k);
                    let ii = i as int;
                    let j = key_pos(old(self)@, k);
                    assert(0 <= j < old(self)@.len() && old(self)@[j].0 == k);
                    assert(old(self).keys()[j] == old(self).keys()[ii]);
                    assert(j == ii);
                    assert(self@ =~= old(self)@.update(i as int, (k, vv)));
                    assert(upsert(old(self)@, k, vv) == old(self)@.update(i as int, (k, vv)));
                }
            },
            None => {
                proof {
                    assert(!exists|j: int| 0 <= j < old(self)@.len() && (#[trigger] old(self)@[j]).0 == k) by {
                        if exists|j: int| 0 <= j < old(self)@.len() && (#[trigger] old(self)@[j]).0 == k {
                            let j = key_pos(old(self)@, k);
                            assert(old(self).keys()[j] == k);
                        }
                    }
                }
                self.push_new(key, value);
            },
        }
    }
}

/// What `insert` does to the keys and lookups, told on the entries: the
/// entries of a well-formed map are the old ones with `k` stored.
pub proof fn lemma_insert_view<V: View>(before: StrMap<V>, after: StrMap<V>, k: Seq<char>, v: V)
    requires
        before.wf(),
        after.wf(),
        before.has(k) ==> after.keys() == before.keys(),
        !before.has(k) ==> after.keys() == before.keys().push(k),
        after.lookup(k) == Some(v),
        forall|k2: Seq<char>| k2 != k ==> #[trigger] after.lookup(k2) == before.lookup(k2),
    ensures
        after@ == upsert(before@, k, v@),
{
    if before.has(k) {
        let p = before.keys().index_of(k);
        assert(before.keys()[p] == k);
        assert(before@[p].0 == k);
        let j = key_pos(before@, k);
        assert(before.keys()[j] == k);
        assert(j == p);
        assert forall|i: int| 0 <= i < after.entries@.len() implies after@[i] == before@.update(p, (k, v@))[i] by {
            assert(after.keys()[i] == before.keys()[i]);
            after.lemma_lookup_at(i);
            before.lemma_lookup_at(i);
            if i != p {
                assert(before.keys()[i] != k);
                assert(after.lookup(after.keys()[i]) == before.lookup(before.keys()[i]));
            }
        }
        assert(after@ =~= before@.update(p, (k, v@)));
    } else {
        assert(!exists|i: int| 0 <= i < before@.len() && (#[trigger] before@[i]).0 == k) by {
            if exists|i: int| 0 <= i < before@.len() && (#[trigger] before@[i]).0 == k {
                let i = choose|i: int| 0 <= i < before@.len() && (#[trigger] before@[i]).0 == k;
                assert(before.keys()[i] == k);
            }
        }
        assert forall|i: int| 0 <= i < after.entries@.len() implies after@[i] == before@.push((k, v@))[i] by {
            if i < before.entries@.len() {
                assert(after.keys()[i] == before.keys()[i]);
                assert(before.keys()[i] != k) by {
                    assert(before.keys().contains(before.keys()[i]));
                }
                after.lemma_lookup_at(i);
                before.lemma_lookup_at(i);
                assert(after.lookup(after.keys()[i]) == before.lookup(before.keys()[i]));
            } else {
                assert(after.keys()[i] == k);
                after.lemma_lookup_at(i);
            }
        }
        assert(after@ =~= before@.push((k, v@)));
    }
}

/// No two entries have the same key.
pub open spec fn distinct_keys<W>(s: Seq<(Seq<char>, W)>) -> bool {
    forall|i: int, j: int| 0 <= i < j < s.len() ==> (#[trigger] s[i]).0 != (#[trigger] s[j]).0
}

/// The entries of a well-formed map have distinct keys.
pub proof fn lemma_wf_distinct<V: View>(m: StrMap<V>)
    requires
        m.wf(),
    ensures
        distinct_keys(m@),
{
    assert forall|i: int, j: int| 0 <= i < j < m@.len() implies (#[trigger] m@[i]).0 != (#[trigger] m@[j]).0 by {
        assert(m@[i].0 == m.keys()[i]);
        assert(m@[j].0 == m.keys()[j]);
    }
}

/// With distinct keys, the entry at `q` is the one found for its key.
pub proof fn lemma_lookup_unique<W>(s: Seq<(Seq<char>, W)>, k: Seq<char>, q: int)
    requires
        distinct_keys(s),
        0 <= q < s.len(),
        s[q].0 == k,
    ensures
        seq_lookup(s, k) == Some(s[q].1),
{
    assert(has_key(s, k));
    let p = key_pos(s, k);
    if p != q {
        if p < q {
            assert(s[p].0 != s[q].0);
        } else {
            assert(s[q].0 != s[p].0);
        }
    }
}

/// Storing `w` under `k` keeps the keys distinct, makes `w` what `k` finds,
/// and leaves what every other key finds.
pub proof fn lemma_upsert_lookup<W>(s: Seq<(Seq<char>, W)>, k: Seq<char>, w: W, k2: Seq<char>)
    requires
        distinct_keys(s),
    ensures
        distinct_keys(upsert(s, k, w)),
        seq_lookup(upsert(s, k, w), k) == Some(w),
        k2 != k ==> seq_lookup(upsert(s, k, w), k2) == seq_lookup(s, k2),
{
    let r = upsert(s, k, w);
    if has_key(s, k) {
        let p = key_pos(s, k);
        assert(r == s.update(p, (k, w)));
        assert forall|i: int, j: int| 0 <= i < j < r.len() implies (#[trigger] r[i]).0 != (#[trigger] r[j]).0 by {
            assert(r[i].0 == s[i].0 && r[j].0 == s[j].0);
        }
        lemma_lookup_unique(r, k, p);
        if k2 != k && has_key(s, k2) {
            let q = key_pos(s, k2);
            assert(r[q] == s[q]);
            lemma_lookup_unique(r, k2, q);
        } else if k2 != k && has_key(r, k2) {
            let q = key_pos(r, k2);
            assert(r[q].0 == s[q].0);
        }
    } else {
        assert(r == s.push((k, w)));
        assert forall|i: int, j: int| 0 <= i < j < r.len() implies (#[trigger] r[i]).0 != (#[trigger] r[j]).0 by {
            if j == s.len() {
                assert(r[i] == s[i]);
            } else {
                assert(r[i] == s[i] && r[j] == s[j]);
            }
        }
        lemma_lookup_unique(r, k, s.len() as int);
        if k2 != k && has_key(s, k2) {
            let q = key_pos(s, k2);
            assert(r[q] == s[q]);
            lemma_lookup_unique(r, k2, q);
        } else if k2 != k && has_key(r, k2) {
            let q = key_pos(r, k2);
            assert(q != s.len());
            assert(r[q] == s[q]);
        }
    }
}

/// A string-to-string map as a map of character sequences.
pub open spec fn sview(m: StrMap<String>) -> Map<Seq<char>, Seq<char>> {
    Map::new(|k: Seq<char>| m.has(k), |k: Seq<char>| m.lookup(k).unwrap()@)
}

/// A copy of a string-to-string map.
pub fn copy_str_map(m: &StrMap<String>) -> (r: StrMap<String>)
    ensures
        r.entries@ == m.entries@,
{
    let mut entries: Vec<(String, String)> = Vec::new();
    let mut i: usize = 0;
    while i < m.entries.len()
        invariant
            i <= m.entries@.len(),
            entries@ == m.entries@.take(i as int),
        decreases m.entries.len() - i,
    {
        let k = m.entries[i].0.clone();
        let v = m.entries[i].1.clone();
        entries.push((k, v));
        assert(entries@ =~= m.entries@.take(i + 1));
        i = i + 1;
    }
    assert(entries@ =~= m.entries@);
    StrMap { entries }
}

/// After `insert`, the string view gains the new pair.
pub proof fn lemma_sview_insert(before: StrMap<String>, after: StrMap<String>, k: Seq<char>, v: Seq<char>)
    requires
        after.lookup(k) matches Some(x) && x@ == v,
        forall|k2: Seq<char>| k2 != k ==> #[trigger] after.lookup(k2) == before.lookup(k2),
    ensures
        sview(after) == sview(before).insert(k, v),
{
    assert forall|k2: Seq<char>| #[trigger] after.has(k2) == (before.has(k2) || k2 == k) by {
        if k2 != k {
            assert(after.lookup(k2) == before.lookup(k2));
        }
    }
    assert(sview(after) =~= sview(before).insert(k, v));
}

} // verus!
