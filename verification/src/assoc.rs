//! Association tables with string keys.
//!
//! The engine's reference data structures are maps from identifiers to
//! counts or values (markings, activity counters, attribute maps). Here they
//! are kept as vectors of key/value pairs with pairwise-distinct keys, viewed
//! both as a `Map` (for value lookup) and as a key sequence (for iteration
//! order, which is insertion order).

use vstd::prelude::*;

use crate::text::str_eq;

verus! {

/// All keys in the pair sequence are distinct.
pub open spec fn nodup_keys<K, V>(s: Seq<(K, V)>) -> bool {
    forall|i: int, j: int| 0 <= i < j < s.len() ==> s[i].0 != s[j].0
}

/// The map denoted by a pair sequence; later entries win.
pub open spec fn amap<K, V>(s: Seq<(K, V)>) -> Map<K, V>
    decreases s.len(),
{
    if s.len() == 0 {
        Map::empty()
    } else {
        amap(s.drop_last()).insert(s.last().0, s.last().1)
    }
}

/// A key is in the map exactly when some pair carries it.
pub proof fn lemma_amap_contains<K, V>(s: Seq<(K, V)>, k: K)
    ensures
        amap(s).contains_key(k) <==> exists|i: int| 0 <= i < s.len() && s[i].0 == k,
    decreases s.len(),
{
    if s.len() > 0 {
        lemma_amap_contains(s.drop_last(), k);
        if amap(s).contains_key(k) && s.last().0 != k {
            let i = choose|i: int| 0 <= i < s.drop_last().len() && s.drop_last()[i].0 == k;
            assert(s[i].0 == k);
        }
        if exists|i: int| 0 <= i < s.len() && s[i].0 == k {
            let i = choose|i: int| 0 <= i < s.len() && s[i].0 == k;
            if i < s.len() - 1 {
                assert(s.drop_last()[i].0 == k);
            }
        }
    }
}

/// With distinct keys, the pair at any index gives the map's value there.
pub proof fn lemma_amap_at<K, V>(s: Seq<(K, V)>, i: int)
    requires
        nodup_keys(s),
        0 <= i < s.len(),
    ensures
        amap(s).contains_key(s[i].0),
        amap(s)[s[i].0] == s[i].1,
    decreases s.len(),
{
    if i == s.len() - 1 {
    } else {
        assert(s.drop_last()[i] == s[i]);
        lemma_amap_at(s.drop_last(), i);
        assert(s.last().0 != s[i].0);
    }
}

/// Updating the pair that carries a key updates just that key in the map.
pub proof fn lemma_amap_update<K, V>(s: Seq<(K, V)>, i: int, v: V)
    requires
        nodup_keys(s),
        0 <= i < s.len(),
    ensures
        amap(s.update(i, (s[i].0, v))) =~= amap(s).insert(s[i].0, v),
    decreases s.len(),
{
    let t = s.update(i, (s[i].0, v));
    if i == s.len() - 1 {
        assert(t.drop_last() =~= s.drop_last());
    } else {
        assert(t.drop_last() =~= s.drop_last().update(i, (s[i].0, v)));
        assert(s.drop_last()[i] == s[i]);
        lemma_amap_update(s.drop_last(), i, v);
        assert(s.last().0 != s[i].0);
        assert(t.last() == s.last());
    }
}

/// An association table: insertion-ordered pairs with distinct keys.
pub struct Assoc<V> {
    pub pairs: Vec<(String, V)>,
}

impl<V> Assoc<V> {
    /// The pair sequence this table denotes.
    pub open spec fn pseq(&self) -> Seq<(Seq<char>, V)> {
        self.pairs@.map(|_i: int, p: (String, V)| (p.0@, p.1))
    }

    /// The key sequence, in insertion order.
    pub open spec fn keys(&self) -> Seq<Seq<char>> {
        self.pseq().map(|_i: int, p: (Seq<char>, V)| p.0)
    }

    /// The map this table denotes.
    pub open spec fn m(&self) -> Map<Seq<char>, V> {
        amap(self.pseq())
    }

    /// Keys are pairwise distinct.
    pub open spec fn wf(&self) -> bool {
        nodup_keys(self.pseq())
    }

    /// Every stored pair agrees with the map view.
    pub proof fn lemma_pairs(&self, i: int)
        requires
            self.wf(),
            0 <= i < self.pseq().len(),
        ensures
            self.m().contains_key(self.pseq()[i].0),
            self.m()[self.pseq()[i].0] == self.pseq()[i].1,
    {
        lemma_amap_at(self.pseq(), i);
    }

    pub fn new() -> (r: Self)
        ensures
            r.wf(),
            r.pseq() =~= Seq::<(Seq<char>, V)>::empty(),
            r.m() =~= Map::<Seq<char>, V>::empty(),
    {
        Assoc { pairs: Vec::new() }
    }

    pub fn len(&self) -> (n: usize)
        ensures
            n == self.pseq().len(),
    {
        self.pairs.len()
    }

    /// Index of the pair carrying `k`, if any.
    fn index_of(&self, k: &str) -> (r: Option<usize>)
        ensures
            match r {
                Some(i) => i < self.pseq().len() && self.pseq()[i as int].0 == k@,
                None => forall|i: int| 0 <= i < self.pseq().len() ==> self.pseq()[i].0 != k@,
            },
    {
        let n = self.pairs.len();
        let mut i: usize = 0;
        while i < n
            invariant
                i <= n,
                n == self.pairs@.len(),
                forall|t: int| 0 <= t < i ==> self.pseq()[t].0 != k@,
            decreases n - i,
        {
            if str_eq(self.pairs[i].0.as_str(), k) {
                return Some(i);
            }
            i += 1;
        }
        None
    }

    pub fn contains(&self, k: &str) -> (r: bool)
        ensures
            r == self.m().contains_key(k@),
    {
        proof {
            lemma_amap_contains(self.pseq(), k@);
        }
        self.index_of(k).is_some()
    }

    /// Insert or update: the map gains `k -> v`; a fresh key is appended to
    /// the key order, an existing key keeps its position.
    pub fn set(&mut self, k: &str, v: V)
        requires
            old(self).wf(),
        ensures
            final(self).wf(),
            final(self).m() == old(self).m().insert(k@, v),
            final(self).keys() == (if old(self).m().contains_key(k@) {
                old(self).keys()
            } else {
                old(self).keys().push(k@)
            }),
    {
        proof {
            lemma_amap_contains(self.pseq(), k@);
        }
        match self.index_of(k) {
            Some(i) => {
                proof {
                    lemma_amap_update(self.pseq(), i as int, v);
                }
                let ghost oldp = self.pseq();
                self.pairs.set(i, (k.to_owned(), v));
                proof {
                    assert(self.pseq() =~= oldp.update(i as int, (oldp[i as int].0, v)));
                    assert forall|a: int, b: int|
                        0 <= a < b < self.pseq().len() implies self.pseq()[a].0
                        != self.pseq()[b].0 by {
                        assert(oldp[a].0 != oldp[b].0);
                    }
                    assert(self.keys() =~= old(self).keys());
                }
            },
            None => {
                let ghost oldp = self.pseq();
                self.pairs.push((k.to_owned(), v));
                proof {
                    assert(self.pseq().drop_last() =~= oldp);
                    assert(self.pseq().last() == (k@, v));
                    assert forall|a: int, b: int|
                        0 <= a < b < self.pseq().len() implies self.pseq()[a].0
                        != self.pseq()[b].0 by {
                        if b < self.pseq().len() - 1 {
                            assert(oldp[a].0 != oldp[b].0);
                        } else {
                            assert(oldp[a].0 != k@);
                        }
                    }
                    assert(self.m() =~= old(self).m().insert(k@, v));
                    assert(self.keys() =~= old(self).keys().push(k@));
                }
            },
        }
    }
}

impl<V> Assoc<V> {
    /// A reference to the value stored under `k`, if any.
    pub fn get_ref(&self, k: &str) -> (r: Option<&V>)
        requires
            self.wf(),
        ensures
            match r {
                Some(v) => self.m().contains_key(k@) && *v == self.m()[k@],
                None => !self.m().contains_key(k@),
            },
    {
        proof {
            lemma_amap_contains(self.pseq(), k@);
        }
        match self.index_of(k) {
            Some(i) => {
                proof {
                    lemma_amap_at(self.pseq(), i as int);
                }
                Some(&self.pairs[i].1)
            },
            None => None,
        }
    }
}

impl<V: Copy> Assoc<V> {
    /// The value stored under `k`, if any.
    pub fn get(&self, k: &str) -> (r: Option<V>)
        requires
            self.wf(),
        ensures
            r == (if self.m().contains_key(k@) {
                Some(self.m()[k@])
            } else {
                None::<V>
            }),
    {
        proof {
            lemma_amap_contains(self.pseq(), k@);
        }
        match self.index_of(k) {
            Some(i) => {
                proof {
                    lemma_amap_at(self.pseq(), i as int);
                }
                Some(self.pairs[i].1)
            },
            None => None,
        }
    }
}

impl<V: Copy> Assoc<V> {
    /// An independent copy with the same pairs.
    pub fn duplicate(&self) -> (r: Self)
        ensures
            r.pseq() == self.pseq(),
    {
        let n = self.pairs.len();
        let mut pairs: Vec<(String, V)> = Vec::new();
        let mut i: usize = 0;
        while i < n
            invariant
                i <= n,
                n == self.pairs@.len(),
                pairs@.len() == i,
                forall|t: int| 0 <= t < i ==> pairs@[t].0@ == self.pairs@[t].0@ && pairs@[t].1
                    == self.pairs@[t].1,
            decreases n - i,
        {
            pairs.push((self.pairs[i].0.clone(), self.pairs[i].1));
            i += 1;
        }
        let r = Assoc { pairs };
        proof {
            assert(r.pseq() =~= self.pseq());
        }
        r
    }
}

/// Sum of all stored counts.
pub open spec fn vsum<K>(s: Seq<(K, u64)>) -> int
    decreases s.len(),
{
    if s.len() == 0 {
        0
    } else {
        vsum(s.drop_last()) + s.last().1
    }
}

/// Changing one value changes the sum by the difference.
pub proof fn lemma_vsum_update<K>(s: Seq<(K, u64)>, i: int, v: u64)
    requires
        0 <= i < s.len(),
    ensures
        vsum(s.update(i, (s[i].0, v))) == vsum(s) - s[i].1 + v,
    decreases s.len(),
{
    let t = s.update(i, (s[i].0, v));
    if i == s.len() - 1 {
        assert(t.drop_last() =~= s.drop_last());
    } else {
        assert(t.drop_last() =~= s.drop_last().update(i, (s[i].0, v)));
        assert(s.drop_last()[i] == s[i]);
        lemma_vsum_update(s.drop_last(), i, v);
        assert(t.last() == s.last());
    }
}

impl Assoc<u64> {
    /// The count under `k`, taking an absent key as zero.
    pub open spec fn spec_count(&self, k: Seq<char>) -> u64 {
        if self.m().contains_key(k) {
            self.m()[k]
        } else {
            0
        }
    }

    /// Sum of all counts in the table.
    pub open spec fn total(&self) -> int {
        vsum(self.pseq())
    }

    pub fn count(&self, k: &str) -> (r: u64)
        requires
            self.wf(),
        ensures
            r == self.spec_count(k@),
    {
        match self.get(k) {
            Some(v) => v,
            None => 0,
        }
    }

    /// Add `d` to the count under `k`, creating the entry if absent; the
    /// table total grows by exactly `d`.
    pub fn bump(&mut self, k: &str, d: u64)
        requires
            old(self).wf(),
            old(self).spec_count(k@) + d <= u64::MAX,
        ensures
            final(self).wf(),
            final(self).m() == old(self).m().insert(k@, (old(self).spec_count(k@) + d) as u64),
            final(self).keys() == (if old(self).m().contains_key(k@) {
                old(self).keys()
            } else {
                old(self).keys().push(k@)
            }),
            final(self).total() == old(self).total() + d,
    {
        proof {
            lemma_amap_contains(self.pseq(), k@);
        }
        match self.index_of(k) {
            Some(i) => {
                proof {
                    lemma_amap_at(self.pseq(), i as int);
                    lemma_amap_update(self.pseq(), i as int, (self.pseq()[i as int].1 + d) as u64);
                    lemma_vsum_update(self.pseq(), i as int, (self.pseq()[i as int].1 + d) as u64);
                }
                let ghost oldp = self.pseq();
                let cur = self.pairs[i].1;
                self.pairs.set(i, (k.to_owned(), cur + d));
                proof {
                    assert(self.pseq() =~= oldp.update(i as int, (oldp[i as int].0, (cur + d) as u64)));
                    assert forall|a: int, b: int|
                        0 <= a < b < self.pseq().len() implies self.pseq()[a].0
                        != self.pseq()[b].0 by {
                        assert(oldp[a].0 != oldp[b].0);
                    }
                    assert(self.keys() =~= old(self).keys());
                }
            },
            None => {
                let ghost oldp = self.pseq();
                self.pairs.push((k.to_owned(), d));
                proof {
                    assert(self.pseq().drop_last() =~= oldp);
                    assert(self.pseq().last() == (k@, d));
                    assert forall|a: int, b: int|
                        0 <= a < b < self.pseq().len() implies self.pseq()[a].0
                        != self.pseq()[b].0 by {
                        if b < self.pseq().len() - 1 {
                            assert(oldp[a].0 != oldp[b].0);
                        } else {
                            assert(oldp[a].0 != k@);
                        }
                    }
                    assert(self.m() =~= old(self).m().insert(k@, d));
                    assert(self.keys() =~= old(self).keys().push(k@));
                }
            },
        }
    }
}

/// A count table keyed by an ordered pair of strings.
pub struct PairCounts {
    pub pairs: Vec<(String, String, u64)>,
}

impl PairCounts {
    pub open spec fn pseq(&self) -> Seq<((Seq<char>, Seq<char>), u64)> {
        self.pairs@.map(|_i: int, p: (String, String, u64)| ((p.0@, p.1@), p.2))
    }

    pub open spec fn keys(&self) -> Seq<(Seq<char>, Seq<char>)> {
        self.pseq().map(|_i: int, p: ((Seq<char>, Seq<char>), u64)| p.0)
    }

    pub open spec fn m(&self) -> Map<(Seq<char>, Seq<char>), u64> {
        amap(self.pseq())
    }

    pub open spec fn wf(&self) -> bool {
        nodup_keys(self.pseq())
    }

    pub open spec fn spec_count(&self, k: (Seq<char>, Seq<char>)) -> u64 {
        if self.m().contains_key(k) {
            self.m()[k]
        } else {
            0
        }
    }

    pub open spec fn total(&self) -> int {
        vsum(self.pseq())
    }

    /// Every stored pair agrees with the map view.
    pub proof fn lemma_pairs(&self, i: int)
        requires
            self.wf(),
            0 <= i < self.pseq().len(),
        ensures
            self.m().contains_key(self.pseq()[i].0),
            self.m()[self.pseq()[i].0] == self.pseq()[i].1,
    {
        lemma_amap_at(self.pseq(), i);
    }

    pub fn new() -> (r: Self)
        ensures
            r.wf(),
            r.pseq() =~= Seq::<((Seq<char>, Seq<char>), u64)>::empty(),
            r.m() =~= Map::<(Seq<char>, Seq<char>), u64>::empty(),
    {
        PairCounts { pairs: Vec::new() }
    }

    pub fn len(&self) -> (n: usize)
        ensures
            n == self.pseq().len(),
    {
        self.pairs.len()
    }

    fn index_of(&self, a: &str, b: &str) -> (r: Option<usize>)
        ensures
            match r {
                Some(i) => i < self.pseq().len() && self.pseq()[i as int].0 == (a@, b@),
                None => forall|i: int|
                    0 <= i < self.pseq().len() ==> self.pseq()[i].0 != (a@, b@),
            },
    {
        let n = self.pairs.len();
        let mut i: usize = 0;
        while i < n
            invariant
                i <= n,
                n == self.pairs@.len(),
                forall|t: int| 0 <= t < i ==> self.pseq()[t].0 != (a@, b@),
            decreases n - i,
        {
            if str_eq(self.pairs[i].0.as_str(), a) && str_eq(self.pairs[i].1.as_str(), b) {
                return Some(i);
            }
            i += 1;
        }
        None
    }

    /// Add `d` to the count under `(a, b)`, creating the entry if absent;
    /// the table total grows by exactly `d`.
    pub fn bump(&mut self, a: &str, b: &str, d: u64)
        requires
            old(self).wf(),
            old(self).spec_count((a@, b@)) + d <= u64::MAX,
        ensures
            final(self).wf(),
            final(self).m() == old(self).m().insert(
                (a@, b@),
                (old(self).spec_count((a@, b@)) + d) as u64,
            ),
            final(self).keys() == (if old(self).m().contains_key((a@, b@)) {
                old(self).keys()
            } else {
                old(self).keys().push((a@, b@))
            }),
            final(self).total() == old(self).total() + d,
    {
        proof {
            lemma_amap_contains(self.pseq(), (a@, b@));
        }
        match self.index_of(a, b) {
            Some(i) => {
                proof {
                    lemma_amap_at(self.pseq(), i as int);
                    lemma_amap_update(self.pseq(), i as int, (self.pseq()[i as int].1 + d) as u64);
                    lemma_vsum_update(self.pseq(), i as int, (self.pseq()[i as int].1 + d) as u64);
                }
                let ghost oldp = self.pseq();
                let cur = self.pairs[i].2;
                self.pairs.set(i, (a.to_owned(), b.to_owned(), cur + d));
                proof {
                    assert(self.pseq() =~= oldp.update(
                        i as int,
                        (oldp[i as int].0, (cur + d) as u64),
                    ));
                    assert forall|x: int, y: int|
                        0 <= x < y < self.pseq().len() implies self.pseq()[x].0
                        != self.pseq()[y].0 by {
                        assert(oldp[x].0 != oldp[y].0);
                    }
                    assert(self.keys() =~= old(self).keys());
                }
            },
            None => {
                let ghost oldp = self.pseq();
                self.pairs.push((a.to_owned(), b.to_owned(), d));
                proof {
                    assert(self.pseq().drop_last() =~= oldp);
                    assert(self.pseq().last() == ((a@, b@), d));
                    assert forall|x: int, y: int|
                        0 <= x < y < self.pseq().len() implies self.pseq()[x].0
                        != self.pseq()[y].0 by {
                        if y < self.pseq().len() - 1 {
                            assert(oldp[x].0 != oldp[y].0);
                        } else {
                            assert(oldp[x].0 != (a@, b@));
                        }
                    }
                    assert(self.m() =~= old(self).m().insert((a@, b@), d));
                    assert(self.keys() =~= old(self).keys().push((a@, b@)));
                }
            },
        }
    }
}

} // verus!
