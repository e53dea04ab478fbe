//! A string-keyed map backed by an association vector, abstracted as a
//! mathematical `Map` from character sequences to the deep views of the
//! stored values.
//!
//! Stored values carry their own well-formedness through the [`WellFormed`]
//! trait, so a map of maps stays well formed all the way down.

use vstd::prelude::*;
use vstd::pervasive::VecAdditionalExecFns;

verus! {

/// Well-formedness that a container can demand of its stored values.
pub trait WellFormed {
    spec fn wf(&self) -> bool;
}

impl WellFormed for u32 {
    open spec fn wf(&self) -> bool {
        true
    }
}

/// The mathematical map described by an association sequence: later entries
/// win, which is irrelevant once keys are distinct.
pub open spec fn assoc_map<K, W>(s: Seq<(K, W)>) -> Map<K, W>
    decreases s.len(),
{
    if s.len() == 0 {
        Map::empty()
    } else {
        assoc_map(s.drop_last()).insert(s.last().0, s.last().1)
    }
}

/// No key occurs twice in the association sequence.
pub open spec fn distinct_keys<K, W>(s: Seq<(K, W)>) -> bool {
    forall|i: int, j: int| 0 <= i < j < s.len() ==> s[i].0 != s[j].0
}

/// A key is in the map exactly when some entry carries it.
pub proof fn lemma_assoc_map_contains<K, W>(s: Seq<(K, W)>, k: K)
    ensures
        assoc_map(s).contains_key(k) <==> exists|i: int| 0 <= i < s.len() && s[i].0 == k,
    decreases s.len(),
{
    if s.len() > 0 {
        lemma_assoc_map_contains(s.drop_last(), k);
        if s.last().0 == k {
            assert(s[s.len() - 1].0 == k);
        } else if assoc_map(s).contains_key(k) {
            let i = choose|i: int| 0 <= i < s.drop_last().len() && s.drop_last()[i].0 == k;
            assert(s[i].0 == k);
        } else if exists|i: int| 0 <= i < s.len() && s[i].0 == k {
            let i = choose|i: int| 0 <= i < s.len() && s[i].0 == k;
            assert(i < s.len() - 1);
            assert(s.drop_last()[i].0 == k);
        }
    }
}

/// With distinct keys, the entry at index `i` gives the value of its key.
pub proof fn lemma_assoc_map_index<K, W>(s: Seq<(K, W)>, i: int)
    requires
        distinct_keys(s),
        0 <= i < s.len(),
    ensures
        assoc_map(s).contains_key(s[i].0),
        assoc_map(s)[s[i].0] == s[i].1,
    decreases s.len(),
{
    if i == s.len() - 1 {
    } else {
        assert(distinct_keys(s.drop_last()));
        assert(s.drop_last()[i] == s[i]);
        lemma_assoc_map_index(s.drop_last(), i);
        assert(s[i].0 != s.last().0);
    }
}

/// Appending a fresh entry inserts its binding.
pub proof fn lemma_assoc_map_push<K, W>(s: Seq<(K, W)>, p: (K, W))
    ensures
        assoc_map(s.push(p)) == assoc_map(s).insert(p.0, p.1),
{
    assert(s.push(p).drop_last() =~= s);
    assert(s.push(p).last() == p);
}

/// Overwriting the entry that holds a key updates its binding.
pub proof fn lemma_assoc_map_update<K, W>(s: Seq<(K, W)>, i: int, p: (K, W))
    requires
        distinct_keys(s),
        0 <= i < s.len(),
        p.0 == s[i].0,
    ensures
        assoc_map(s.update(i, p)) == assoc_map(s).insert(p.0, p.1),
    decreases s.len(),
{
    let t = s.update(i, p);
    if i == s.len() - 1 {
        assert(t.drop_last() =~= s.drop_last());
        assert(t.last() == p);
        assert(assoc_map(s).insert(p.0, p.1) =~= assoc_map(s.drop_last()).insert(p.0, p.1));
    } else {
        assert(t.drop_last() =~= s.drop_last().update(i, p));
        assert(t.last() == s.last());
        assert(distinct_keys(s.drop_last()));
        assert(s.drop_last()[i] == s[i]);
        lemma_assoc_map_update(s.drop_last(), i, p);
        assert(p.0 != s.last().0);
        assert(assoc_map(s.drop_last()).insert(p.0, p.1).insert(s.last().0, s.last().1)
            =~= assoc_map(s.drop_last()).insert(s.last().0, s.last().1).insert(p.0, p.1));
    }
}

/// Dropping the entry that holds a key removes its binding.
pub proof fn lemma_assoc_map_remove<K, W>(s: Seq<(K, W)>, i: int)
    requires
        distinct_keys(s),
        0 <= i < s.len(),
    ensures
        assoc_map(s.remove(i)) == assoc_map(s).remove(s[i].0),
    decreases s.len(),
{
    let t = s.remove(i);
    if i == s.len() - 1 {
        assert(t =~= s.drop_last());
        lemma_assoc_map_contains(s.drop_last(), s[i].0);
        assert(forall|j: int|
            0 <= j < s.drop_last().len() ==> s.drop_last()[j] == s[j] && s[j].0 != s[i].0);
        assert(!assoc_map(s.drop_last()).contains_key(s[i].0));
        assert(assoc_map(s).remove(s[i].0) =~= assoc_map(s.drop_last()));
    } else {
        assert(t.drop_last() =~= s.drop_last().remove(i));
        assert(t.last() == s.last());
        assert(distinct_keys(s.drop_last()));
        assert(s.drop_last()[i] == s[i]);
        lemma_assoc_map_remove(s.drop_last(), i);
        assert(s[i].0 != s.last().0);
        assert(assoc_map(s.drop_last()).remove(s[i].0).insert(s.last().0, s.last().1)
            =~= assoc_map(s.drop_last()).insert(s.last().0, s.last().1).remove(s[i].0));
    }
}

/// A map from string identifiers to values.
pub struct StringMap<V> {
    pairs: Vec<(String, V)>,
}

impl<V: DeepView> View for StringMap<V> {
    type V = Map<Seq<char>, <V as DeepView>::V>;

    closed spec fn view(&self) -> Map<Seq<char>, <V as DeepView>::V> {
        assoc_map(self.pairs.deep_view())
    }
}

impl<V: DeepView> DeepView for StringMap<V> {
    type V = Map<Seq<char>, <V as DeepView>::V>;

    open spec fn deep_view(&self) -> Map<Seq<char>, <V as DeepView>::V> {
        self.view()
    }
}

impl<V: DeepView + WellFormed> WellFormed for StringMap<V> {
    open spec fn wf(&self) -> bool {
        self.map_wf()
    }
}

impl<V: DeepView + WellFormed> StringMap<V> {
    /// The association sequence seen through deep views.
    spec fn kv(&self) -> Seq<(Seq<char>, <V as DeepView>::V)> {
        self.pairs.deep_view()
    }

    /// Keys are distinct and every stored value is well formed.
    pub closed spec fn map_wf(&self) -> bool {
        &&& distinct_keys(self.kv())
        &&& forall|i: int| 0 <= i < self.pairs@.len() ==> (#[trigger] self.pairs@[i]).1.wf()
    }

    pub fn new() -> (m: Self)
        ensures
            m@ == Map::<Seq<char>, <V as DeepView>::V>::empty(),
            m.wf(),
    {
        let m = StringMap { pairs: Vec::new() };
        proof {
            assert(m.kv() =~= Seq::<(Seq<char>, <V as DeepView>::V)>::empty());
        }
        m
    }

    /// Index of the entry holding `k`, if any.
    fn position_of(&self, k: &String) -> (r: Option<usize>)
        ensures
            match r {
                Some(i) => i < self.kv().len() && self.kv()[i as int].0 == k@,
                None => forall|j: int| 0 <= j < self.kv().len() ==> self.kv()[j].0 != k@,
            },
    {
        let n = self.pairs.len();
        let mut i: usize = 0;
        while i < n
            invariant
                i <= n,
                n == self.pairs@.len(),
                self.kv().len() == n,
                forall|j: int| 0 <= j < i ==> self.kv()[j].0 != k@,
            decreases n - i,
        {
            assert(self.kv()[i as int].0 == self.pairs@[i as int].0@);
            if self.pairs[i].0 == *k {
                return Some(i);
            }
            i = i + 1;
        }
        None
    }

    pub fn contains_key(&self, k: &String) -> (b: bool)
        ensures
            b == self@.contains_key(k@),
    {
        proof {
            lemma_assoc_map_contains(self.kv(), k@);
        }
        self.position_of(k).is_some()
    }

    /// Borrows the value bound to `k`.
    pub fn get(&self, k: &String) -> (r: Option<&V>)
        requires
            self.wf(),
        ensures
            match r {
                Some(v) => self@.contains_key(k@) && v.deep_view() == self@[k@] && v.wf(),
                None => !self@.contains_key(k@),
            },
    {
        proof {
            lemma_assoc_map_contains(self.kv(), k@);
        }
        match self.position_of(k) {
            Some(i) => {
                proof {
                    lemma_assoc_map_index(self.kv(), i as int);
                }
                assert(self.kv()[i as int].1 == self.pairs@[i as int].1.deep_view());
                Some(&self.pairs[i].1)
            },
            None => None,
        }
    }

    /// Binds `k` to `v`, replacing any previous binding.
    pub fn insert(&mut self, k: String, v: V)
        requires
            old(self).wf(),
            v.wf(),
        ensures
            final(self).wf(),
            final(self)@ == old(self)@.insert(k@, v.deep_view()),
    {
        let ghost s = self.kv();
        match self.position_of(&k) {
            Some(i) => {
                self.pairs.set(i, (k, v));
                proof {
                    assert(self.kv() =~= s.update(i as int, (k@, v.deep_view())));
                    lemma_assoc_map_update(s, i as int, (k@, v.deep_view()));
                    // The key at `i` is unchanged, so every key is unchanged.
                    assert(forall|p: int| 0 <= p < s.len() ==> self.kv()[p].0 == s[p].0);
                }
            },
            None => {
                self.pairs.push((k, v));
                proof {
                    assert(self.kv() =~= s.push((k@, v.deep_view())));
                    lemma_assoc_map_push(s, (k@, v.deep_view()));
                    assert forall|p: int, q: int|
                        0 <= p < q < self.kv().len() implies self.kv()[p].0 != self.kv()[q].0 by {
                        if q < s.len() {
                            assert(self.kv()[p] == s[p] && self.kv()[q] == s[q]);
                        } else {
                            assert(self.kv()[p] == s[p] && self.kv()[q].0 == k@);
                        }
                    }
                }
            },
        }
    }

    /// Removes the binding for `k` and hands the stored value back.
    pub fn take(&mut self, k: &String) -> (r: Option<V>)
        requires
            old(self).wf(),
        ensures
            final(self).wf(),
            final(self)@ == old(self)@.remove(k@),
            match r {
                Some(v) => old(self)@.contains_key(k@) && v.deep_view() == old(self)@[k@]
                    && v.wf(),
                None => !old(self)@.contains_key(k@) && *final(self) == *old(self),
            },
    {
        let ghost s = self.kv();
        proof {
            lemma_assoc_map_contains(s, k@);
        }
        match self.position_of(k) {
            Some(i) => {
                proof {
                    lemma_assoc_map_index(s, i as int);
                    lemma_assoc_map_remove(s, i as int);
                }
                let p = self.pairs.remove(i);
                proof {
                    assert(self.kv() =~= s.remove(i as int));
                    assert forall|a: int, b: int|
                        0 <= a < b < self.kv().len() implies self.kv()[a].0 != self.kv()[b].0 by {
                        let sa = if a < i { a } else { a + 1 };
                        let sb = if b < i { b } else { b + 1 };
                        assert(self.kv()[a] == s[sa] && self.kv()[b] == s[sb]);
                    }
                    assert(p.1.deep_view() == s[i as int].1);
                }
                Some(p.1)
            },
            None => {
                proof {
                    assert(!self@.contains_key(k@));
                    assert(self@ =~= self@.remove(k@));
                }
                None
            },
        }
    }

    /// Whether the map holds no binding at all.
    pub fn is_empty(&self) -> (b: bool)
        ensures
            b == (self@ == Map::<Seq<char>, <V as DeepView>::V>::empty()),
    {
        let b = self.pairs.len() == 0;
        proof {
            if b {
                assert(self.kv() =~= Seq::<(Seq<char>, <V as DeepView>::V)>::empty());
            } else {
                lemma_assoc_map_contains(self.kv(), self.kv()[0].0);
                assert(self@.contains_key(self.kv()[0].0));
                assert(!Map::<Seq<char>, <V as DeepView>::V>::empty().contains_key(
                    self.kv()[0].0,
                ));
            }
        }
        b
    }

    /// The stored keys, in insertion order and free of duplicates; the
    /// enumeration surface for read-only listing services.
    pub fn keys(&self) -> (r: Vec<String>)
        requires
            self.wf(),
        ensures
            forall|k: Seq<char>| #[trigger] r.deep_view().contains(k) <==> self@.contains_key(k),
            forall|a: int, b: int|
                0 <= a < b < r.deep_view().len() ==> r.deep_view()[a] != r.deep_view()[b],
    {
        let n = self.pairs.len();
        let mut r: Vec<String> = Vec::new();
        let mut i: usize = 0;
        while i < n
            invariant
                i <= n,
                n == self.pairs@.len(),
                self.kv().len() == n,
                distinct_keys(self.kv()),
                r.deep_view().len() == i,
                forall|j: int| 0 <= j < i ==> r.deep_view()[j] == self.kv()[j].0,
            decreases n - i,
        {
            assert(self.kv()[i as int].0 == self.pairs@[i as int].0@);
            let ghost prev = r.deep_view();
            r.push(self.pairs[i].0.clone());
            proof {
                assert(r.deep_view() =~= prev.push(self.kv()[i as int].0));
            }
            i = i + 1;
        }
        proof {
            assert forall|k: Seq<char>| #[trigger]
                r.deep_view().contains(k) <==> self@.contains_key(k) by {
                lemma_assoc_map_contains(self.kv(), k);
                if r.deep_view().contains(k) {
                    let j = choose|j: int| 0 <= j < r.deep_view().len() && r.deep_view()[j] == k;
                    assert(self.kv()[j].0 == k);
                }
                if exists|j: int| 0 <= j < self.kv().len() && self.kv()[j].0 == k {
                    let j = choose|j: int| 0 <= j < self.kv().len() && self.kv()[j].0 == k;
                    assert(r.deep_view()[j] == k);
                }
            }
        }
        r
    }
}

} // verus!
