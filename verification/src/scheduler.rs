//! The power scheduler: a map from a future epoch to the set of tokens whose
//! stored power is exhausted at that epoch. It acts as a time wheel with a
//! granularity of one epoch; an entry whose set becomes empty is removed at
//! once rather than kept empty.

use vstd::prelude::*;

use crate::smap::{assoc_map, distinct_keys, lemma_assoc_map_contains, lemma_assoc_map_index,
    lemma_assoc_map_push, lemma_assoc_map_remove, WellFormed};
use crate::sset::{remove_seq_value, seq_distinct, StringSet};
use crate::types::Error;

verus! {

/// The schedule after adding `id` to the power event at `e`: the set is
/// created on demand, and an already scheduled token is not duplicated.
pub open spec fn spec_schedule(m: Map<u32, Seq<Seq<char>>>, e: u32, id: Seq<char>) -> Map<
    u32,
    Seq<Seq<char>>,
> {
    let s = if m.contains_key(e) {
        m[e]
    } else {
        Seq::empty()
    };
    m.insert(e, if s.contains(id) {
        s
    } else {
        s.push(id)
    })
}

/// The schedule after removing `id` from the power event at `e`; `None`
/// when no event exists at `e` (an internal-invariant violation for the
/// callers). An event whose set becomes empty is removed.
pub open spec fn spec_unschedule(m: Map<u32, Seq<Seq<char>>>, e: u32, id: Seq<char>) -> Option<
    Map<u32, Seq<Seq<char>>>,
> {
    if !m.contains_key(e) {
        None
    } else {
        let s = remove_seq_value(m[e], id);
        if s.len() == 0 {
            Some(m.remove(e))
        } else {
            Some(m.insert(e, s))
        }
    }
}

/// Future power events, indexed by epoch.
pub struct PowerScheduler {
    power_events: Vec<(u32, StringSet)>,
}

impl View for PowerScheduler {
    type V = Map<u32, Seq<Seq<char>>>;

    closed spec fn view(&self) -> Map<u32, Seq<Seq<char>>> {
        assoc_map(self.power_events.deep_view())
    }
}

impl PowerScheduler {
    /// The association sequence seen through deep views.
    spec fn kv(&self) -> Seq<(u32, Seq<Seq<char>>)> {
        self.power_events.deep_view()
    }

    /// Epochs are distinct, every stored set is well formed, and no stored
    /// set is empty.
    pub closed spec fn wf(&self) -> bool {
        &&& distinct_keys(self.kv())
        &&& forall|i: int|
            0 <= i < self.power_events@.len() ==> (#[trigger] self.power_events@[i]).1.wf()
        &&& forall|i: int| 0 <= i < self.power_events@.len() ==> self.power_events@[i].1@.len() > 0
    }

    /// Every scheduled set is non-empty and duplicate-free, visible to
    /// clients.
    pub proof fn lemma_nonempty(&self, e: u32)
        requires
            self.wf(),
            self@.contains_key(e),
        ensures
            self@[e].len() > 0,
            seq_distinct(self@[e]),
    {
        lemma_assoc_map_contains(self.kv(), e);
        let i = choose|i: int| 0 <= i < self.kv().len() && self.kv()[i].0 == e;
        lemma_assoc_map_index(self.kv(), i);
        assert(self.kv()[i].1 == self.power_events@[i].1@);
    }

    pub fn new() -> (s: Self)
        ensures
            s@ == Map::<u32, Seq<Seq<char>>>::empty(),
            s.wf(),
    {
        let s = PowerScheduler { power_events: Vec::new() };
        proof {
            assert(s.kv() =~= Seq::<(u32, Seq<Seq<char>>)>::empty());
        }
        s
    }

    /// Index of the event at epoch `e`, if any.
    fn position_of(&self, e: u32) -> (r: Option<usize>)
        ensures
            match r {
                Some(i) => i < self.kv().len() && self.kv()[i as int].0 == e,
                None => forall|j: int| 0 <= j < self.kv().len() ==> self.kv()[j].0 != e,
            },
    {
        let n = self.power_events.len();
        let mut i: usize = 0;
        while i < n
            invariant
                i <= n,
                n == self.power_events@.len(),
                self.kv().len() == n,
                forall|j: int| 0 <= j < i ==> self.kv()[j].0 != e,
            decreases n - i,
        {
            assert(self.kv()[i as int].0 == self.power_events@[i as int].0);
            if self.power_events[i].0 == e {
                return Some(i);
            }
            i = i + 1;
        }
        None
    }

    /// Borrows the set of tokens scheduled at epoch `e`.
    pub fn get(&self, e: u32) -> (r: Option<&StringSet>)
        requires
            self.wf(),
        ensures
            match r {
                Some(s) => self@.contains_key(e) && s@ == self@[e] && s.wf(),
                None => !self@.contains_key(e),
            },
    {
        proof {
            lemma_assoc_map_contains(self.kv(), e);
        }
        match self.position_of(e) {
            Some(i) => {
                proof {
                    lemma_assoc_map_index(self.kv(), i as int);
                }
                assert(self.kv()[i as int].1 == self.power_events@[i as int].1@);
                Some(&self.power_events[i].1)
            },
            None => None,
        }
    }

    /// Records that `token_id`'s power runs out at epoch `e`.
    pub fn schedule(&mut self, token_id: String, e: u32)
        requires
            old(self).wf(),
        ensures
            final(self).wf(),
            final(self)@ == spec_schedule(old(self)@, e, token_id@),
    {
        let ghost s = self.kv();
        proof {
            lemma_assoc_map_contains(s, e);
        }
        match self.position_of(e) {
            Some(i) => {
                proof {
                    lemma_assoc_map_index(s, i as int);
                    lemma_assoc_map_remove(s, i as int);
                }
                let mut entry = self.power_events.remove(i);
                assert(entry.1@ == s[i as int].1);
                let ghost mid = self.kv();
                assert(mid =~= s.remove(i as int));
                proof {
                    lemma_distinct_after_remove(s, i as int);
                }
                entry.1.insert(token_id);
                let e2 = e;
                self.power_events.push((e2, entry.1));
                proof {
                    assert(self.kv() =~= mid.push((e, entry.1@)));
                    lemma_assoc_map_push(mid, (e, entry.1@));
                    lemma_assoc_map_contains(mid, e);
                    assert(!assoc_map(mid).contains_key(e)) by {
                        assert(forall|a: int|
                            0 <= a < mid.len() ==> (#[trigger] mid[a]) == s[
                                if a < i { a } else { a + 1 }
                            ]);
                    }
                    assert(self@ =~= spec_schedule(assoc_map(s), e, token_id@));
                    lemma_distinct_after_push_fresh(mid, (e, entry.1@));
                }
            },
            None => {
                let mut set = StringSet::new();
                set.insert(token_id);
                self.power_events.push((e, set));
                proof {
                    assert(self.kv() =~= s.push((e, set@)));
                    lemma_assoc_map_push(s, (e, set@));
                    assert(!assoc_map(s).contains_key(e)) by {
                        lemma_assoc_map_contains(s, e);
                    }
                    assert(self@ =~= spec_schedule(assoc_map(s), e, token_id@));
                    lemma_distinct_after_push_fresh(s, (e, set@));
                }
            },
        }
    }

    /// Forgets that `token_id`'s power runs out at epoch `e`; fails with
    /// `InternalError`, leaving the schedule unchanged, when no event exists
    /// at `e`.
    pub fn unschedule(&mut self, token_id: &String, e: u32) -> (r: Result<(), Error>)
        requires
            old(self).wf(),
        ensures
            final(self).wf(),
            match spec_unschedule(old(self)@, e, token_id@) {
                Some(m) => r == Ok::<(), Error>(()) && final(self)@ == m,
                None => r == Err::<(), Error>(Error::InternalError)
                    && *final(self) == *old(self),
            },
    {
        let ghost s = self.kv();
        proof {
            lemma_assoc_map_contains(s, e);
        }
        match self.position_of(e) {
            Some(i) => {
                proof {
                    lemma_assoc_map_index(s, i as int);
                    lemma_assoc_map_remove(s, i as int);
                }
                let mut entry = self.power_events.remove(i);
                assert(entry.1@ == s[i as int].1);
                let ghost mid = self.kv();
                assert(mid =~= s.remove(i as int));
                proof {
                    lemma_distinct_after_remove(s, i as int);
                    assert(!assoc_map(mid).contains_key(e)) by {
                        lemma_assoc_map_contains(mid, e);
                        assert(forall|a: int|
                            0 <= a < mid.len() ==> (#[trigger] mid[a]) == s[
                                if a < i { a } else { a + 1 }
                            ]);
                    }
                }
                let _ = entry.1.remove(token_id);
                if entry.1.is_empty() {
                    proof {
                        assert(self@ =~= assoc_map(s).remove(e));
                    }
                    Ok(())
                } else {
                    let e2 = e;
                    self.power_events.push((e2, entry.1));
                    proof {
                        assert(self.kv() =~= mid.push((e, entry.1@)));
                        lemma_assoc_map_push(mid, (e, entry.1@));
                        assert(self@ =~= assoc_map(s).insert(e, entry.1@));
                        lemma_distinct_after_push_fresh(mid, (e, entry.1@));
                    }
                    Ok(())
                }
            },
            None => Err(Error::InternalError),
        }
    }

    /// Removes and returns the whole power event at epoch `e`, if any.
    pub fn drain(&mut self, e: u32) -> (r: Option<StringSet>)
        requires
            old(self).wf(),
        ensures
            final(self).wf(),
            final(self)@ == old(self)@.remove(e),
            match r {
                Some(set) => old(self)@.contains_key(e) && set@ == old(self)@[e] && set.wf()
                    && set@.len() > 0,
                None => !old(self)@.contains_key(e) && *final(self) == *old(self),
            },
    {
        let ghost s = self.kv();
        proof {
            lemma_assoc_map_contains(s, e);
        }
        match self.position_of(e) {
            Some(i) => {
                proof {
                    lemma_assoc_map_index(s, i as int);
                    lemma_assoc_map_remove(s, i as int);
                }
                let entry = self.power_events.remove(i);
                proof {
                    assert(self.kv() =~= s.remove(i as int));
                    lemma_distinct_after_remove(s, i as int);
                    assert(entry.1@ == s[i as int].1);
                }
                Some(entry.1)
            },
            None => {
                proof {
                    assert(self@ =~= self@.remove(e));
                }
                None
            },
        }
    }
}

/// Distinct keys survive removing an index.
proof fn lemma_distinct_after_remove(s: Seq<(u32, Seq<Seq<char>>)>, i: int)
    requires
        distinct_keys(s),
        0 <= i < s.len(),
    ensures
        distinct_keys(s.remove(i)),
{
    let t = s.remove(i);
    assert forall|a: int, b: int| 0 <= a < b < t.len() implies t[a].0 != t[b].0 by {
        let sa = if a < i { a } else { a + 1 };
        let sb = if b < i { b } else { b + 1 };
        assert(t[a] == s[sa] && t[b] == s[sb]);
    }
}

/// Distinct keys survive appending an entry whose key is absent.
proof fn lemma_distinct_after_push_fresh(s: Seq<(u32, Seq<Seq<char>>)>, p: (u32, Seq<Seq<char>>))
    requires
        distinct_keys(s),
        forall|j: int| 0 <= j < s.len() ==> s[j].0 != p.0,
    ensures
        distinct_keys(s.push(p)),
{
    let t = s.push(p);
    assert forall|a: int, b: int| 0 <= a < b < t.len() implies t[a].0 != t[b].0 by {
        if b < s.len() {
            assert(t[a] == s[a] && t[b] == s[b]);
        } else {
            assert(t[a] == s[a] && t[b] == p);
        }
    }
}

} // verus!
