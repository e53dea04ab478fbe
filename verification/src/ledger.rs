//! The hash-power ledger: per-owner aggregate hash-power entries in a stable
//! enumeration order, plus the running global total.
//!
//! Conservation invariant: the global total always equals the sum of the
//! per-owner aggregates, every aggregate is positive, and an aggregate that
//! would reach zero is removed rather than stored as zero.

use vstd::prelude::*;

use crate::types::Error;

verus! {

/// Sum of the aggregates of an entry sequence.
pub open spec fn sum_thash(s: Seq<(Seq<char>, u32)>) -> int
    decreases s.len(),
{
    if s.len() == 0 {
        0
    } else {
        sum_thash(s.drop_last()) + s.last().1
    }
}

/// Whether some entry carries owner `o`.
pub open spec fn entry_contains(s: Seq<(Seq<char>, u32)>, o: Seq<char>) -> bool {
    exists|i: int| 0 <= i < s.len() && s[i].0 == o
}

/// Index of the entry carrying owner `o` (unique once keys are distinct).
pub open spec fn entry_position(s: Seq<(Seq<char>, u32)>, o: Seq<char>) -> int {
    choose|i: int| 0 <= i < s.len() && s[i].0 == o
}

/// The aggregate recorded for owner `o`, if any.
pub open spec fn entry_value(s: Seq<(Seq<char>, u32)>, o: Seq<char>) -> Option<u32> {
    if entry_contains(s, o) {
        Some(s[entry_position(s, o)].1)
    } else {
        None
    }
}

/// Entry sequence after crediting `amount` to owner `o`: updated in place
/// when the owner already has an entry, appended at the end otherwise.
pub open spec fn spec_increase(s: Seq<(Seq<char>, u32)>, o: Seq<char>, amount: u32) -> Seq<
    (Seq<char>, u32),
> {
    if entry_contains(s, o) {
        let i = entry_position(s, o);
        s.update(i, (o, (s[i].1 + amount) as u32))
    } else {
        s.push((o, amount))
    }
}

/// Entry sequence after debiting `amount` from owner `o`; `None` when the
/// owner has no entry or too small an aggregate (an internal-invariant
/// violation for the callers). An aggregate that reaches zero is removed.
pub open spec fn spec_decrease(s: Seq<(Seq<char>, u32)>, o: Seq<char>, amount: u32) -> Option<
    Seq<(Seq<char>, u32)>,
> {
    if !entry_contains(s, o) {
        None
    } else {
        let i = entry_position(s, o);
        if s[i].1 < amount {
            None
        } else if s[i].1 == amount {
            Some(s.remove(i))
        } else {
            Some(s.update(i, (o, (s[i].1 - amount) as u32)))
        }
    }
}

/// No owner occurs twice.
pub open spec fn distinct_owners(s: Seq<(Seq<char>, u32)>) -> bool {
    forall|i: int, j: int| 0 <= i < j < s.len() ==> s[i].0 != s[j].0
}

/// Every stored aggregate is positive.
pub open spec fn positive_entries(s: Seq<(Seq<char>, u32)>) -> bool {
    forall|i: int| 0 <= i < s.len() ==> (#[trigger] s[i]).1 >= 1
}

/// The sum is at least any single entry (all entries are non-negative).
pub proof fn lemma_sum_ge_entry(s: Seq<(Seq<char>, u32)>, i: int)
    requires
        0 <= i < s.len(),
    ensures
        sum_thash(s) >= s[i].1,
        sum_thash(s) >= 0,
    decreases s.len(),
{
    lemma_sum_nonneg(s.drop_last());
    if i == s.len() - 1 {
    } else {
        assert(s.drop_last()[i] == s[i]);
        lemma_sum_ge_entry(s.drop_last(), i);
    }
}

/// The sum of non-negative entries is non-negative.
pub proof fn lemma_sum_nonneg(s: Seq<(Seq<char>, u32)>)
    ensures
        sum_thash(s) >= 0,
    decreases s.len(),
{
    if s.len() > 0 {
        lemma_sum_nonneg(s.drop_last());
    }
}

/// The sum decomposes at the front.
pub proof fn lemma_sum_drop_first(s: Seq<(Seq<char>, u32)>)
    requires
        s.len() > 0,
    ensures
        sum_thash(s) == s[0].1 + sum_thash(s.drop_first()),
    decreases s.len(),
{
    if s.len() == 1 {
        assert(s.drop_first() =~= Seq::<(Seq<char>, u32)>::empty());
        assert(s.drop_last() =~= Seq::<(Seq<char>, u32)>::empty());
    } else {
        lemma_sum_drop_first(s.drop_last());
        assert(s.drop_last()[0] == s[0]);
        assert(s.drop_last().drop_first() =~= s.drop_first().drop_last());
        assert(s.drop_first().last() == s.last());
        assert(sum_thash(s.drop_first()) == sum_thash(s.drop_first().drop_last())
            + s.last().1);
    }
}

/// Updating one entry shifts the sum by the difference at that entry.
proof fn lemma_sum_update(s: Seq<(Seq<char>, u32)>, i: int, p: (Seq<char>, u32))
    requires
        0 <= i < s.len(),
    ensures
        sum_thash(s.update(i, p)) == sum_thash(s) - s[i].1 + p.1,
    decreases s.len(),
{
    let t = s.update(i, p);
    if i == s.len() - 1 {
        assert(t.drop_last() =~= s.drop_last());
    } else {
        assert(t.drop_last() =~= s.drop_last().update(i, p));
        assert(t.last() == s.last());
        assert(s.drop_last()[i] == s[i]);
        lemma_sum_update(s.drop_last(), i, p);
    }
}

/// Appending an entry adds its aggregate to the sum.
proof fn lemma_sum_push(s: Seq<(Seq<char>, u32)>, p: (Seq<char>, u32))
    ensures
        sum_thash(s.push(p)) == sum_thash(s) + p.1,
{
    assert(s.push(p).drop_last() =~= s);
}

/// Removing an entry subtracts its aggregate from the sum.
proof fn lemma_sum_remove(s: Seq<(Seq<char>, u32)>, i: int)
    requires
        0 <= i < s.len(),
    ensures
        sum_thash(s.remove(i)) == sum_thash(s) - s[i].1,
    decreases s.len(),
{
    let t = s.remove(i);
    if i == s.len() - 1 {
        assert(t =~= s.drop_last());
    } else {
        assert(t.drop_last() =~= s.drop_last().remove(i));
        assert(t.last() == s.last());
        assert(s.drop_last()[i] == s[i]);
        lemma_sum_remove(s.drop_last(), i);
    }
}

/// Per-owner aggregate hash-power and the global total.
pub struct HashPowerLedger {
    current_total_thash: u32,
    mining_entities: Vec<(String, u32)>,
}

impl View for HashPowerLedger {
    type V = Seq<(Seq<char>, u32)>;

    closed spec fn view(&self) -> Seq<(Seq<char>, u32)> {
        self.mining_entities.deep_view()
    }
}

impl HashPowerLedger {
    /// The total hash-power participating in settlement.
    pub closed spec fn spec_total(&self) -> u32 {
        self.current_total_thash
    }

    /// Distinct owners, positive aggregates, and the total equal to the sum
    /// of the aggregates.
    pub closed spec fn wf(&self) -> bool {
        &&& distinct_owners(self@)
        &&& positive_entries(self@)
        &&& self.current_total_thash as int == sum_thash(self@)
    }

    /// Ledger conservation, visible to clients: the opaque total is exactly
    /// the sum of the per-owner aggregates.
    pub proof fn lemma_conservation(&self)
        requires
            self.wf(),
        ensures
            self.spec_total() as int == sum_thash(self@),
            positive_entries(self@),
            distinct_owners(self@),
    {
    }

    pub fn new() -> (l: Self)
        ensures
            l@ == Seq::<(Seq<char>, u32)>::empty(),
            l.wf(),
            l.spec_total() == 0,
    {
        let l = HashPowerLedger { current_total_thash: 0, mining_entities: Vec::new() };
        proof {
            assert(l@ =~= Seq::<(Seq<char>, u32)>::empty());
        }
        l
    }

    pub fn total(&self) -> (t: u32)
        requires
            self.wf(),
        ensures
            t == self.spec_total(),
            t as int == sum_thash(self@),
    {
        self.current_total_thash
    }

    /// How many owners currently hold hash-power.
    pub fn entity_count(&self) -> (n: usize)
        ensures
            n == self@.len(),
    {
        self.mining_entities.len()
    }

    /// The entry at position `i` in enumeration order.
    pub fn entity_at(&self, i: usize) -> (r: (&String, u32))
        requires
            i < self@.len(),
        ensures
            r.0@ == self@[i as int].0,
            r.1 == self@[i as int].1,
    {
        assert(self@[i as int] == (self.mining_entities@[i as int].0@,
            self.mining_entities@[i as int].1));
        (&self.mining_entities[i].0, self.mining_entities[i].1)
    }

    /// The aggregate recorded for `owner`, if any.
    pub fn get(&self, owner: &String) -> (r: Option<u32>)
        requires
            self.wf(),
        ensures
            r == entry_value(self@, owner@),
    {
        match self.position_of(owner) {
            Some(i) => {
                proof {
                    lemma_position_unique(self@, i as int, owner@);
                }
                Some(self.mining_entities[i].1)
            },
            None => None,
        }
    }

    /// Index of the entry carrying `owner`, if any.
    fn position_of(&self, owner: &String) -> (r: Option<usize>)
        ensures
            match r {
                Some(i) => i < self@.len() && self@[i as int].0 == owner@,
                None => !entry_contains(self@, owner@),
            },
    {
        let n = self.mining_entities.len();
        let mut i: usize = 0;
        while i < n
            invariant
                i <= n,
                n == self@.len(),
                n == self.mining_entities@.len(),
                forall|j: int| 0 <= j < i ==> self@[j].0 != owner@,
            decreases n - i,
        {
            assert(self@[i as int].0 == self.mining_entities@[i as int].0@);
            if self.mining_entities[i].0 == *owner {
                return Some(i);
            }
            i = i + 1;
        }
        None
    }

    /// Credits `amount` to `owner`, creating the entry when absent, and adds
    /// it to the global total.
    pub fn increase(&mut self, owner: &String, amount: u32)
        requires
            old(self).wf(),
            amount >= 1,
            old(self).spec_total() + amount <= u32::MAX,
        ensures
            final(self).wf(),
            final(self)@ == spec_increase(old(self)@, owner@, amount),
            final(self).spec_total() == old(self).spec_total() + amount,
    {
        let ghost s = self@;
        match self.position_of(owner) {
            Some(i) => {
                proof {
                    lemma_position_unique(s, i as int, owner@);
                    lemma_sum_ge_entry(s, i as int);
                    lemma_sum_update(s, i as int, (owner@, (s[i as int].1 + amount) as u32));
                }
                let v = self.mining_entities[i].1;
                self.mining_entities.set(i, (owner.clone(), v + amount));
                self.current_total_thash = self.current_total_thash + amount;
                proof {
                    assert(self@ =~= s.update(i as int, (owner@, (s[i as int].1 + amount) as u32)));
                    assert(forall|p: int| 0 <= p < s.len() ==> self@[p].0 == s[p].0);
                }
            },
            None => {
                self.mining_entities.push((owner.clone(), amount));
                self.current_total_thash = self.current_total_thash + amount;
                proof {
                    assert(self@ =~= s.push((owner@, amount)));
                    lemma_sum_push(s, (owner@, amount));
                    assert forall|p: int, q: int|
                        0 <= p < q < self@.len() implies self@[p].0 != self@[q].0 by {
                        if q < s.len() {
                            assert(self@[p] == s[p] && self@[q] == s[q]);
                        } else {
                            assert(self@[p] == s[p] && self@[q].0 == owner@);
                        }
                    }
                }
            },
        }
    }

    /// Debits `amount` from `owner` and from the global total; fails with
    /// `InternalError`, leaving the ledger unchanged, when the owner has no
    /// entry or too small an aggregate. An aggregate that reaches zero is
    /// removed rather than stored.
    pub fn decrease(&mut self, owner: &String, amount: u32) -> (r: Result<(), Error>)
        requires
            old(self).wf(),
        ensures
            final(self).wf(),
            match spec_decrease(old(self)@, owner@, amount) {
                Some(t) => r == Ok::<(), Error>(()) && final(self)@ == t
                    && final(self).spec_total() == old(self).spec_total() - amount,
                None => r == Err::<(), Error>(Error::InternalError)
                    && *final(self) == *old(self),
            },
    {
        let ghost s = self@;
        match self.position_of(owner) {
            Some(i) => {
                proof {
                    lemma_position_unique(s, i as int, owner@);
                    lemma_sum_ge_entry(s, i as int);
                }
                let v = self.mining_entities[i].1;
                if v < amount {
                    return Err(Error::InternalError);
                }
                if v == amount {
                    proof {
                        lemma_sum_remove(s, i as int);
                    }
                    let _ = self.mining_entities.remove(i);
                    self.current_total_thash = self.current_total_thash - amount;
                    proof {
                        assert(self@ =~= s.remove(i as int));
                        assert forall|a: int, b: int|
                            0 <= a < b < self@.len() implies self@[a].0 != self@[b].0 by {
                            let sa = if a < i { a } else { a + 1 };
                            let sb = if b < i { b } else { b + 1 };
                            assert(self@[a] == s[sa] && self@[b] == s[sb]);
                        }
                        assert(forall|a: int|
                            0 <= a < self@.len() ==> (#[trigger] self@[a]) == s[
                                if a < i { a } else { a + 1 }
                            ]);
                    }
                    Ok(())
                } else {
                    proof {
                        lemma_sum_update(s, i as int, (owner@, (v - amount) as u32));
                    }
                    self.mining_entities.set(i, (owner.clone(), v - amount));
                    self.current_total_thash = self.current_total_thash - amount;
                    proof {
                        assert(self@ =~= s.update(i as int, (owner@, (v - amount) as u32)));
                        assert(forall|p: int| 0 <= p < s.len() ==> self@[p].0 == s[p].0);
                    }
                    Ok(())
                }
            },
            None => Err(Error::InternalError),
        }
    }

    /// A fresh ledger with the same entries and total.
    pub fn duplicate(&self) -> (r: Self)
        requires
            self.wf(),
        ensures
            r.wf(),
            r@ == self@,
            r.spec_total() == self.spec_total(),
    {
        let n = self.mining_entities.len();
        let mut entries: Vec<(String, u32)> = Vec::new();
        let mut i: usize = 0;
        while i < n
            invariant
                i <= n,
                n == self@.len(),
                n == self.mining_entities@.len(),
                entries.deep_view().len() == i,
                forall|j: int| 0 <= j < i ==> entries.deep_view()[j] == self@[j],
            decreases n - i,
        {
            assert(self@[i as int] == (self.mining_entities@[i as int].0@,
                self.mining_entities@[i as int].1));
            let o = self.mining_entities[i].0.clone();
            let v = self.mining_entities[i].1;
            entries.push((o, v));
            i = i + 1;
        }
        let r = HashPowerLedger {
            current_total_thash: self.current_total_thash,
            mining_entities: entries,
        };
        proof {
            assert(r@ =~= self@);
        }
        r
    }
}

/// With distinct owners, any entry carrying `o` sits at `entry_position`.
pub proof fn lemma_position_unique(s: Seq<(Seq<char>, u32)>, i: int, o: Seq<char>)
    requires
        distinct_owners(s),
        0 <= i < s.len(),
        s[i].0 == o,
    ensures
        entry_contains(s, o),
        entry_position(s, o) == i,
        entry_value(s, o) == Some(s[i].1),
{
    assert(entry_contains(s, o));
    let j = entry_position(s, o);
    assert(0 <= j < s.len() && s[j].0 == o);
    if i < j {
        assert(s[i].0 != s[j].0);
    } else if j < i {
        assert(s[j].0 != s[i].0);
    }
}

} // verus!
