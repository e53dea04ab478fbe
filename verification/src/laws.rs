//! The laws the library guarantees across operations, stated over the same
//! specification functions the operations' contracts use. Every mutating
//! operation ensures `Contract::wf`, so each law applies after any sequence
//! of operations.

use vstd::prelude::*;
use vstd::arithmetic::div_mod::{lemma_fundamental_div_mod, lemma_mod_division_less_than_divisor};

use crate::ledger::{distinct_owners, entry_contains, entry_position, lemma_position_unique,
    lemma_sum_ge_entry, positive_entries, spec_decrease, spec_increase, sum_thash};
use crate::mining::{spec_power_off, spec_power_on, spec_powered_off_token, spec_powered_on_token,
    MiningView};
use crate::scheduler::{spec_schedule, spec_unschedule};
use crate::state::{index_consistent_maps, scheduler_consistent_maps, Contract};
use crate::types::{MinerMetadata, PW_OFF, ST_NORMAL};

verus! {

/// Index consistency: in every well-formed state, a token id appears in
/// the owner index under owner and type exactly as the token store records
/// it. Every operation returns a well-formed state, so this holds after
/// any sequence of adds, removes and transfers.
pub proof fn law_index_consistency(c: Contract)
    requires
        c.wf(),
    ensures
        index_consistent_maps(c.miners_by_id@, c.miners_per_owner@),
{
}

/// Ledger conservation: in every well-formed state the global total equals
/// the sum of the per-owner aggregates, every aggregate is positive, and
/// no owner appears twice. Every operation returns a well-formed state, so
/// this holds after any sequence of power switches and expiries.
pub proof fn law_ledger_conservation(c: Contract)
    requires
        c.wf(),
    ensures
        c.hash_ledger.spec_total() as int == sum_thash(c.hash_ledger@),
        positive_entries(c.hash_ledger@),
        distinct_owners(c.hash_ledger@),
{
    c.hash_ledger.lemma_conservation();
}

/// Scheduler correctness: in every well-formed state a token id sits in
/// the power scheduler at an epoch exactly when its switch is on and its
/// power deadline is that epoch.
pub proof fn law_scheduler_correctness(c: Contract)
    requires
        c.wf(),
    ensures
        scheduler_consistent_maps(c.miners_by_id@, c.power_events@),
{
}

/// Crediting and at once debiting the same hash-power gives the ledger
/// entries back unchanged.
proof fn lemma_increase_decrease_cancel(s: Seq<(Seq<char>, u32)>, o: Seq<char>, amount: u32)
    requires
        distinct_owners(s),
        positive_entries(s),
        amount >= 1,
        entry_contains(s, o) ==> s[entry_position(s, o)].1 + amount <= u32::MAX,
    ensures
        spec_decrease(spec_increase(s, o, amount), o, amount) == Some(s),
{
    let s1 = spec_increase(s, o, amount);
    if entry_contains(s, o) {
        let i = entry_position(s, o);
        assert(s1 == s.update(i, (o, (s[i].1 + amount) as u32)));
        assert(forall|p: int| 0 <= p < s.len() ==> s1[p].0 == s[p].0);
        lemma_position_unique(s1, i, o);
        assert(s1[i].1 == s[i].1 + amount);
        assert(s1[i].1 > amount);
        assert(spec_decrease(s1, o, amount) == Some(
            s1.update(i, (o, (s1[i].1 - amount) as u32)),
        ));
        assert(s[i].0 == o);
        assert(s1.update(i, (o, (s1[i].1 - amount) as u32)) =~= s);
    } else {
        assert(s1 == s.push((o, amount)));
        let n = s.len() as int;
        assert(s1[n].0 == o);
        assert forall|p: int, q: int| 0 <= p < q < s1.len() implies s1[p].0 != s1[q].0 by {
            if q < n {
                assert(s1[p] == s[p] && s1[q] == s[q]);
            } else {
                assert(s1[p] == s[p]);
                assert(s.contains(s[p]));
                assert(!entry_contains(s, o));
            }
        }
        lemma_position_unique(s1, n, o);
        assert(s1[n].1 == amount);
        assert(spec_decrease(s1, o, amount) == Some(s1.remove(n)));
        assert(s1.remove(n) =~= s);
    }
}

/// Scheduling a token at an epoch and at once unscheduling it gives the
/// power events back unchanged, as long as the token was not already
/// scheduled there and no stored event set is empty.
proof fn lemma_schedule_unschedule_cancel(
    events: Map<u32, Seq<Seq<char>>>,
    e: u32,
    id: Seq<char>,
)
    requires
        events.contains_key(e) ==> events[e].len() > 0 && !events[e].contains(id),
    ensures
        spec_unschedule(spec_schedule(events, e, id), e, id) == Some(events),
{
    let s = if events.contains_key(e) {
        events[e]
    } else {
        Seq::<Seq<char>>::empty()
    };
    let s1 = s.push(id);
    let m1 = spec_schedule(events, e, id);
    assert(m1 == events.insert(e, s1));
    assert(s1[s.len() as int] == id);
    assert(s1.contains(id));
    let i = s1.index_of(id);
    assert(0 <= i < s1.len() && s1[i] == id);
    assert(i == s.len() as int) by {
        if i < s.len() {
            assert(s[i] == id);
            assert(s.contains(id));
        }
    }
    assert(crate::sset::remove_seq_value(s1, id) =~= s);
    if events.contains_key(e) {
        assert(spec_unschedule(m1, e, id) == Some(m1.insert(e, s)));
        assert(m1.insert(e, s) =~= events);
    } else {
        assert(spec_unschedule(m1, e, id) == Some(m1.remove(e)));
        assert(m1.remove(e) =~= events);
    }
}

/// The power round trip: powering a miner on with `power_left = p` and at
/// once powering it off again, with no epoch advance in between, restores
/// `power_left` to exactly `p` — the refund equals the consumption when
/// zero epochs have elapsed — and returns the hash-power ledger and the
/// power schedule to exactly their previous values.
pub proof fn law_power_round_trip(
    v: MiningView,
    types: Map<Seq<char>, MinerMetadata>,
    epoch: u32,
    caller: Seq<char>,
    tid: Seq<char>,
)
    requires
        v.tokens.contains_key(tid),
        ({
            let t = v.tokens[tid];
            let meta = types[t.miner_metadata_id];
            &&& t.owner_id == caller
            &&& t.operator == t.owner_id
            &&& t.status == ST_NORMAL
            &&& t.switch == PW_OFF
            &&& types.contains_key(t.miner_metadata_id)
            &&& meta.w >= 1
            &&& meta.thash >= 1
            &&& t.power_left / meta.w >= 1
            &&& epoch + t.power_left / meta.w <= u32::MAX
            &&& v.total + meta.thash <= u32::MAX
            &&& distinct_owners(v.entities)
            &&& positive_entries(v.entities)
            &&& sum_thash(v.entities) == v.total as int
            &&& ({
                let deadline = (epoch + t.power_left / meta.w) as u32;
                v.events.contains_key(deadline) ==> v.events[deadline].len() > 0
                    && !v.events[deadline].contains(tid)
            })
        }),
    ensures
        ({
            let (v1, e1) = spec_power_on(v, types, epoch, caller, tid);
            let (v2, e2) = spec_power_off(v1, types, epoch, caller, tid);
            &&& e1 is None
            &&& e2 is None
            &&& v2.tokens[tid].power_left == v.tokens[tid].power_left
            &&& v2.tokens[tid].switch == PW_OFF
            &&& v2.entities == v.entities
            &&& v2.total == v.total
            &&& v2.events == v.events
        }),
{
    let t = v.tokens[tid];
    let meta = types[t.miner_metadata_id];
    let (v1, e1) = spec_power_on(v, types, epoch, caller, tid);
    let t2 = spec_powered_on_token(t, epoch, meta.w);
    assert(v1.tokens[tid] == t2);

    if entry_contains(v.entities, t.owner_id) {
        lemma_sum_ge_entry(v.entities, entry_position(v.entities, t.owner_id));
        lemma_position_unique(
            v.entities,
            entry_position(v.entities, t.owner_id),
            t.owner_id,
        );
    }
    lemma_increase_decrease_cancel(v.entities, t.owner_id, meta.thash);
    lemma_schedule_unschedule_cancel(v.events, t2.power_deadline, tid);

    let (v2, e2) = spec_power_off(v1, types, epoch, caller, tid);
    lemma_fundamental_div_mod(t.power_left as int, meta.w as int);
    lemma_mod_division_less_than_divisor(t.power_left as int, meta.w as int);
    assert(meta.w as int * (t.power_left as int / meta.w as int) == (t.power_left as int
        / meta.w as int) * meta.w as int) by (nonlinear_arith);
    assert(v2.tokens[tid] == spec_powered_off_token(t2, epoch, meta.w));
    assert(v2.tokens[tid].power_left == t.power_left);
}

} // verus!
