//! The contract state: the token store, the two-level owner index, the
//! hash-power ledger, the power scheduler and the epoch counters, together
//! with the cross-structure invariants that every operation preserves.

use vstd::prelude::*;

use crate::ledger::HashPowerLedger;
use crate::mining::MiningPool;
use crate::nft_metadata::TokenMetadata;
use crate::scheduler::PowerScheduler;
use crate::smap::{StringMap, WellFormed};
use crate::sset::StringSet;
use crate::types::{AccountId, Balance, BlockHeight, MinerMetadata, MiningEpoch, Thash, Token,
    TokenView, PW_OFF, PW_ON};

verus! {

/// The token with id `id` is indexed under owner `o` and type `m`.
pub open spec fn index_has_in(
    idx: Map<Seq<char>, Map<Seq<char>, Seq<Seq<char>>>>,
    o: Seq<char>,
    m: Seq<char>,
    id: Seq<char>,
) -> bool {
    &&& idx.contains_key(o)
    &&& idx[o].contains_key(m)
    &&& idx[o][m].contains(id)
}

/// A token id appears in the owner index under owner `o` and type `m`
/// exactly when the token store holds it with owner `o` and type `m`.
pub open spec fn index_consistent_maps(
    tokens: Map<Seq<char>, TokenView>,
    idx: Map<Seq<char>, Map<Seq<char>, Seq<Seq<char>>>>,
) -> bool {
    &&& forall|id: Seq<char>| #[trigger]
        tokens.contains_key(id) ==> index_has_in(
            idx,
            tokens[id].owner_id,
            tokens[id].miner_metadata_id,
            id,
        )
    &&& forall|o: Seq<char>, m: Seq<char>, id: Seq<char>|
        idx.contains_key(o) && idx[o].contains_key(m) && #[trigger] idx[o][m].contains(id)
            ==> tokens.contains_key(id) && tokens[id].owner_id == o
            && tokens[id].miner_metadata_id == m
}

/// Dangling empty containers are pruned from the owner index at once.
pub open spec fn index_pruned_maps(idx: Map<Seq<char>, Map<Seq<char>, Seq<Seq<char>>>>) -> bool {
    &&& forall|o: Seq<char>| #[trigger]
        idx.contains_key(o) ==> idx[o] != Map::<Seq<char>, Seq<Seq<char>>>::empty()
    &&& forall|o: Seq<char>, m: Seq<char>|
        idx.contains_key(o) && #[trigger] idx[o].contains_key(m) ==> idx[o][m].len() > 0
}

/// A token id is scheduled at epoch `e` exactly when its switch is on and
/// its power deadline is `e`.
pub open spec fn scheduler_consistent_maps(
    tokens: Map<Seq<char>, TokenView>,
    events: Map<u32, Seq<Seq<char>>>,
) -> bool {
    &&& forall|e: u32, id: Seq<char>|
        events.contains_key(e) && #[trigger] events[e].contains(id) ==> tokens.contains_key(id)
            && tokens[id].switch == PW_ON && tokens[id].power_deadline == e
    &&& forall|id: Seq<char>|
        #[trigger] tokens.contains_key(id) && tokens[id].switch == PW_ON ==> events.contains_key(
            tokens[id].power_deadline,
        ) && events[tokens[id].power_deadline].contains(id)
}

/// Replacing a stored token by one with the same owner and type leaves the
/// owner index consistent.
pub proof fn lemma_index_consistent_update_same_owner(
    tokens: Map<Seq<char>, TokenView>,
    idx: Map<Seq<char>, Map<Seq<char>, Seq<Seq<char>>>>,
    tid: Seq<char>,
    t2: TokenView,
)
    requires
        index_consistent_maps(tokens, idx),
        tokens.contains_key(tid),
        t2.owner_id == tokens[tid].owner_id,
        t2.miner_metadata_id == tokens[tid].miner_metadata_id,
    ensures
        index_consistent_maps(tokens.insert(tid, t2), idx),
{
    let tokens2 = tokens.insert(tid, t2);
    assert forall|id: Seq<char>| #[trigger]
        tokens2.contains_key(id) implies index_has_in(
        idx,
        tokens2[id].owner_id,
        tokens2[id].miner_metadata_id,
        id,
    ) by {
        assert(tokens.contains_key(id));
    }
}

/// Replacing a stored token by one with the same switch and deadline leaves
/// the power scheduler consistent.
pub proof fn lemma_scheduler_consistent_update(
    tokens: Map<Seq<char>, TokenView>,
    events: Map<u32, Seq<Seq<char>>>,
    tid: Seq<char>,
    t2: TokenView,
)
    requires
        scheduler_consistent_maps(tokens, events),
        tokens.contains_key(tid),
        t2.switch == tokens[tid].switch,
        t2.power_deadline == tokens[tid].power_deadline,
    ensures
        scheduler_consistent_maps(tokens.insert(tid, t2), events),
{
    let tokens2 = tokens.insert(tid, t2);
    assert forall|id: Seq<char>|
        #[trigger] tokens2.contains_key(id) && tokens2[id].switch == PW_ON implies events
        .contains_key(tokens2[id].power_deadline) && events[tokens2[id].power_deadline].contains(
        id,
    ) by {
        assert(tokens.contains_key(id));
        assert(tokens[id].switch == tokens2[id].switch);
    }
}

/// The persistent state of the mining contract.
///
/// Compared with the host-ledger layout, the global `current_total_thash`
/// scalar and the `mining_entities` map live together inside `hash_ledger`,
/// so that conservation is an invariant of one structure.
pub struct Contract {
    /// Owner of this contract; the only account allowed to settle epochs,
    /// and the fallback block producer.
    pub owner_id: AccountId,
    /// Standard metadata per metadata-type id, designated at mint time.
    pub token_metadata_by_id: StringMap<TokenMetadata>,
    /// Miner attributes per metadata-type id; only miners have these.
    pub miner_metadata_by_id: StringMap<MinerMetadata>,
    /// Every miner is a token; a token id is formed as the metadata-type id,
    /// `#`, and the serial number.
    pub miners_by_id: StringMap<Token>,
    /// Owner account to metadata-type id to set of owned token ids.
    pub miners_per_owner: StringMap<StringMap<StringSet>>,
    /// Owner account to power-card type to number of copies held; the copies
    /// of one power card are identical, so only the amount is recorded.
    pub powers_per_owner: StringMap<StringMap<u32>>,
    /// Each epoch the award is distributed to some miner or pool.
    pub current_mining_epoch: MiningEpoch,
    pub epoch_award: Balance,
    /// An epoch can be settled only this many blocks after the previous one.
    pub min_interval_of_epoch: BlockHeight,
    pub current_epoch_start_at: BlockHeight,
    /// Per-owner aggregate hash-power and the participating total; the
    /// weighted lottery draws a winner from these entries.
    pub hash_ledger: HashPowerLedger,
    /// Power events: when each powered-on miner's stored power runs out.
    pub power_events: PowerScheduler,
    /// Mining-pool support (reserved; pooled mining is not settled yet).
    pub mining_pools: StringMap<MiningPool>,
}

impl Contract {
    /// Every container keeps its own shape: distinct keys, well-formed
    /// stored values, positive ledger entries, conservation of the total.
    pub open spec fn containers_wf(self) -> bool {
        &&& self.token_metadata_by_id.wf()
        &&& self.miner_metadata_by_id.wf()
        &&& self.miners_by_id.wf()
        &&& self.miners_per_owner.wf()
        &&& self.powers_per_owner.wf()
        &&& self.hash_ledger.wf()
        &&& self.power_events.wf()
        &&& self.mining_pools.wf()
    }

    /// Stored miner types have a positive hash rate and a positive drain
    /// rate, so one powered-on miner always credits hash-power and always
    /// consumes power.
    pub open spec fn types_ok(self) -> bool {
        forall|m: Seq<char>| #[trigger]
            self.miner_metadata_by_id@.contains_key(m) ==> self.miner_metadata_by_id@[m].w >= 1
                && self.miner_metadata_by_id@[m].thash >= 1
    }

    /// Per-token facts: its miner type exists; the switch is a valid value;
    /// while powered on, the deadline lies strictly in the future and the
    /// eventual refund fits the power counter.
    pub open spec fn token_ok(self, t: TokenView) -> bool {
        &&& self.miner_metadata_by_id@.contains_key(t.miner_metadata_id)
        &&& t.switch == PW_ON || t.switch == PW_OFF
        &&& t.switch == PW_ON ==> t.power_deadline > self.current_mining_epoch
            && t.power_left + (t.power_deadline - self.current_mining_epoch)
                * self.miner_metadata_by_id@[t.miner_metadata_id].w <= u32::MAX
    }

    pub open spec fn tokens_ok(self) -> bool {
        forall|id: Seq<char>| #[trigger]
            self.miners_by_id@.contains_key(id) ==> self.token_ok(self.miners_by_id@[id])
    }

    /// The token with id `id` is indexed under owner `o` and type `m`.
    pub open spec fn index_has(self, o: Seq<char>, m: Seq<char>, id: Seq<char>) -> bool {
        index_has_in(self.miners_per_owner@, o, m, id)
    }

    /// A token id appears in the owner index under owner `o` and type `m`
    /// exactly when the token exists, is owned by `o` and has type `m`.
    pub open spec fn index_consistent(self) -> bool {
        index_consistent_maps(self.miners_by_id@, self.miners_per_owner@)
    }

    /// Dangling empty containers are pruned from the owner index at once.
    pub open spec fn index_pruned(self) -> bool {
        index_pruned_maps(self.miners_per_owner@)
    }

    /// Power-card holdings are positive and empty containers are pruned.
    pub open spec fn powers_ok(self) -> bool {
        &&& forall|o: Seq<char>| #[trigger]
            self.powers_per_owner@.contains_key(o) ==> self.powers_per_owner@[o]
                != Map::<Seq<char>, u32>::empty()
        &&& forall|o: Seq<char>, c: Seq<char>|
            self.powers_per_owner@.contains_key(o) && #[trigger] self.powers_per_owner@[
                o
            ].contains_key(c) ==> self.powers_per_owner@[o][c] >= 1
    }

    /// A token id is scheduled at epoch `e` exactly when its switch is on
    /// and its power deadline is `e`.
    pub open spec fn scheduler_consistent(self) -> bool {
        scheduler_consistent_maps(self.miners_by_id@, self.power_events@)
    }

    /// All invariants of the contract state together. Every public
    /// operation preserves this predicate.
    pub open spec fn wf(self) -> bool {
        &&& self.containers_wf()
        &&& self.types_ok()
        &&& self.tokens_ok()
        &&& self.index_consistent()
        &&& self.index_pruned()
        &&& crate::index::index_sets_distinct_maps(self.miners_per_owner@)
        &&& self.powers_ok()
        &&& self.scheduler_consistent()
    }

    /// A fresh contract with no tokens, no hash-power and epoch zero.
    pub fn new(owner_id: AccountId, current_block: BlockHeight) -> (c: Self)
        ensures
            c.wf(),
            c.owner_id@ == owner_id@,
            c.miners_by_id@ == Map::<Seq<char>, TokenView>::empty(),
            c.miners_per_owner@ == Map::<Seq<char>, Map<Seq<char>, Seq<Seq<char>>>>::empty(),
            c.powers_per_owner@ == Map::<Seq<char>, Map<Seq<char>, u32>>::empty(),
            c.token_metadata_by_id@ == Map::<Seq<char>, TokenMetadata>::empty(),
            c.miner_metadata_by_id@ == Map::<Seq<char>, MinerMetadata>::empty(),
            c.hash_ledger@ == Seq::<(Seq<char>, u32)>::empty(),
            c.hash_ledger.spec_total() == 0,
            c.power_events@ == Map::<u32, Seq<Seq<char>>>::empty(),
            c.current_mining_epoch == 0,
            c.current_epoch_start_at == current_block,
            c.epoch_award == 2500000000u128,
            c.min_interval_of_epoch == 3600u64,
    {
        Contract {
            owner_id,
            token_metadata_by_id: StringMap::new(),
            miner_metadata_by_id: StringMap::new(),
            miners_by_id: StringMap::new(),
            miners_per_owner: StringMap::new(),
            powers_per_owner: StringMap::new(),
            current_mining_epoch: 0,
            epoch_award: 2500000000,
            min_interval_of_epoch: 3600,
            current_epoch_start_at: current_block,
            hash_ledger: HashPowerLedger::new(),
            power_events: PowerScheduler::new(),
            mining_pools: StringMap::new(),
        }
    }

    /// The total hash-power participating in settlement.
    pub fn current_total_thash(&self) -> (t: Thash)
        requires
            self.hash_ledger.wf(),
        ensures
            t == self.hash_ledger.spec_total(),
    {
        self.hash_ledger.total()
    }
}

} // verus!
