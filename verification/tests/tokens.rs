use miner_ledger::internal::{bytes_for_approved_account_id, refund_approved_account_ids,
    STORAGE_PRICE_PER_BYTE};
use miner_ledger::ledger::HashPowerLedger;
use miner_ledger::scheduler::PowerScheduler;
use miner_ledger::mining::MiningPool;
use miner_ledger::nft_metadata::{NonFungibleTokenMetadata, TokenMetadata};
use miner_ledger::sset::StringSet;
use miner_ledger::state::Contract;
use miner_ledger::types::{Error, MinerMetadata, PW_ON, ST_NORMAL};

fn meta_with_copies(copies: Option<u64>) -> TokenMetadata {
    TokenMetadata {
        title: Some(String::from("Power")),
        description: None,
        media: None,
        media_hash: None,
        copies,
        issued_at: None,
        expires_at: None,
        starts_at: None,
        updated_at: None,
        extra: None,
        reference: None,
        reference_hash: None,
    }
}

fn miner_meta() -> MinerMetadata {
    MinerMetadata {
        producer: String::from("acme"),
        category: String::from("fire"),
        thash: 100,
        w: 10,
    }
}

fn setup() -> (Contract, String, String, String) {
    let mut c = Contract::new(String::from("boss"), 0);
    c.create_miner_type(&String::from("m"), meta_with_copies(None), miner_meta());
    let x = c.add_miner(&String::from("alice"), &String::from("m"), &String::from("0"));
    (c, String::from("alice"), String::from("bob"), x)
}

#[test]
fn minting_indexes_the_token() {
    let (c, a, _, x) = setup();
    assert_eq!(x, String::from("m#0"));
    let t = c.miners_by_id.get(&x).unwrap();
    assert_eq!(t.owner_id, a);
    assert_eq!(t.operator, a);
    assert_eq!(t.status, ST_NORMAL);
    assert_eq!(t.power_left, 0);
    assert_eq!(t.sn, String::from("0"));
    assert_eq!(t.metadata_id, String::from("m"));
    assert_eq!(t.miner_metadata_id, String::from("m"));
    let by_type = c.miners_per_owner.get(&a).unwrap();
    assert!(by_type.get(&String::from("m")).unwrap().contains(&x));
}

#[test]
fn transfer_moves_token_and_index() {
    let (mut c, a, b, x) = setup();
    let (previous, approved) = c.internal_transfer(&a, &b, &x, None).unwrap();
    assert_eq!(previous, a);
    assert_eq!(approved.len(), 0);
    assert_eq!(c.miners_by_id.get(&x).unwrap().owner_id, b);
    // The sender's emptied containers are pruned at once.
    assert!(c.miners_per_owner.get(&a).is_none());
    assert!(c.miners_per_owner.get(&b).unwrap().get(&String::from("m")).unwrap().contains(&x));
}

#[test]
fn transfer_rejects_bad_callers() {
    let (mut c, a, b, x) = setup();
    assert_eq!(
        c.internal_transfer(&String::from("eve"), &b, &x, None).unwrap_err(),
        Error::Unauthorized
    );
    assert_eq!(
        c.internal_transfer(&a, &b, &String::from("m#7"), None).unwrap_err(),
        Error::NotFound
    );
    assert_eq!(
        c.internal_transfer(&a, &b, &x, Some(&String::from("carol"))).unwrap_err(),
        Error::OwnerMismatch
    );
    assert_eq!(c.internal_transfer(&a, &a, &x, None).unwrap_err(), Error::SelfTransfer);
    // Nothing changed on any failed path.
    assert_eq!(c.miners_by_id.get(&x).unwrap().owner_id, a);
}

#[test]
fn transfer_clears_approvals() {
    let (mut c, a, b, x) = setup();
    let carol = String::from("carol");
    assert!(c.approve_account(&a, &x, &carol).is_ok());
    assert_eq!(
        c.approve_account(&b, &x, &carol).unwrap_err(),
        Error::Unauthorized
    );
    // An approved account may transfer on the owner's behalf.
    let (previous, approved) = c.internal_transfer(&carol, &b, &x, Some(&a)).unwrap();
    assert_eq!(previous, a);
    assert_eq!(approved.len(), 1);
    assert!(approved.contains(&carol));
    // Approvals were cleared by the transfer: carol lost her delegation.
    assert_eq!(
        c.internal_transfer(&carol, &a, &x, None).unwrap_err(),
        Error::Unauthorized
    );
}

#[test]
fn transfer_keeps_power_state() {
    let (mut c, a, b, x) = setup();
    let mut t = c.miners_by_id.take(&x).unwrap();
    t.power_left = 35;
    c.miners_by_id.insert(x.clone(), t);
    assert!(c.power_on_miner(&a, &x).is_ok());
    c.internal_transfer(&a, &b, &x, None).unwrap();
    let t = c.miners_by_id.get(&x).unwrap();
    assert_eq!(t.switch, PW_ON);
    assert_eq!(t.power_left, 5);
    assert_eq!(t.power_deadline, 3);
    assert!(c.power_events.get(3).unwrap().contains(&x));
}

#[test]
fn batch_transfer_keeps_earlier_items_on_failure() {
    let (mut c, a, b, x) = setup();
    let y = c.add_miner(&a, &String::from("m"), &String::from("1"));
    let ids = vec![x.clone(), String::from("m#9"), y.clone()];
    assert_eq!(
        c.batch_transfer_miners(&a, &b, &ids).unwrap_err(),
        Error::NotFound
    );
    assert_eq!(c.miners_by_id.get(&x).unwrap().owner_id, b);
    assert_eq!(c.miners_by_id.get(&y).unwrap().owner_id, a);
    assert!(c.batch_transfer_miners(&a, &b, &vec![y.clone()]).is_ok());
    assert_eq!(c.miners_by_id.get(&y).unwrap().owner_id, b);
}

#[test]
fn index_remove_detects_inconsistency() {
    let (mut c, a, _, x) = setup();
    assert_eq!(
        c.internal_remove_token_from_owner(&String::from("eve"), &String::from("m"), &x),
        Err(Error::InconsistentIndex)
    );
    assert!(
        c.internal_remove_token_from_owner(&a, &String::from("m"), &x).is_ok()
    );
    assert!(c.miners_per_owner.get(&a).is_none());
}

#[test]
fn power_cards_transfer_and_prune() {
    let mut c = Contract::new(String::from("boss"), 0);
    let a = String::from("alice");
    let b = String::from("bob");
    let card = String::from("card");
    c.issue_power_cards(&a, &card, meta_with_copies(Some(5)));
    assert_eq!(c.powers_per_owner.get(&a).unwrap().get(&card), Some(&5));

    assert!(c.batch_transfer_powers(&a, &b, &card, 3).is_ok());
    assert_eq!(c.powers_per_owner.get(&a).unwrap().get(&card), Some(&2));
    assert_eq!(c.powers_per_owner.get(&b).unwrap().get(&card), Some(&3));

    assert_eq!(
        c.batch_transfer_powers(&a, &b, &card, 3).unwrap_err(),
        Error::InsufficientBalance
    );
    assert!(c.batch_transfer_powers(&a, &b, &card, 2).is_ok());
    // The sender's emptied holdings are pruned entirely.
    assert!(c.powers_per_owner.get(&a).is_none());
    assert_eq!(c.powers_per_owner.get(&b).unwrap().get(&card), Some(&5));

    assert_eq!(
        c.batch_transfer_powers(&String::from("carol"), &b, &card, 1).unwrap_err(),
        Error::InsufficientBalance
    );
}

#[test]
fn issue_power_cards_defaults_to_one_copy() {
    let mut c = Contract::new(String::from("boss"), 0);
    let a = String::from("alice");
    let card = String::from("card");
    c.issue_power_cards(&a, &card, meta_with_copies(None));
    assert_eq!(c.powers_per_owner.get(&a).unwrap().get(&card), Some(&1));
}

#[test]
fn approval_storage_costs_are_exact() {
    assert_eq!(bytes_for_approved_account_id(&String::from("alice")), 9);
    let mut approved = StringSet::new();
    approved.insert(String::from("alice"));
    approved.insert(String::from("bob"));
    // (5 + 4) + (3 + 4) bytes at the per-byte price.
    assert_eq!(
        refund_approved_account_ids(&approved),
        16 * STORAGE_PRICE_PER_BYTE
    );
}

#[test]
fn owner_guard_distinguishes_callers() {
    let c = Contract::new(String::from("boss"), 0);
    assert!(c.assert_owner(&String::from("boss")).is_ok());
    assert_eq!(
        c.assert_owner(&String::from("eve")).unwrap_err(),
        Error::NotAuthorized
    );
}

#[test]
fn collection_metadata_is_fixed() {
    let c = Contract::new(String::from("boss"), 0);
    let m = c.nft_metadata();
    assert_eq!(m.spec, String::from("findsatoshi-nft-1.0.0"));
    assert_eq!(m.name, String::from("FindsatoshiNft"));
    assert_eq!(m.symbol, String::from("FST"));
}

#[test]
fn mining_pool_flattens_for_readers() {
    let mut miners = StringSet::new();
    miners.insert(String::from("m#0"));
    miners.insert(String::from("m#1"));
    let pool = MiningPool {
        owner_id: String::from("pool"),
        name: String::from("deep"),
        status: 0,
        switch: 0,
        total_thash: 0,
        miners,
    };
    let readable = pool.to_human_readable();
    assert_eq!(readable.miners, vec![String::from("m#0"), String::from("m#1")]);
    assert_eq!(readable.owner_id, String::from("pool"));
    assert_eq!(readable.name, String::from("deep"));
}

#[test]
fn string_set_deduplicates_and_keeps_order() {
    let mut s = StringSet::new();
    s.insert(String::from("a"));
    s.insert(String::from("b"));
    s.insert(String::from("a"));
    assert_eq!(s.len(), 2);
    assert!(s.contains(&String::from("a")));
    assert!(!s.contains(&String::from("c")));
    assert!(s.remove(&String::from("a")));
    assert!(!s.remove(&String::from("a")));
    assert_eq!(s.to_vec(), vec![String::from("b")]);
}

#[test]
fn map_keys_enumerate_in_insertion_order() {
    let mut c = Contract::new(String::from("boss"), 0);
    c.create_miner_type(&String::from("beta"), meta_with_copies(None), miner_meta());
    c.create_miner_type(&String::from("alfa"), meta_with_copies(None), miner_meta());
    assert_eq!(
        c.miner_metadata_by_id.keys(),
        vec![String::from("beta"), String::from("alfa")]
    );
}

#[test]
fn hash_ledger_conserves_and_removes_zero_entries() {
    let a = String::from("a");
    let b = String::from("b");
    let mut l = HashPowerLedger::new();
    l.increase(&a, 5);
    l.increase(&b, 7);
    l.increase(&a, 3);
    assert_eq!(l.total(), 15);
    assert_eq!(l.get(&a), Some(8));
    assert_eq!(l.get(&b), Some(7));
    assert_eq!(l.entity_count(), 2);
    // Enumeration order is insertion order; updates stay in place.
    assert_eq!(l.entity_at(0).0, &a);
    assert_eq!(l.entity_at(0).1, 8);
    assert_eq!(l.entity_at(1).0, &b);

    // An aggregate that reaches zero is removed, not stored as zero.
    assert!(l.decrease(&a, 8).is_ok());
    assert_eq!(l.get(&a), None);
    assert_eq!(l.total(), 7);
    assert_eq!(l.entity_count(), 1);

    // Debits beyond the aggregate, or of absent owners, fail loudly and
    // change nothing.
    assert_eq!(l.decrease(&a, 1), Err(Error::InternalError));
    assert_eq!(l.decrease(&b, 9), Err(Error::InternalError));
    assert_eq!(l.total(), 7);
}

#[test]
fn power_scheduler_prunes_empty_events() {
    let x = String::from("m#0");
    let y = String::from("m#1");
    let mut s = PowerScheduler::new();
    s.schedule(x.clone(), 7);
    s.schedule(y.clone(), 7);
    s.schedule(x.clone(), 7);
    let at7 = s.get(7).unwrap();
    assert_eq!(at7.len(), 2);
    assert!(at7.contains(&x) && at7.contains(&y));
    assert!(s.get(8).is_none());

    assert!(s.unschedule(&x, 7).is_ok());
    assert_eq!(s.get(7).unwrap().len(), 1);
    assert!(s.unschedule(&y, 7).is_ok());
    assert!(s.get(7).is_none());
    assert_eq!(s.unschedule(&y, 7), Err(Error::InternalError));

    s.schedule(x.clone(), 9);
    let drained = s.drain(9).unwrap();
    assert!(drained.contains(&x));
    assert!(s.get(9).is_none());
    assert!(s.drain(9).is_none());
}
