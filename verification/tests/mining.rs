use miner_ledger::nft_metadata::TokenMetadata;
use miner_ledger::state::Contract;
use miner_ledger::types::{Error, MinerMetadata, PW_OFF, PW_ON};

fn meta(title: &str) -> TokenMetadata {
    TokenMetadata {
        title: Some(String::from(title)),
        description: None,
        media: None,
        media_hash: None,
        copies: None,
        issued_at: None,
        expires_at: None,
        starts_at: None,
        updated_at: None,
        extra: None,
        reference: None,
        reference_hash: None,
    }
}

fn miner_meta(thash: u32, w: u32) -> MinerMetadata {
    MinerMetadata {
        producer: String::from("acme"),
        category: String::from("fire"),
        thash,
        w,
    }
}

/// Mints one miner of a fresh type and charges it with `power_left`.
fn charged_miner(c: &mut Contract, owner: &str, type_id: &str, thash: u32, w: u32, power: u32)
    -> String {
    c.create_miner_type(&String::from(type_id), meta("Miner"), miner_meta(thash, w));
    let id = c.add_miner(&String::from(owner), &String::from(type_id), &String::from("0"));
    let mut t = c.miners_by_id.take(&id).unwrap();
    t.power_left = power;
    c.miners_by_id.insert(id.clone(), t);
    id
}

#[test]
fn power_on_consumes_whole_epochs() {
    let mut c = Contract::new(String::from("boss"), 0);
    let a = String::from("alice");
    let x = charged_miner(&mut c, "alice", "m", 100, 10, 35);

    assert!(c.power_on_miner(&a, &x).is_ok());

    let t = c.miners_by_id.get(&x).unwrap();
    assert_eq!(t.switch, PW_ON);
    assert_eq!(t.power_left, 5);
    assert_eq!(t.power_deadline, 3);
    assert_eq!(c.hash_ledger.get(&a), Some(100));
    assert_eq!(c.current_total_thash(), 100);
    let set = c.power_events.get(3).unwrap();
    assert!(set.contains(&x));
    assert_eq!(set.len(), 1);
}

#[test]
fn power_round_trip_restores_power() {
    let mut c = Contract::new(String::from("boss"), 0);
    let a = String::from("alice");
    let x = charged_miner(&mut c, "alice", "m", 100, 10, 35);

    assert!(c.power_on_miner(&a, &x).is_ok());
    assert!(c.power_off_miner(&a, &x).is_ok());

    let t = c.miners_by_id.get(&x).unwrap();
    assert_eq!(t.switch, PW_OFF);
    assert_eq!(t.power_left, 35);
    assert_eq!(c.hash_ledger.get(&a), None);
    assert_eq!(c.current_total_thash(), 0);
    assert!(c.power_events.get(3).is_none());
}

#[test]
fn power_on_rejects_small_charge() {
    let mut c = Contract::new(String::from("boss"), 0);
    let a = String::from("alice");
    let x = charged_miner(&mut c, "alice", "m", 100, 10, 9);
    assert_eq!(c.power_on_miner(&a, &x), Err(Error::InsufficientPower));
    assert_eq!(c.miners_by_id.get(&x).unwrap().switch, PW_OFF);
}

#[test]
fn power_on_checks_control() {
    let mut c = Contract::new(String::from("boss"), 0);
    let x = charged_miner(&mut c, "alice", "m", 100, 10, 35);
    assert_eq!(c.power_on_miner(&String::from("eve"), &x), Err(Error::Forbidden));
    assert_eq!(
        c.power_on_miner(&String::from("alice"), &String::from("m#9")),
        Err(Error::NotFound)
    );
}

#[test]
fn power_on_twice_is_a_noop() {
    let mut c = Contract::new(String::from("boss"), 0);
    let a = String::from("alice");
    let x = charged_miner(&mut c, "alice", "m", 100, 10, 35);
    assert!(c.power_on_miner(&a, &x).is_ok());
    assert!(c.power_on_miner(&a, &x).is_ok());
    assert_eq!(c.miners_by_id.get(&x).unwrap().power_left, 5);
    assert_eq!(c.current_total_thash(), 100);
}

#[test]
fn settlement_guards_caller_and_interval() {
    let mut c = Contract::new(String::from("boss"), 0);
    let seed = vec![0u8; 32];
    assert_eq!(
        c.settle_mining_epoch(&String::from("eve"), 4000, &seed).unwrap_err(),
        Error::NotAuthorized
    );
    assert_eq!(
        c.settle_mining_epoch(&String::from("boss"), 3599, &seed).unwrap_err(),
        Error::TooSoon
    );
    let r = c.settle_mining_epoch(&String::from("boss"), 3600, &seed).unwrap();
    assert_eq!(r.epoch, 0);
    assert_eq!(r.epoch_award, 2500000000);
    assert_eq!(c.current_mining_epoch, 1);
    assert_eq!(c.current_epoch_start_at, 3600);
}

#[test]
fn settlement_with_no_hash_power_selects_owner() {
    let mut c = Contract::new(String::from("boss"), 0);
    let seed = vec![0xffu8; 32];
    let r = c.settle_mining_epoch(&String::from("boss"), 3600, &seed).unwrap();
    assert_eq!(r.block_producer, String::from("boss"));
    assert_eq!(r.random_value, 0);
}

#[test]
fn forced_expiry_keeps_remainder_and_frees_hash_power() {
    let mut c = Contract::new(String::from("boss"), 0);
    let a = String::from("alice");
    let boss = String::from("boss");
    let x = charged_miner(&mut c, "alice", "m", 100, 10, 35);
    assert!(c.power_on_miner(&a, &x).is_ok());
    // Deadline is epoch 3: the first two settlements leave the miner on.
    let seed = vec![0u8; 32];
    c.settle_mining_epoch(&boss, 3600, &seed).unwrap();
    c.settle_mining_epoch(&boss, 7200, &seed).unwrap();
    assert_eq!(c.miners_by_id.get(&x).unwrap().switch, PW_ON);
    assert_eq!(c.current_total_thash(), 100);
    // The third settlement closes epoch 3 and drains the power event.
    c.settle_mining_epoch(&boss, 10800, &seed).unwrap();
    let t = c.miners_by_id.get(&x).unwrap();
    assert_eq!(t.switch, PW_OFF);
    // Not refunded on forced expiry: the remainder stays.
    assert_eq!(t.power_left, 5);
    assert_eq!(c.hash_ledger.get(&a), None);
    assert_eq!(c.current_total_thash(), 0);
    assert!(c.power_events.get(3).is_none());
}

#[test]
fn lottery_selects_by_cumulative_range() {
    let mut c = Contract::new(String::from("boss"), 0);
    let a = String::from("alice");
    let b = String::from("bob");
    let x = charged_miner(&mut c, "alice", "t300", 300, 10, 100);
    c.create_miner_type(&String::from("t700"), meta("Miner"), miner_meta(700, 10));
    let y = c.add_miner(&b, &String::from("t700"), &String::from("0"));
    let mut t = c.miners_by_id.take(&y).unwrap();
    t.power_left = 100;
    c.miners_by_id.insert(y.clone(), t);

    assert!(c.power_on_miner(&a, &x).is_ok());
    assert!(c.power_on_miner(&b, &y).is_ok());
    assert_eq!(c.current_total_thash(), 1000);

    // Border reaches 300 after alice: 250 falls in her range.
    assert_eq!(c.find_block_producer(250), a);
    // 650 falls past alice's 300 into bob's range ending at 1000.
    assert_eq!(c.find_block_producer(650), b);
    // At or past the total, the fallback owner is selected.
    assert_eq!(c.find_block_producer(1000), String::from("boss"));
}

#[test]
fn random_value_is_scaled_into_range() {
    let mut c = Contract::new(String::from("boss"), 0);
    let a = String::from("alice");
    let x = charged_miner(&mut c, "alice", "m", 1000, 10, 100);
    assert!(c.power_on_miner(&a, &x).is_ok());
    assert_eq!(c.current_total_thash(), 1000);

    // An all-zero seed draws zero.
    assert_eq!(c.make_random_value(&vec![0u8; 32]), 0);
    // A seed of exactly half the 128-bit range draws half the total.
    let mut seed = vec![0u8; 32];
    seed[15] = 0x80;
    assert_eq!(c.make_random_value(&seed), 500);
    // The largest seed still draws below the total.
    assert_eq!(c.make_random_value(&vec![0xffu8; 32]), 999);
}

#[test]
fn power_off_after_transfer_fails_loudly() {
    let mut c = Contract::new(String::from("boss"), 0);
    let a = String::from("alice");
    let b = String::from("bob");
    let x = charged_miner(&mut c, "alice", "m", 100, 10, 35);
    assert!(c.power_on_miner(&a, &x).is_ok());
    // The transfer leaves the switch on but moves ownership; bob has no
    // hash-power entry, and he is not the operator either.
    c.internal_transfer(&a, &b, &x, None).unwrap();
    assert_eq!(c.power_off_miner(&b, &x), Err(Error::Forbidden));
    assert_eq!(c.current_total_thash(), 100);
    // The forced expiry then hits the missing ledger entry.
    let seed = vec![0u8; 32];
    c.settle_mining_epoch(&String::from("boss"), 3600, &seed).unwrap();
    c.settle_mining_epoch(&String::from("boss"), 7200, &seed).unwrap();
    assert_eq!(
        c.settle_mining_epoch(&String::from("boss"), 10800, &seed).unwrap_err(),
        Error::InternalError
    );
    // Atomic failure: the epoch did not advance, the miner stayed on.
    assert_eq!(c.current_mining_epoch, 2);
    assert_eq!(c.miners_by_id.get(&x).unwrap().switch, PW_ON);
}

#[test]
fn batch_power_switches_fail_atomically() {
    let mut c = Contract::new(String::from("boss"), 0);
    let a = String::from("alice");
    c.create_miner_type(&String::from("m"), meta("Miner"), miner_meta(100, 10));
    let x = c.add_miner(&a, &String::from("m"), &String::from("0"));
    let y = c.add_miner(&a, &String::from("m"), &String::from("1"));
    for id in [&x, &y] {
        let mut t = c.miners_by_id.take(id).unwrap();
        t.power_left = 20;
        c.miners_by_id.insert(id.clone(), t);
    }
    // A missing id mid-batch fails the whole batch: the chargeable miner
    // before it stays off and no hash-power is credited.
    let ids = vec![x.clone(), String::from("m#9"), y.clone()];
    assert_eq!(c.batch_poweron_miners(&a, &ids), Err(Error::NotFound));
    assert_eq!(c.miners_by_id.get(&x).unwrap().switch, PW_OFF);
    assert_eq!(c.miners_by_id.get(&y).unwrap().switch, PW_OFF);
    assert_eq!(c.current_total_thash(), 0);
    assert!(c.power_events.get(2).is_none());

    // A clean batch applies wholly; a repeat is a batch of no-ops.
    assert!(c.batch_poweron_miners(&a, &vec![x.clone(), y.clone()]).is_ok());
    assert_eq!(c.current_total_thash(), 200);
    assert!(c.batch_poweron_miners(&a, &vec![x.clone(), y.clone()]).is_ok());
    assert_eq!(c.current_total_thash(), 200);

    // A failing power-off batch also changes nothing.
    assert_eq!(
        c.batch_poweroff_miners(&a, &vec![x.clone(), String::from("m#9")]),
        Err(Error::NotFound)
    );
    assert_eq!(c.miners_by_id.get(&x).unwrap().switch, PW_ON);
    assert_eq!(c.current_total_thash(), 200);

    assert!(c.batch_poweroff_miners(&a, &vec![x.clone(), y.clone()]).is_ok());
    assert_eq!(c.current_total_thash(), 0);
    assert_eq!(c.miners_by_id.get(&x).unwrap().power_left, 20);
}

#[test]
fn batch_power_on_control_and_charge_checks_are_atomic() {
    let mut c = Contract::new(String::from("boss"), 0);
    let a = String::from("alice");
    let b = String::from("bob");
    c.create_miner_type(&String::from("m"), meta("Miner"), miner_meta(100, 10));
    let x = c.add_miner(&a, &String::from("m"), &String::from("0"));
    let z = c.add_miner(&b, &String::from("m"), &String::from("1"));
    let w = c.add_miner(&a, &String::from("m"), &String::from("2"));
    for (id, power) in [(&x, 20u32), (&z, 20), (&w, 5)] {
        let mut t = c.miners_by_id.take(id).unwrap();
        t.power_left = power;
        c.miners_by_id.insert(id.clone(), t);
    }
    // Someone else's miner mid-batch: Forbidden, nothing applied.
    assert_eq!(
        c.batch_poweron_miners(&a, &vec![x.clone(), z.clone()]),
        Err(Error::Forbidden)
    );
    assert_eq!(c.miners_by_id.get(&x).unwrap().switch, PW_OFF);
    assert_eq!(c.current_total_thash(), 0);
    // A charge below one epoch mid-batch: InsufficientPower, nothing applied.
    assert_eq!(
        c.batch_poweron_miners(&a, &vec![x.clone(), w.clone()]),
        Err(Error::InsufficientPower)
    );
    assert_eq!(c.miners_by_id.get(&x).unwrap().switch, PW_OFF);
    assert_eq!(c.current_total_thash(), 0);
    assert!(c.power_events.get(2).is_none());
}

#[test]
fn get_power_helpers_compute_exactly() {
    let c = Contract::new(String::from("boss"), 0);
    let m = miner_meta(100, 10);
    assert_eq!(c.get_power_endline(35, &m), (5, 3));
    assert_eq!(c.get_power_consume(35, &m), (30, 3));
    assert_eq!(c.get_power_refund(3, &m), 30);
}

#[test]
fn settlement_draw_selects_producer_end_to_end() {
    let mut c = Contract::new(String::from("boss"), 0);
    let a = String::from("alice");
    let b = String::from("bob");
    let x = charged_miner(&mut c, "alice", "t300", 300, 10, 100);
    c.create_miner_type(&String::from("t700"), meta("Miner"), miner_meta(700, 10));
    let y = c.add_miner(&b, &String::from("t700"), &String::from("0"));
    let mut t = c.miners_by_id.take(&y).unwrap();
    t.power_left = 100;
    c.miners_by_id.insert(y.clone(), t);
    assert!(c.power_on_miner(&a, &x).is_ok());
    assert!(c.power_on_miner(&b, &y).is_ok());

    // Half the 128-bit seed range draws 500 of the 1000 total: past
    // alice's range of 300, inside bob's range ending at 1000.
    let mut seed = vec![0u8; 32];
    seed[15] = 0x80;
    let r = c.settle_mining_epoch(&String::from("boss"), 3600, &seed).unwrap();
    assert_eq!(r.random_value, 500);
    assert_eq!(r.block_producer, b);
}

#[test]
fn shared_power_event_prunes_only_when_empty() {
    let mut c = Contract::new(String::from("boss"), 0);
    let a = String::from("alice");
    c.create_miner_type(&String::from("m"), meta("Miner"), miner_meta(100, 10));
    let x = c.add_miner(&a, &String::from("m"), &String::from("0"));
    let y = c.add_miner(&a, &String::from("m"), &String::from("1"));
    for id in [&x, &y] {
        let mut t = c.miners_by_id.take(id).unwrap();
        t.power_left = 30;
        c.miners_by_id.insert(id.clone(), t);
    }
    assert!(c.power_on_miner(&a, &x).is_ok());
    assert!(c.power_on_miner(&a, &y).is_ok());
    // Both miners share the power event at epoch 3.
    assert_eq!(c.power_events.get(3).unwrap().len(), 2);

    assert!(c.power_off_miner(&a, &x).is_ok());
    let set = c.power_events.get(3).unwrap();
    assert_eq!(set.len(), 1);
    assert!(set.contains(&y));
    assert_eq!(c.hash_ledger.get(&a), Some(100));

    assert!(c.power_off_miner(&a, &y).is_ok());
    assert!(c.power_events.get(3).is_none());
    assert_eq!(c.current_total_thash(), 0);
}

#[test]
fn new_contract_has_initial_epoch_state() {
    let c = Contract::new(String::from("boss"), 42);
    assert_eq!(c.owner_id, String::from("boss"));
    assert_eq!(c.current_mining_epoch, 0);
    assert_eq!(c.current_epoch_start_at, 42);
    assert_eq!(c.min_interval_of_epoch, 3600);
    assert_eq!(c.epoch_award, 2500000000);
    assert_eq!(c.current_total_thash(), 0);
}
