use cw4_stake::{
    compute_weight, must_pay_funds, BlockInfo, CallbackData, Claim, Coin, Config,
    ContractError, Denom, Duration, ExecuteMsg, Expiration, InstantiateMsg, Ledger, MigrateMsg,
    OutMsg, PayoutMsg, QueryMsg, QueryResponse,
};

fn native_ledger(tokens_per_weight: u128, min_bond: u128) -> Ledger {
    Ledger::instantiate(InstantiateMsg {
        denom: Denom::Native("ukuji".to_string()),
        tokens_per_weight,
        min_bond,
        unbonding_period: Duration::Height(10),
        admin: Some("admin".to_string()),
    })
}

fn config(tokens_per_weight: u128, min_bond: u128) -> Config {
    Config {
        denom: Denom::Native("ukuji".to_string()),
        tokens_per_weight,
        min_bond,
        unbonding_period: Duration::Time(100),
    }
}

fn block(height: u64, time: u64) -> BlockInfo {
    BlockInfo { height, time }
}

fn total(ledger: &Ledger) -> u128 {
    ledger.query_total_weight()
}

#[test]
fn weight_is_absent_below_min_bond_and_floored_above() {
    let c = config(100, 100);
    assert_eq!(compute_weight(99, &c), None);
    assert_eq!(compute_weight(100, &c), Some(1));
    assert_eq!(compute_weight(199, &c), Some(1));
    assert_eq!(compute_weight(250, &c), Some(2));
    assert_eq!(compute_weight(0, &c), None);
    let mut last = 0u128;
    for s in 100u128..1000 {
        let w = compute_weight(s, &c).unwrap();
        assert!(w >= last);
        last = w;
    }
}

#[test]
fn min_bond_is_raised_to_one() {
    let ledger = native_ledger(10, 0);
    assert_eq!(ledger.query_config().min_bond, 1);
    assert_eq!(compute_weight(0, &ledger.query_config()), None);
}

#[test]
fn stake_scenario_gives_weights_and_total() {
    let mut ledger = native_ledger(100, 100);
    ledger.set_stake("a".to_string(), 250, 1).unwrap();
    assert_eq!(ledger.query_member("a", None), Some(2));
    assert_eq!(total(&ledger), 2);
    ledger.set_stake("b".to_string(), 50, 2).unwrap();
    assert_eq!(ledger.query_member("b", None), None);
    assert_eq!(total(&ledger), 2);
    assert_eq!(ledger.query_staked("b").stake, 50);
    assert_eq!(ledger.query_staked("nobody").stake, 0);
}

#[test]
fn total_matches_sum_of_weights_after_updates_and_migration() {
    let mut ledger = native_ledger(10, 10);
    let names = ["d", "a", "c", "b", "e"];
    let mut h = 1u64;
    for (i, n) in names.iter().enumerate() {
        ledger.set_stake(n.to_string(), (i as u128 + 1) * 35, h).unwrap();
        h += 1;
    }
    ledger.set_stake("c".to_string(), 5, h).unwrap();
    h += 1;
    let sum: u128 = ledger.list_members(None, Some(30)).iter().map(|m| m.weight).sum();
    assert_eq!(sum, total(&ledger));
    ledger.migrate(MigrateMsg { dao_dao_addr: "next".to_string() });
    ledger.migrate_batch(&block(h, 0), 2, 0).unwrap();
    let sum: u128 = ledger.list_members(None, Some(30)).iter().map(|m| m.weight).sum();
    assert_eq!(sum, total(&ledger));
}

#[test]
fn second_update_with_same_stake_is_a_no_op() {
    let mut ledger = native_ledger(100, 100);
    ledger.add_hook("watcher".to_string());
    let first = ledger.update_membership("a".to_string(), 300, 5).unwrap();
    assert_eq!(first.len(), 1);
    assert_eq!(first[0].hook, "watcher");
    assert_eq!(first[0].diff.key, "a");
    assert_eq!(first[0].diff.old, None);
    assert_eq!(first[0].diff.new, Some(3));
    let second = ledger.update_membership("a".to_string(), 300, 6).unwrap();
    assert!(second.is_empty());
    assert_eq!(total(&ledger), 3);
    assert_eq!(ledger.query_member("a", Some(5)), Some(3));
}

#[test]
fn history_keeps_earlier_weights() {
    let mut ledger = native_ledger(100, 100);
    ledger.set_stake("a".to_string(), 200, 10).unwrap();
    ledger.set_stake("a".to_string(), 500, 20).unwrap();
    assert_eq!(ledger.query_member("a", Some(9)), None);
    assert_eq!(ledger.query_member("a", Some(10)), Some(2));
    assert_eq!(ledger.query_member("a", Some(19)), Some(2));
    assert_eq!(ledger.query_member("a", Some(20)), Some(5));
    assert_eq!(ledger.query_member("a", Some(1000)), Some(5));
    assert_eq!(ledger.query_member("a", None), Some(5));
    ledger.set_stake("a".to_string(), 0, 30).unwrap();
    assert_eq!(ledger.query_member("a", Some(29)), Some(5));
    assert_eq!(ledger.query_member("a", Some(30)), None);
    assert_eq!(total(&ledger), 0);
}

#[test]
fn claim_releases_only_matured_amounts() {
    let mut ledger = native_ledger(100, 100);
    ledger.add_claim("c".to_string(), 50, Expiration::AtHeight(5));
    ledger.add_claim("c".to_string(), 30, Expiration::AtHeight(50));
    let now = block(10, 0);
    let resp = ledger.execute(&now, "c".to_string(), ExecuteMsg::Claim { callback: None }).unwrap();
    assert_eq!(resp.messages.len(), 1);
    match &resp.messages[0] {
        OutMsg::Payout(PayoutMsg::Send { to, amount, denom }) => {
            assert_eq!(to, "c");
            assert_eq!(*amount, 50);
            assert_eq!(denom, "ukuji");
        }
        other => panic!("unexpected message {:?}", other),
    }
    assert_eq!(resp.attributes[1], ("tokens".to_string(), "50 ukuji".to_string()));
    assert_eq!(resp.attributes[2], ("sender".to_string(), "c".to_string()));
    assert_eq!(
        ledger.query_claims("c"),
        vec![Claim { amount: 30, release_at: Expiration::AtHeight(50) }]
    );
    let again = ledger.execute(&now, "c".to_string(), ExecuteMsg::Claim { callback: None });
    assert_eq!(again.unwrap_err(), ContractError::NothingToClaim);
}

#[test]
fn claim_with_callback_wraps_the_payout() {
    let mut ledger = native_ledger(100, 100);
    ledger.add_claim("c".to_string(), 70, Expiration::AtTime(1000));
    let cb = CallbackData { data: vec![1, 2, 3] };
    let resp = ledger.claim(&block(1, 1000), "c".to_string(), Some(cb)).unwrap();
    match &resp.messages[0] {
        OutMsg::Payout(PayoutMsg::Callback { to, callback, amount, denom }) => {
            assert_eq!(to, "c");
            assert_eq!(callback.data, vec![1, 2, 3]);
            assert_eq!(*amount, 70);
            assert_eq!(denom, "ukuji");
        }
        other => panic!("unexpected message {:?}", other),
    }
    assert!(ledger.query_claims("c").is_empty());
    assert_eq!(resp.attributes[0], ("action".to_string(), "claim".to_string()));
    assert_eq!(resp.attributes[1], ("tokens".to_string(), "70 ukuji".to_string()));
}

#[test]
fn claim_attribute_writes_large_amounts_in_decimal() {
    let mut ledger = native_ledger(100, 100);
    ledger.add_claim("c".to_string(), 1_234_567_890_123, Expiration::AtHeight(0));
    let resp = ledger.claim(&block(0, 0), "c".to_string(), None).unwrap();
    assert_eq!(resp.attributes[1].1, "1234567890123 ukuji");
}

#[test]
fn claim_with_nothing_stored_fails() {
    let mut ledger = native_ledger(100, 100);
    let r = ledger.claim(&block(1, 1), "x".to_string(), None);
    assert_eq!(r.unwrap_err(), ContractError::NothingToClaim);
    ledger.add_claim("x".to_string(), 5, Expiration::Never);
    let r = ledger.claim(&block(1_000_000, 1_000_000), "x".to_string(), None);
    assert_eq!(r.unwrap_err(), ContractError::NothingToClaim);
}

#[test]
fn token_denom_is_refused_for_claims_and_migration() {
    let mut ledger = Ledger::instantiate(InstantiateMsg {
        denom: Denom::Cw20("token".to_string()),
        tokens_per_weight: 1,
        min_bond: 1,
        unbonding_period: Duration::Height(1),
        admin: None,
    });
    ledger.add_claim("x".to_string(), 5, Expiration::AtHeight(0));
    let r = ledger.claim(&block(1, 1), "x".to_string(), None);
    assert_eq!(r.unwrap_err(), ContractError::UnsupportedDenom);
    assert_eq!(ledger.query_claims("x").len(), 1);
    ledger.migrate(MigrateMsg { dao_dao_addr: "next".to_string() });
    let r = ledger.migrate_batch(&block(1, 1), 1, 1);
    assert_eq!(r.unwrap_err(), ContractError::UnsupportedDenom);
}

#[test]
fn migration_without_successor_fails() {
    let mut ledger = native_ledger(100, 100);
    ledger.set_stake("a".to_string(), 250, 1).unwrap();
    let r = ledger.migrate_batch(&block(2, 0), 1, 0);
    assert_eq!(r.unwrap_err(), ContractError::NoSuccessor);
    assert_eq!(ledger.query_staked("a").stake, 250);
}

#[test]
fn migration_moves_one_entry_per_call_in_address_order() {
    let mut ledger = native_ledger(100, 100);
    ledger.set_stake("b".to_string(), 300, 1).unwrap();
    ledger.set_stake("a".to_string(), 250, 1).unwrap();
    ledger.migrate(MigrateMsg { dao_dao_addr: "next".to_string() });
    assert_eq!(total(&ledger), 5);
    let first = ledger.migrate_batch(&block(2, 0), 1, 0).unwrap();
    assert_eq!(first.contract, "next");
    assert_eq!(first.weights, vec![("a".to_string(), 250)]);
    assert_eq!(first.amount, 250);
    assert_eq!(first.denom, "ukuji");
    assert_eq!(ledger.query_staked("a").stake, 0);
    assert_eq!(ledger.query_staked("b").stake, 300);
    assert_eq!(total(&ledger), 3);
    assert_eq!(ledger.query_member("a", Some(1)), Some(2));
    assert_eq!(ledger.query_member("a", None), None);
    let second = ledger.migrate_batch(&block(3, 0), 1, 0).unwrap();
    assert_eq!(second.weights, vec![("b".to_string(), 300)]);
    assert_eq!(first.amount + second.amount, 550);
    assert_eq!(total(&ledger), 0);
}

#[test]
fn repeated_migration_conserves_tokens() {
    let mut ledger = native_ledger(10, 10);
    let mut staked = 0u128;
    for i in 0..7u128 {
        let amount = 20 + i * 13;
        staked += amount;
        ledger.set_stake(format!("addr{}", i), amount, 1).unwrap();
    }
    ledger.add_claim("addr1".to_string(), 40, Expiration::AtHeight(1));
    ledger.add_claim("addr1".to_string(), 9, Expiration::Never);
    ledger.add_claim("zed".to_string(), 11, Expiration::AtHeight(100));
    ledger.migrate(MigrateMsg { dao_dao_addr: "next".to_string() });
    let mut sent = 0u128;
    let mut names = Vec::new();
    let mut h = 2u64;
    loop {
        let r = ledger.execute(&block(h, 0), "anyone".to_string(), ExecuteMsg::MigrateToDaoDao {
            num: 3,
            num_claims: 1,
        });
        let resp = r.unwrap();
        assert_eq!(resp.attributes, vec![("action".to_string(), "migrate".to_string())]);
        let m = match &resp.messages[0] {
            OutMsg::Migrate(m) => m,
            other => panic!("unexpected message {:?}", other),
        };
        if m.weights.is_empty() && m.claims.is_empty() {
            assert_eq!(m.amount, 0);
            break;
        }
        sent += m.amount;
        names.extend(m.weights.iter().map(|w| w.0.clone()));
        h += 1;
    }
    assert_eq!(sent, staked + 40 + 9 + 11);
    let mut sorted = names.clone();
    sorted.sort();
    sorted.dedup();
    assert_eq!(names, sorted);
    assert_eq!(names.len(), 7);
    assert_eq!(total(&ledger), 0);
    assert!(ledger.list_members(None, Some(30)).is_empty());
    assert_eq!(ledger.query_admin(), Some("admin".to_string()));
    assert_eq!(ledger.query_config().tokens_per_weight, 10);
    assert_eq!(ledger.query_hooks().len(), 0);
}

#[test]
fn migration_with_zero_batch_sizes_moves_nothing() {
    let mut ledger = native_ledger(100, 100);
    ledger.set_stake("a".to_string(), 250, 1).unwrap();
    ledger.add_claim("a".to_string(), 5, Expiration::Never);
    ledger.migrate(MigrateMsg { dao_dao_addr: "next".to_string() });
    let m = ledger.migrate_batch(&block(2, 0), 0, 0).unwrap();
    assert!(m.weights.is_empty());
    assert!(m.claims.is_empty());
    assert_eq!(m.amount, 0);
    assert_eq!(ledger.query_staked("a").stake, 250);
    assert_eq!(ledger.query_member("a", None), Some(2));
    assert_eq!(total(&ledger), 2);
    assert_eq!(ledger.query_claims("a").len(), 1);
}

#[test]
fn member_listing_clamps_large_pages() {
    let mut ledger = native_ledger(1, 1);
    for i in 0..35u128 {
        ledger.set_stake(format!("m{:02}", i), i + 1, 1).unwrap();
    }
    let page = ledger.list_members(None, Some(1000));
    assert_eq!(page.len(), 30);
    assert_eq!(page[0].addr, "m00");
    assert_eq!(page[29].addr, "m29");
    let default_page = ledger.list_members(None, None);
    assert_eq!(default_page.len(), 10);
    let rest = ledger.list_members(Some("m29".to_string()), Some(1000));
    assert_eq!(rest.len(), 5);
    assert_eq!(rest[0].addr, "m30");
    assert_eq!(rest[0].weight, 31);
    let between = ledger.list_members(Some("m295".to_string()), Some(2));
    assert_eq!(between.len(), 2);
    assert_eq!(between[0].addr, "m30");
}

#[test]
fn query_dispatch_answers_each_shape() {
    let mut ledger = native_ledger(100, 100);
    ledger.add_hook("h1".to_string());
    ledger.set_stake("a".to_string(), 250, 1).unwrap();
    match ledger.query(QueryMsg::TotalWeight {}) {
        QueryResponse::TotalWeight(w) => assert_eq!(w, 2),
        other => panic!("{:?}", other),
    }
    match ledger.query(QueryMsg::Member { addr: "a".to_string(), at_height: Some(0) }) {
        QueryResponse::Member(w) => assert_eq!(w, None),
        other => panic!("{:?}", other),
    }
    match ledger.query(QueryMsg::Staked { address: "a".to_string() }) {
        QueryResponse::Staked(s) => {
            assert_eq!(s.stake, 250);
            assert_eq!(s.denom, Denom::Native("ukuji".to_string()));
        }
        other => panic!("{:?}", other),
    }
    match ledger.query(QueryMsg::Hooks {}) {
        QueryResponse::Hooks(h) => assert_eq!(h, vec!["h1".to_string()]),
        other => panic!("{:?}", other),
    }
    match ledger.query(QueryMsg::Admin {}) {
        QueryResponse::Admin(a) => assert_eq!(a, Some("admin".to_string())),
        other => panic!("{:?}", other),
    }
    match ledger.query(QueryMsg::Config {}) {
        QueryResponse::Config(c) => assert_eq!(c.tokens_per_weight, 100),
        other => panic!("{:?}", other),
    }
    match ledger.query(QueryMsg::ListMembers { start_after: None, limit: None }) {
        QueryResponse::ListMembers(m) => assert_eq!(m.len(), 1),
        other => panic!("{:?}", other),
    }
    match ledger.query(QueryMsg::Claims { address: "a".to_string() }) {
        QueryResponse::Claims(c) => assert!(c.is_empty()),
        other => panic!("{:?}", other),
    }
}

#[test]
fn total_overflow_is_refused_without_change() {
    let mut ledger = native_ledger(1, 1);
    ledger.set_stake("a".to_string(), u128::MAX, 1).unwrap();
    let r = ledger.set_stake("b".to_string(), 1, 2);
    assert_eq!(r.unwrap_err(), ContractError::Overflow);
    assert_eq!(ledger.query_staked("b").stake, 0);
    assert_eq!(ledger.query_member("b", None), None);
    assert_eq!(total(&ledger), u128::MAX);
}

#[test]
fn migration_overflow_is_refused_without_change() {
    let mut ledger = native_ledger(u128::MAX, u128::MAX);
    ledger.set_stake("a".to_string(), u128::MAX, 1).unwrap();
    ledger.add_claim("a".to_string(), 1, Expiration::Never);
    ledger.migrate(MigrateMsg { dao_dao_addr: "next".to_string() });
    let r = ledger.migrate_batch(&block(2, 0), 1, 1);
    assert_eq!(r.unwrap_err(), ContractError::Overflow);
    assert_eq!(ledger.query_staked("a").stake, u128::MAX);
    assert_eq!(ledger.query_claims("a").len(), 1);
}

#[test]
fn payment_checks_each_case() {
    assert_eq!(must_pay_funds(&vec![], "ukuji"), Err(ContractError::NoFunds));
    let one = vec![Coin { denom: "ukuji".to_string(), amount: 42 }];
    assert_eq!(must_pay_funds(&one, "ukuji"), Ok(42));
    assert_eq!(
        must_pay_funds(&one, "uatom"),
        Err(ContractError::MissingDenom("uatom".to_string()))
    );
    let two = vec![
        Coin { denom: "ukuji".to_string(), amount: 1 },
        Coin { denom: "uatom".to_string(), amount: 2 },
    ];
    assert_eq!(
        must_pay_funds(&two, "ukuji"),
        Err(ContractError::ExtraDenoms("ukuji".to_string()))
    );
}

#[test]
fn parts_round_trip_and_invalid_parts_are_refused() {
    let mut ledger = native_ledger(100, 100);
    ledger.set_stake("b".to_string(), 300, 4).unwrap();
    ledger.set_stake("a".to_string(), 250, 5).unwrap();
    ledger.add_claim("a".to_string(), 9, Expiration::AtHeight(7));
    assert_eq!(ledger.last_height(), 5);
    let parts = ledger.into_parts();
    assert_eq!(parts.total, 5);
    assert_eq!(parts.stakes, vec![("a".to_string(), 250), ("b".to_string(), 300)]);
    let back = Ledger::from_parts(parts).unwrap();
    assert_eq!(back.query_member("b", Some(4)), Some(3));
    assert_eq!(back.query_member("a", Some(4)), None);
    assert_eq!(back.query_claims("a").len(), 1);

    let mut bad = back.into_parts();
    bad.total = 6;
    assert!(Ledger::from_parts(bad).is_none());
    let mut unsorted = native_ledger(1, 1).into_parts();
    unsorted.stakes = vec![("b".to_string(), 1), ("a".to_string(), 1)];
    assert!(Ledger::from_parts(unsorted).is_none());
}
