use op_pool::crypto::encode_user_operation;
use op_pool::errors::{error_info, interpret_error_info, ErrorReason, RpcErrorKind};
use op_pool::pool::{MempoolError, OnNewBlockEvent, PoolConfig};
use op_pool::reputation::ReputationParams;
use op_pool::server::{AddOpRequest, OpPoolImpl, RawMempoolOp, RawReputation, ServiceError};
use op_pool::types::{Address, EntityKind, OpHash, UserOperation};
use op_pool::u256::U256;

const TEST_ADDRESS_ARR: [u8; 20] = [
    0x11, 0xAB, 0xB0, 0x5d, 0x9A, 0xd3, 0x18, 0xbf, 0x65, 0x65, 0x26, 0x72, 0xB1, 0x3b, 0x1d,
    0xcb, 0x0E, 0x6D, 0x4a, 0x32,
];

const NOW: u64 = 1_700_000_000;

fn addr(last: u8) -> [u8; 20] {
    let mut a = [0u8; 20];
    a[0] = 0xAA;
    a[19] = last;
    a
}

fn u256_le(v: u128) -> Vec<u8> {
    let mut out = v.to_le_bytes().to_vec();
    out.extend_from_slice(&[0u8; 16]);
    out
}

fn raw_op(sender: [u8; 20], nonce: u128, max_fee: u128, prio_fee: u128, paymaster: Option<[u8; 20]>) -> RawMempoolOp {
    RawMempoolOp {
        sender: sender.to_vec(),
        nonce: u256_le(nonce),
        max_fee_per_gas: u256_le(max_fee),
        max_priority_fee_per_gas: u256_le(prio_fee),
        paymaster: paymaster.map(|p| p.to_vec()).unwrap_or_default(),
        factory: Vec::new(),
        aggregator: Vec::new(),
        call_data: vec![1, 2, 3],
        valid_after: 0,
        valid_until: 0,
        expected_code_hash: vec![0u8; 32],
        sim_block_hash: vec![0u8; 32],
        expected_storage_slots: Vec::new(),
        entities_needing_stake: Vec::new(),
        account_is_staked: false,
    }
}

fn empty_raw_op() -> RawMempoolOp {
    RawMempoolOp {
        sender: Vec::new(),
        nonce: Vec::new(),
        max_fee_per_gas: Vec::new(),
        max_priority_fee_per_gas: Vec::new(),
        paymaster: Vec::new(),
        factory: Vec::new(),
        aggregator: Vec::new(),
        call_data: Vec::new(),
        valid_after: 0,
        valid_until: 0,
        expected_code_hash: Vec::new(),
        sim_block_hash: Vec::new(),
        expected_storage_slots: Vec::new(),
        entities_needing_stake: Vec::new(),
        account_is_staked: false,
    }
}

fn given_oppool() -> OpPoolImpl {
    given_oppool_with(16, 100, 1000)
}

fn given_oppool_with(cap: usize, throttling_slack: u64, banning_slack: u64) -> OpPoolImpl {
    let eps = vec![Address::parse(&TEST_ADDRESS_ARR.to_vec()).unwrap()];
    OpPoolImpl::new(
        1,
        &eps,
        PoolConfig { max_pool_size: cap, replacement_bump_percent: 10 },
        ReputationParams { throttling_slack, banning_slack, decay_hours: 24 },
    )
}

fn expected_hash(op: &RawMempoolOp) -> OpHash {
    let uo = UserOperation {
        sender: Address::parse(&op.sender).unwrap(),
        nonce: op_pool::server::parse_u256_le(&op.nonce).unwrap(),
        max_fee_per_gas: op_pool::server::parse_u256_le(&op.max_fee_per_gas).unwrap(),
        max_priority_fee_per_gas: op_pool::server::parse_u256_le(&op.max_priority_fee_per_gas)
            .unwrap(),
        paymaster: if op.paymaster.is_empty() {
            None
        } else {
            Some(Address::parse(&op.paymaster).unwrap())
        },
        factory: None,
        aggregator: None,
        call_data: op.call_data.clone(),
    };
    let ep = Address::parse(&TEST_ADDRESS_ARR.to_vec()).unwrap();
    let encoding = encode_user_operation(&uo, &ep, 1);
    let digest = ethers_core::utils::keccak256(&encoding);
    OpHash::parse(&digest.to_vec()).unwrap()
}

#[test]
fn test_check_entry_point() {
    let pool = given_oppool();
    let result = pool.get_mempool_for_entry_point(&TEST_ADDRESS_ARR.to_vec());
    assert!(result.is_ok());
}

#[test]
fn test_add_op_fails_with_mismatch_entry_point() {
    let mut oppool = given_oppool();
    let request = AddOpRequest { entry_point: [0; 20].to_vec(), op: None };

    let result = oppool.add_op(request, NOW);

    assert!(result.is_err());
    let result = result.unwrap_err();
    assert_eq!(result, ServiceError::UnsupportedEntryPoint);
}

#[test]
fn test_add_op_fails_with_null_uop() {
    let mut oppool = given_oppool();
    let request = AddOpRequest { entry_point: TEST_ADDRESS_ARR.to_vec(), op: None };

    let result = oppool.add_op(request, NOW);

    assert!(result.is_err());
    let result = result.unwrap_err();
    assert_eq!(result, ServiceError::InvalidArgument);
}

#[test]
fn test_add_op_fails_with_bad_proto_op() {
    let mut oppool = given_oppool();
    let request = AddOpRequest { entry_point: TEST_ADDRESS_ARR.to_vec(), op: Some(empty_raw_op()) };

    let result = oppool.add_op(request, NOW);

    assert!(result.is_err());
    let result = result.unwrap_err();
    assert_eq!(result, ServiceError::InvalidArgument);
}

#[test]
fn add_op_returns_canonical_hash_and_counts_seen() {
    // an empty pool accepts the operation, returns its canonical hash, and
    // the paymaster's seen-counter moves to one
    let mut oppool = given_oppool();
    let op1 = raw_op(addr(1), 1, 3_000_000_000, 2_000_000_000, Some(addr(9)));
    let want = expected_hash(&op1);

    let got = oppool
        .add_op(AddOpRequest { entry_point: TEST_ADDRESS_ARR.to_vec(), op: Some(op1) }, NOW)
        .expect("admission should succeed");
    assert_eq!(got, want);

    let ops = oppool.get_ops(&TEST_ADDRESS_ARR.to_vec(), 10).unwrap();
    assert_eq!(ops.len(), 1);
    assert_eq!(ops[0].uo.sender, Address::parse(&addr(1).to_vec()).unwrap());

    let reps = oppool.debug_dump_reputation(&TEST_ADDRESS_ARR.to_vec(), NOW).unwrap();
    let paymaster = Address::parse(&addr(9).to_vec()).unwrap();
    let entry = reps.iter().find(|r| r.address == paymaster).expect("paymaster tracked");
    assert_eq!(entry.ops_seen, 1);
    assert_eq!(entry.ops_included, 0);
}

#[test]
fn replacement_below_ten_percent_is_underpriced() {
    let mut oppool = given_oppool();
    let op1 = raw_op(addr(1), 1, 3_000_000_000, 2_000_000_000, Some(addr(9)));
    oppool
        .add_op(AddOpRequest { entry_point: TEST_ADDRESS_ARR.to_vec(), op: Some(op1) }, NOW)
        .unwrap();

    // 2.05 gwei is a 2.5% bump: rejected, pool unchanged, seen counted again
    let op2 = raw_op(addr(1), 1, 3_075_000_000, 2_050_000_000, Some(addr(9)));
    let result = oppool
        .add_op(AddOpRequest { entry_point: TEST_ADDRESS_ARR.to_vec(), op: Some(op2) }, NOW);
    match result {
        Err(ServiceError::Mempool(MempoolError::ReplacementUnderpriced(_, _))) => {}
        other => panic!("expected an underpriced replacement, got {:?}", other),
    }

    let ops = oppool.get_ops(&TEST_ADDRESS_ARR.to_vec(), 10).unwrap();
    assert_eq!(ops.len(), 1);
    assert_eq!(ops[0].uo.max_priority_fee_per_gas, U256 { w0: 2_000_000_000, w1: 0, w2: 0, w3: 0 });

    let reps = oppool.debug_dump_reputation(&TEST_ADDRESS_ARR.to_vec(), NOW).unwrap();
    let paymaster = Address::parse(&addr(9).to_vec()).unwrap();
    let entry = reps.iter().find(|r| r.address == paymaster).unwrap();
    assert_eq!(entry.ops_seen, 2);
}

#[test]
fn replacement_at_ten_percent_wins() {
    let mut oppool = given_oppool();
    let op1 = raw_op(addr(1), 1, 3_000_000_000, 2_000_000_000, Some(addr(9)));
    let h1 = oppool
        .add_op(AddOpRequest { entry_point: TEST_ADDRESS_ARR.to_vec(), op: Some(op1) }, NOW)
        .unwrap();

    // 2.2 gwei and a 10% higher max fee: replaces the incumbent
    let op3 = raw_op(addr(1), 1, 3_300_000_000, 2_200_000_000, Some(addr(9)));
    let h3 = oppool
        .add_op(AddOpRequest { entry_point: TEST_ADDRESS_ARR.to_vec(), op: Some(op3) }, NOW)
        .expect("replacement should succeed");
    assert_ne!(h1, h3);

    let ops = oppool.get_ops(&TEST_ADDRESS_ARR.to_vec(), 10).unwrap();
    assert_eq!(ops.len(), 1);
    assert_eq!(ops[0].uo.max_priority_fee_per_gas, U256 { w0: 2_200_000_000, w1: 0, w2: 0, w3: 0 });
}

#[test]
fn full_pool_evicts_the_lowest_priority() {
    let mut oppool = given_oppool_with(2, 100, 1000);
    let ep = TEST_ADDRESS_ARR.to_vec();
    oppool
        .add_op(AddOpRequest { entry_point: ep.clone(), op: Some(raw_op(addr(1), 1, 9, 5, None)) }, NOW)
        .unwrap();
    oppool
        .add_op(AddOpRequest { entry_point: ep.clone(), op: Some(raw_op(addr(2), 1, 9, 3, None)) }, NOW)
        .unwrap();

    // fee 4 beats the resident minimum of 3: the 3-fee operation leaves
    oppool
        .add_op(AddOpRequest { entry_point: ep.clone(), op: Some(raw_op(addr(3), 1, 9, 4, None)) }, NOW)
        .expect("eviction should make room");

    let ops = oppool.get_ops(&ep, 10).unwrap();
    assert_eq!(ops.len(), 2);
    assert_eq!(ops[0].uo.max_priority_fee_per_gas, U256 { w0: 5, w1: 0, w2: 0, w3: 0 });
    assert_eq!(ops[1].uo.max_priority_fee_per_gas, U256 { w0: 4, w1: 0, w2: 0, w3: 0 });

    // a newcomer that does not beat the minimum is itself discarded
    let result = oppool
        .add_op(AddOpRequest { entry_point: ep.clone(), op: Some(raw_op(addr(4), 1, 9, 4, None)) }, NOW);
    assert_eq!(result, Err(ServiceError::Mempool(MempoolError::DiscardedOnInsert)));
}

#[test]
fn banned_paymaster_is_rejected() {
    let mut oppool = given_oppool_with(16, 10, 100);
    let ep = TEST_ADDRESS_ARR.to_vec();
    let p = addr(9);
    oppool
        .debug_set_reputation(
            &ep,
            &vec![RawReputation { address: p.to_vec(), ops_seen: 1000, ops_included: 0 }],
            NOW,
        )
        .unwrap();

    let result = oppool
        .add_op(AddOpRequest { entry_point: ep.clone(), op: Some(raw_op(addr(1), 1, 9, 5, Some(p))) }, NOW);
    match result {
        Err(ServiceError::Mempool(MempoolError::EntityThrottled(EntityKind::Paymaster, a))) => {
            assert_eq!(a, Address::parse(&p.to_vec()).unwrap());
        }
        other => panic!("expected a throttled entity, got {:?}", other),
    }

    let dump = oppool.debug_dump_mempool(&ep).unwrap();
    assert_eq!(dump.len(), 0);
}

#[test]
fn throttled_paymaster_may_hold_one_operation() {
    let mut oppool = given_oppool_with(16, 10, 1000);
    let ep = TEST_ADDRESS_ARR.to_vec();
    let p = addr(9);
    oppool
        .debug_set_reputation(
            &ep,
            &vec![RawReputation { address: p.to_vec(), ops_seen: 100, ops_included: 0 }],
            NOW,
        )
        .unwrap();

    // throttled but absent from the pool: admitted
    oppool
        .add_op(AddOpRequest { entry_point: ep.clone(), op: Some(raw_op(addr(1), 1, 9, 5, Some(p))) }, NOW)
        .expect("first throttled operation is admitted");
    // second operation for the same throttled paymaster: rejected
    let result = oppool
        .add_op(AddOpRequest { entry_point: ep.clone(), op: Some(raw_op(addr(2), 1, 9, 5, Some(p))) }, NOW);
    match result {
        Err(ServiceError::Mempool(MempoolError::EntityThrottled(EntityKind::Paymaster, _))) => {}
        other => panic!("expected a throttled entity, got {:?}", other),
    }
}

#[test]
fn insert_then_remove_restores_the_pool() {
    let mut oppool = given_oppool();
    let ep = TEST_ADDRESS_ARR.to_vec();
    let h = oppool
        .add_op(AddOpRequest { entry_point: ep.clone(), op: Some(raw_op(addr(1), 1, 9, 5, None)) }, NOW)
        .unwrap();

    oppool.remove_ops(&ep, &vec![h.to_bytes()]).unwrap();

    let dump = oppool.debug_dump_mempool(&ep).unwrap();
    assert_eq!(dump.len(), 0);
}

#[test]
fn remove_ops_validates_hash_length() {
    let mut oppool = given_oppool();
    let ep = TEST_ADDRESS_ARR.to_vec();
    let result = oppool.remove_ops(&ep, &vec![vec![0u8; 31]]);
    assert_eq!(result, Err(ServiceError::InvalidArgument));
}

#[test]
fn clear_twice_is_clear_once() {
    let mut oppool = given_oppool();
    let ep = TEST_ADDRESS_ARR.to_vec();
    oppool
        .add_op(AddOpRequest { entry_point: ep.clone(), op: Some(raw_op(addr(1), 1, 9, 5, None)) }, NOW)
        .unwrap();

    oppool.debug_clear_state();
    assert_eq!(oppool.debug_dump_mempool(&ep).unwrap().len(), 0);
    let eps_once = oppool.get_supported_entry_points();

    oppool.debug_clear_state();
    assert_eq!(oppool.debug_dump_mempool(&ep).unwrap().len(), 0);
    let eps_twice = oppool.get_supported_entry_points();
    assert_eq!(eps_once, eps_twice);
}

#[test]
fn mined_removal_is_idempotent() {
    let mut oppool = given_oppool();
    let epb = TEST_ADDRESS_ARR.to_vec();
    let ep = Address::parse(&epb).unwrap();
    let p = addr(9);
    let h = oppool
        .add_op(AddOpRequest { entry_point: epb.clone(), op: Some(raw_op(addr(1), 1, 9, 5, Some(p))) }, NOW)
        .unwrap();

    let event = OnNewBlockEvent { mined_operations: vec![h] };
    oppool.on_new_block(&ep, &event, NOW);
    assert_eq!(oppool.debug_dump_mempool(&epb).unwrap().len(), 0);
    let reps = oppool.debug_dump_reputation(&epb, NOW).unwrap();
    let paymaster = Address::parse(&p.to_vec()).unwrap();
    let included_once = reps.iter().find(|r| r.address == paymaster).unwrap().ops_included;
    assert_eq!(included_once, 1);

    // the same event again: no resident matches, nothing is credited
    let event2 = OnNewBlockEvent { mined_operations: vec![h] };
    oppool.on_new_block(&ep, &event2, NOW);
    let reps2 = oppool.debug_dump_reputation(&epb, NOW).unwrap();
    let included_twice = reps2.iter().find(|r| r.address == paymaster).unwrap().ops_included;
    assert_eq!(included_twice, 1);
}

#[test]
fn base_fee_caps_the_priority_key() {
    let mut oppool = given_oppool();
    let ep = TEST_ADDRESS_ARR.to_vec();
    // max fee 10, priority fee 8: with base fee 7 the effective key is 3
    oppool
        .add_op(AddOpRequest { entry_point: ep.clone(), op: Some(raw_op(addr(1), 1, 10, 8, None)) }, NOW)
        .unwrap();
    // max fee 20, priority fee 5: with base fee 7 the effective key is 5
    oppool
        .add_op(AddOpRequest { entry_point: ep.clone(), op: Some(raw_op(addr(2), 1, 20, 5, None)) }, NOW)
        .unwrap();

    oppool.pools[0].set_base_fee(Some(U256 { w0: 7, w1: 0, w2: 0, w3: 0 }));
    let ops = oppool.get_ops(&ep, 10).unwrap();
    assert_eq!(ops[0].uo.max_priority_fee_per_gas, U256 { w0: 5, w1: 0, w2: 0, w3: 0 });
    assert_eq!(ops[1].uo.max_priority_fee_per_gas, U256 { w0: 8, w1: 0, w2: 0, w3: 0 });
}

#[test]
fn equal_keys_keep_insertion_order() {
    let mut oppool = given_oppool();
    let ep = TEST_ADDRESS_ARR.to_vec();
    for k in 1..=3u8 {
        oppool
            .add_op(
                AddOpRequest { entry_point: ep.clone(), op: Some(raw_op(addr(k), 1, 9, 5, None)) },
                NOW,
            )
            .unwrap();
    }
    let ops = oppool.get_ops(&ep, 10).unwrap();
    assert_eq!(ops.len(), 3);
    for k in 1..=3u8 {
        assert_eq!(ops[(k - 1) as usize].uo.sender, Address::parse(&addr(k).to_vec()).unwrap());
    }
}

#[test]
fn reputation_decays_against_the_horizon() {
    let mut oppool = given_oppool_with(16, 10, 100);
    let ep = TEST_ADDRESS_ARR.to_vec();
    let p = addr(9);
    oppool
        .debug_set_reputation(
            &ep,
            &vec![RawReputation { address: p.to_vec(), ops_seen: 48, ops_included: 24 }],
            NOW,
        )
        .unwrap();

    // twelve hours into a 24-hour horizon, both counters are halved
    let later = NOW + 12 * 3600;
    let reps = oppool.debug_dump_reputation(&ep, later).unwrap();
    let paymaster = Address::parse(&p.to_vec()).unwrap();
    let entry = reps.iter().find(|r| r.address == paymaster).unwrap();
    assert_eq!(entry.ops_seen, 24);
    assert_eq!(entry.ops_included, 12);

    // at the horizon, both reach zero
    let reps = oppool.debug_dump_reputation(&ep, NOW + 24 * 3600).unwrap();
    let entry = reps.iter().find(|r| r.address == paymaster).unwrap();
    assert_eq!(entry.ops_seen, 0);
    assert_eq!(entry.ops_included, 0);
}

#[test]
fn set_reputation_requires_entries() {
    let mut oppool = given_oppool();
    let ep = TEST_ADDRESS_ARR.to_vec();
    let result = oppool.debug_set_reputation(&ep, &Vec::new(), NOW);
    assert_eq!(result, Err(ServiceError::InvalidArgument));
}

#[test]
fn unsupported_aggregator_is_rejected() {
    let mut oppool = given_oppool();
    let ep = TEST_ADDRESS_ARR.to_vec();
    let mut op = raw_op(addr(1), 1, 9, 5, None);
    op.aggregator = addr(7).to_vec();
    op.entities_needing_stake = vec![3];
    let result = oppool.add_op(AddOpRequest { entry_point: ep, op: Some(op) }, NOW);
    match result {
        Err(ServiceError::Mempool(MempoolError::UnsupportedAggregator(a))) => {
            assert_eq!(a, Address::parse(&addr(7).to_vec()).unwrap());
        }
        other => panic!("expected an unsupported aggregator, got {:?}", other),
    }
}

#[test]
fn unstaked_account_needing_stake_is_rejected() {
    let mut oppool = given_oppool();
    let ep = TEST_ADDRESS_ARR.to_vec();
    let mut op = raw_op(addr(1), 1, 9, 5, None);
    op.entities_needing_stake = vec![0];
    op.account_is_staked = false;
    let result = oppool.add_op(AddOpRequest { entry_point: ep, op: Some(op) }, NOW);
    match result {
        Err(ServiceError::Mempool(MempoolError::EntityRequiresStake(EntityKind::Account, _))) => {}
        other => panic!("expected a stake requirement, got {:?}", other),
    }
}

#[test]
fn error_info_round_trips_throttled_entities() {
    let p = Address::parse(&addr(9).to_vec()).unwrap();
    let e = MempoolError::EntityThrottled(EntityKind::Paymaster, p);
    let (reason, metadata) = error_info(&e);
    assert_eq!(reason, ErrorReason::EntityThrottled);
    assert_eq!(metadata.len(), 1);
    assert_eq!(metadata[0].0, b"paymaster".to_vec());
    assert_eq!(metadata[0].1[..2], [b'0', b'x']);

    let reason_bytes = op_pool::errors::reason_name_bytes(reason);
    let kind = interpret_error_info(&reason_bytes, &metadata);
    assert_eq!(kind, RpcErrorKind::ThrottledOrBanned(EntityKind::Paymaster, p));
}

#[test]
fn unknown_reasons_read_as_internal() {
    let reason = b"SOMETHING_ELSE".to_vec();
    assert_eq!(interpret_error_info(&reason, &Vec::new()), RpcErrorKind::Internal);
    let underpriced = op_pool::errors::reason_name_bytes(ErrorReason::ReplacementUnderpriced);
    assert_eq!(interpret_error_info(&underpriced, &Vec::new()), RpcErrorKind::ReplacementUnderpriced);
}

#[test]
fn hash_wire_form_round_trips() {
    let h = OpHash { hi: 0x0102030405060708090A0B0C0D0E0F10, lo: 0x1112131415161718191A1B1C1D1E1F20 };
    let bytes = h.to_bytes();
    assert_eq!(bytes.len(), 32);
    assert_eq!(bytes[0], 0x01);
    assert_eq!(bytes[31], 0x20);
    assert_eq!(OpHash::parse(&bytes), Some(h));
}

#[test]
fn time_range_honours_the_buffer() {
    assert!(op_pool::types::time_range_contains(100, 200, 150, 30));
    assert!(!op_pool::types::time_range_contains(100, 200, 180, 30));
    assert!(!op_pool::types::time_range_contains(100, 200, 90, 30));
    // a zero upper bound means no expiry
    assert!(op_pool::types::time_range_contains(100, 0, 1_000_000, 30));
}

#[test]
fn get_supported_entry_points_reports_chain_and_pools() {
    let oppool = given_oppool();
    let (chain_id, eps) = oppool.get_supported_entry_points();
    assert_eq!(chain_id, 1);
    assert_eq!(eps.len(), 1);
    assert_eq!(eps[0].to_bytes(), TEST_ADDRESS_ARR.to_vec());
}

#[test]
fn find_op_by_sender_nonce_picks_the_first_match() {
    let mk = |last: u8, nonce: u128| op_pool::types::UserOperation {
        sender: Address::parse(&addr(last).to_vec()).unwrap(),
        nonce: op_pool::server::parse_u256_le(&u256_le(nonce)).unwrap(),
        max_fee_per_gas: U256 { w0: 1, w1: 0, w2: 0, w3: 0 },
        max_priority_fee_per_gas: U256 { w0: 1, w1: 0, w2: 0, w3: 0 },
        paymaster: None,
        factory: None,
        aggregator: None,
        call_data: Vec::new(),
    };
    let ops = vec![mk(1, 7), mk(2, 7), mk(2, 9)];
    let sender = Address::parse(&addr(2).to_vec()).unwrap();
    let nonce = op_pool::server::parse_u256_le(&u256_le(7)).unwrap();
    assert_eq!(op_pool::types::find_op_by_sender_nonce(&ops, &sender, &nonce), Some(1));
    let missing = op_pool::server::parse_u256_le(&u256_le(8)).unwrap();
    assert_eq!(op_pool::types::find_op_by_sender_nonce(&ops, &sender, &missing), None);
}

#[test]
fn parse_keeps_storage_slots_and_stake_flags() {
    let mut op = raw_op(addr(1), 1, 9, 5, None);
    op.expected_storage_slots = vec![op_pool::server::RawStorageSlot {
        address: addr(5).to_vec(),
        slot: u256_le(42),
        value: u256_le(7),
    }];
    op.entities_needing_stake = vec![1, 2];
    let parsed = op_pool::server::parse_mempool_op(&op).expect("well-shaped operation");
    assert_eq!(parsed.expected_storage_slots.len(), 1);
    assert_eq!(parsed.expected_storage_slots[0].slot, U256 { w0: 42, w1: 0, w2: 0, w3: 0 });
    assert_eq!(parsed.expected_storage_slots[0].value, U256 { w0: 7, w1: 0, w2: 0, w3: 0 });
    assert!(parsed.needs_paymaster_stake);
    assert!(parsed.needs_factory_stake);
    assert!(!parsed.needs_account_stake);
    assert!(!parsed.needs_aggregator_stake);

    // a malformed slot is rejected outright
    let mut bad = raw_op(addr(1), 1, 9, 5, None);
    bad.expected_storage_slots = vec![op_pool::server::RawStorageSlot {
        address: addr(5).to_vec(),
        slot: vec![0u8; 31],
        value: u256_le(7),
    }];
    assert!(op_pool::server::parse_mempool_op(&bad).is_err());
    // an unknown entity kind is rejected too
    let mut unk = raw_op(addr(1), 1, 9, 5, None);
    unk.entities_needing_stake = vec![4];
    assert!(op_pool::server::parse_mempool_op(&unk).is_err());
}

#[test]
fn indices_stay_coherent_across_operations() {
    // the debug dump (hash index order) and the priority index always hold
    // the same number of operations
    let mut oppool = given_oppool_with(3, 100, 1000);
    let ep = TEST_ADDRESS_ARR.to_vec();
    for k in 1..=4u8 {
        let _ = oppool.add_op(
            AddOpRequest {
                entry_point: ep.clone(),
                op: Some(raw_op(addr(k), 1, 9, k as u128, None)),
            },
            NOW,
        );
    }
    let dump = oppool.debug_dump_mempool(&ep).unwrap();
    let best = oppool.get_ops(&ep, 100).unwrap();
    assert_eq!(dump.len(), 3);
    assert_eq!(best.len(), 3);
}
