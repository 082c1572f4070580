use op_pool::logs::{filter_receipt_logs_matching_user_op, Log, TransactionReceipt};
use op_pool::types::{Address, OpHash};

const UO_OP_TOPIC: &str = "user-op-event-topic";

fn hash_of(text: &str) -> OpHash {
    let digest = ethers_core::utils::keccak256(text.as_bytes());
    OpHash::parse(&digest.to_vec()).expect("digest is 32 bytes")
}

fn given_log(topic_0: &str, topic_1: &str) -> Log {
    Log {
        topics: vec![hash_of(topic_0), hash_of(topic_1)],
        address: Address { hi: 0, lo: 0 },
        data: Vec::new(),
    }
}

fn given_receipt(logs: Vec<Log>) -> TransactionReceipt {
    TransactionReceipt { logs }
}

#[test]
fn test_filter_receipt_logs_when_at_begining_of_list() {
    let reference_log = given_log(UO_OP_TOPIC, "moldy-hash");
    let receipt = given_receipt(vec![
        given_log("other-topic", "some-hash"),
        reference_log.clone(),
        given_log(UO_OP_TOPIC, "other-hash"),
        given_log(UO_OP_TOPIC, "another-hash"),
    ]);

    let result = filter_receipt_logs_matching_user_op(&reference_log, &receipt);

    assert!(result.is_ok());
    let result = result.unwrap();
    assert_eq!(result, receipt.logs[0..=1]);
}

#[test]
fn test_filter_receipt_logs_when_in_middle_of_list() {
    let reference_log = given_log(UO_OP_TOPIC, "moldy-hash");
    let receipt = given_receipt(vec![
        given_log("other-topic", "some-hash"),
        given_log(UO_OP_TOPIC, "other-hash"),
        given_log("another-topic", "some-hash"),
        given_log("another-topic-2", "some-hash"),
        reference_log.clone(),
        given_log(UO_OP_TOPIC, "another-hash"),
    ]);

    let result = filter_receipt_logs_matching_user_op(&reference_log, &receipt);

    assert!(result.is_ok());
    let result = result.unwrap();
    assert_eq!(result, receipt.logs[2..=4]);
}

#[test]
fn test_filter_receipt_logs_when_at_end_of_list() {
    let reference_log = given_log(UO_OP_TOPIC, "moldy-hash");
    let receipt = given_receipt(vec![
        given_log("other-topic", "some-hash"),
        given_log(UO_OP_TOPIC, "other-hash"),
        given_log(UO_OP_TOPIC, "another-hash"),
        given_log("another-topic", "some-hash"),
        given_log("another-topic-2", "some-hash"),
        reference_log.clone(),
    ]);

    let result = filter_receipt_logs_matching_user_op(&reference_log, &receipt);

    assert!(result.is_ok());
    let result = result.unwrap();
    assert_eq!(result, receipt.logs[3..=5]);
}

#[test]
fn test_filter_receipt_logs_skips_event_from_different_address() {
    let reference_log = given_log(UO_OP_TOPIC, "moldy-hash");
    let mut reference_log_w_different_address = reference_log.clone();
    reference_log_w_different_address.address = Address { hi: 0, lo: 0x1234 };

    let receipt = given_receipt(vec![
        given_log("other-topic", "some-hash"),
        given_log(UO_OP_TOPIC, "other-hash"),
        given_log(UO_OP_TOPIC, "another-hash"),
        reference_log_w_different_address,
        given_log("another-topic", "some-hash"),
        given_log("another-topic-2", "some-hash"),
        reference_log.clone(),
    ]);

    let result = filter_receipt_logs_matching_user_op(&reference_log, &receipt);

    assert!(result.is_ok());
    let result = result.unwrap();
    assert_eq!(result, receipt.logs[4..=6]);
}

#[test]
fn test_filter_receipt_logs_includes_multiple_sets_of_ref_uo() {
    let reference_log = given_log(UO_OP_TOPIC, "moldy-hash");

    let receipt = given_receipt(vec![
        given_log("other-topic", "some-hash"),
        given_log(UO_OP_TOPIC, "other-hash"),
        given_log("other-topic-2", "another-hash"),
        reference_log.clone(),
        given_log("another-topic", "some-hash"),
        given_log("another-topic-2", "some-hash"),
        reference_log.clone(),
        given_log(UO_OP_TOPIC, "other-hash"),
    ]);

    let result = filter_receipt_logs_matching_user_op(&reference_log, &receipt);

    assert!(result.is_ok());
    let result = result.unwrap();
    assert_eq!(result, receipt.logs[2..=6]);
}

#[test]
fn test_filter_receipt_logs_when_not_found() {
    let reference_log = given_log(UO_OP_TOPIC, "moldy-hash");
    let receipt = given_receipt(vec![
        given_log("other-topic", "some-hash"),
        given_log(UO_OP_TOPIC, "other-hash"),
        given_log(UO_OP_TOPIC, "another-hash"),
        given_log("another-topic", "some-hash"),
        given_log("another-topic-2", "some-hash"),
    ]);

    let result = filter_receipt_logs_matching_user_op(&reference_log, &receipt);

    assert!(result.is_err());
}

#[test]
fn logs_matching_op_hash_selects_by_second_topic() {
    let target = hash_of("wanted");
    let logs = vec![
        given_log(UO_OP_TOPIC, "wanted"),
        given_log(UO_OP_TOPIC, "other"),
        given_log("another-topic", "wanted"),
    ];
    let matches = op_pool::logs::logs_matching_op_hash(&logs, &target);
    assert_eq!(matches.len(), 2);
    assert_eq!(matches[0], logs[0]);
    assert_eq!(matches[1], logs[2]);
}
