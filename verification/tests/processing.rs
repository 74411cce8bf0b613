use block_processor::changeset::Changeset;
use block_processor::processor::BlockBuilder;
use block_processor::processor::Call;
use block_processor::processor::SystemOp;
use block_processor::processor::balance_key;
use block_processor::processor::classify;
use block_processor::processor::is_system_contract;
use block_processor::processor::u64_to_be;
use block_processor::processor::u64_from_be;
use block_processor::queue::ProcessingQueue;
use block_processor::queue::interpret_dequeued;
use block_processor::timing::BatchStep;
use block_processor::timing::budget_expired;
use block_processor::timing::run_for;
use block_processor::types::EngineOutcome;
use block_processor::types::Env;
use block_processor::types::FatalError;
use block_processor::types::Pair;
use block_processor::types::Transaction;
use block_processor::cbor::encode_transaction;

fn user_tx(sender: &[u8], function: &[u8], gas_limit: u64) -> Transaction {
    Transaction {
        contract_address: vec![0xAA],
        contract_name: b"token".to_vec(),
        sender: sender.to_vec(),
        nonce: 1,
        gas_limit,
        function: function.to_vec(),
        arguments: vec![],
    }
}

fn system_tx(function: &[u8], arguments: Vec<Vec<u8>>) -> Transaction {
    Transaction {
        contract_address: vec![],
        contract_name: b"system".to_vec(),
        sender: b"alice".to_vec(),
        nonce: 0,
        gas_limit: 100,
        function: function.to_vec(),
        arguments,
    }
}

fn outcome_with_writes(
    return_code: u64,
    gas_remaining: Option<u64>,
    memory_writes: Vec<(Vec<u8>, Vec<u8>)>,
) -> EngineOutcome {
    EngineOutcome {
        return_code,
        return_value: vec![],
        gas_remaining,
        memory_writes: memory_writes
            .into_iter()
            .map(|(key, value)| Pair { key, value })
            .collect(),
        storage_writes: vec![],
    }
}

#[test]
fn changeset_last_write_wins() {
    let mut cs = Changeset::new();
    cs.set(b"x".to_vec(), b"1".to_vec());
    cs.set(b"y".to_vec(), b"9".to_vec());
    cs.set(b"x".to_vec(), b"2".to_vec());
    assert_eq!(cs.len(), 2);
    assert_eq!(cs.get(&b"x".to_vec()).unwrap(), &b"2".to_vec());
    assert_eq!(cs.get(&b"y".to_vec()).unwrap(), &b"9".to_vec());
    assert!(cs.get(&b"z".to_vec()).is_none());
}

#[test]
fn two_transactions_same_key_in_order() {
    // Two user transactions both write "x"; the batch keeps B's value and
    // the records come out in consumption order A, B.
    let mut b = BlockBuilder::new(Env { block_number: 7, timestamp: 0 });
    let a = user_tx(b"alice", b"store", 10);
    let bt = user_tx(b"bob", b"store", 10);
    b.apply_user(
        &a,
        outcome_with_writes(0, Some(10), vec![(b"x".to_vec(), b"1".to_vec())]),
        0,
    )
    .unwrap();
    b.apply_user(
        &bt,
        outcome_with_writes(0, Some(10), vec![(b"x".to_vec(), b"2".to_vec())]),
        0,
    )
    .unwrap();
    let (completed, memory, _storage) = b.finish();
    assert_eq!(completed.len(), 2);
    assert_eq!(completed[0].sender, b"alice".to_vec());
    assert_eq!(completed[0].execution_order, 0);
    assert_eq!(completed[1].sender, b"bob".to_vec());
    assert_eq!(completed[1].execution_order, 1);
    assert_eq!(memory.get(&b"x".to_vec()).unwrap(), &b"2".to_vec());
}

#[test]
fn gas_fee_debits_sender() {
    // gas_limit 100, gas_remaining 40: a fee of 60 units is debited from the
    // sender's snapshot balance of 1000, leaving 940.
    let mut b = BlockBuilder::new(Env { block_number: 1, timestamp: 0 });
    let tx = user_tx(b"alice", b"work", 100);
    b.apply_user(&tx, outcome_with_writes(0, Some(40), vec![]), 1000).unwrap();
    let (completed, memory, _storage) = b.finish();
    assert_eq!(completed.len(), 1);
    assert_eq!(completed[0].return_code, 0);
    let key = balance_key(&b"alice".to_vec());
    let value = memory.get(&key).unwrap();
    assert_eq!(u64_from_be(value), 940);
    assert_eq!(value, &u64_to_be(940));
}

#[test]
fn failed_call_is_still_charged() {
    // A non-zero return code is a per-transaction outcome, not a fault: the
    // record carries the code and the fee is charged anyway.
    let mut b = BlockBuilder::new(Env { block_number: 1, timestamp: 0 });
    let tx = user_tx(b"alice", b"work", 50);
    b.apply_user(&tx, outcome_with_writes(3, Some(20), vec![]), 100).unwrap();
    let (completed, memory, _storage) = b.finish();
    assert_eq!(completed[0].return_code, 3);
    let key = balance_key(&b"alice".to_vec());
    assert_eq!(u64_from_be(memory.get(&key).unwrap()), 70);
}

#[test]
fn fee_debit_saturates_at_zero() {
    let mut b = BlockBuilder::new(Env { block_number: 1, timestamp: 0 });
    let tx = user_tx(b"alice", b"work", 100);
    b.apply_user(&tx, outcome_with_writes(0, Some(0), vec![]), 30).unwrap();
    let (_completed, memory, _storage) = b.finish();
    let key = balance_key(&b"alice".to_vec());
    assert_eq!(u64_from_be(memory.get(&key).unwrap()), 0);
}

#[test]
fn missing_gas_accounting_is_fatal() {
    let mut b = BlockBuilder::new(Env { block_number: 1, timestamp: 0 });
    let tx = user_tx(b"alice", b"work", 100);
    let r = b.apply_user(&tx, outcome_with_writes(0, None, vec![]), 0);
    assert_eq!(r, Err(FatalError::MissingGasAccounting));
    let (completed, memory, _storage) = b.finish();
    assert!(completed.is_empty());
    assert_eq!(memory.len(), 0);
}

#[test]
fn negative_gas_used_is_fatal() {
    let mut b = BlockBuilder::new(Env { block_number: 1, timestamp: 0 });
    let tx = user_tx(b"alice", b"work", 100);
    let r = b.apply_user(&tx, outcome_with_writes(0, Some(101), vec![]), 0);
    assert_eq!(r, Err(FatalError::GasAccountingViolation));
}

#[test]
fn corrupt_stored_balance_is_fatal() {
    let mut b = BlockBuilder::new(Env { block_number: 1, timestamp: 0 });
    let tx = user_tx(b"alice", b"work", 100);
    let key = balance_key(&b"alice".to_vec());
    let r = b.apply_user(
        &tx,
        outcome_with_writes(0, Some(40), vec![(key, vec![1, 2, 3])]),
        0,
    );
    assert_eq!(r, Err(FatalError::MalformedBalance));
    let (completed, memory, _storage) = b.finish();
    assert!(completed.is_empty());
    assert_eq!(memory.len(), 0);
}

#[test]
fn classification_is_explicit() {
    let user = user_tx(b"alice", b"work", 10);
    assert_eq!(classify(&user), Call::User);
    assert!(!is_system_contract(&user));
    let charge = system_tx(b"charge_gas_fee", vec![]);
    assert_eq!(classify(&charge), Call::System(SystemOp::ChargeGasFee));
    assert!(is_system_contract(&charge));
    let other = system_tx(b"mint", vec![]);
    assert_eq!(classify(&other), Call::System(SystemOp::Unsupported));
}

#[test]
fn system_call_bypasses_fee_charging() {
    // A system transaction carries a gas limit, yet no fee-charge write
    // appears: the unknown operation completes in-band with no writes.
    let mut b = BlockBuilder::new(Env { block_number: 1, timestamp: 0 });
    let tx = system_tx(b"mint", vec![]);
    b.apply_system(&tx, 0).unwrap();
    let (completed, memory, _storage) = b.finish();
    assert_eq!(completed.len(), 1);
    assert_eq!(completed[0].return_code, 1);
    assert_eq!(memory.len(), 0);
    let key = balance_key(&b"alice".to_vec());
    assert!(memory.get(&key).is_none());
}

#[test]
fn system_charge_gas_fee_debits_named_account() {
    let mut b = BlockBuilder::new(Env { block_number: 1, timestamp: 0 });
    let tx = system_tx(b"charge_gas_fee", vec![b"bob".to_vec(), u64_to_be(25)]);
    b.apply_system(&tx, 100).unwrap();
    let (completed, memory, _storage) = b.finish();
    assert_eq!(completed[0].return_code, 0);
    let key = balance_key(&b"bob".to_vec());
    assert_eq!(u64_from_be(memory.get(&key).unwrap()), 75);
}

#[test]
fn system_charge_with_bad_arguments_fails_in_band() {
    let mut b = BlockBuilder::new(Env { block_number: 1, timestamp: 0 });
    let tx = system_tx(b"charge_gas_fee", vec![b"bob".to_vec()]);
    b.apply_system(&tx, 100).unwrap();
    let (completed, memory, _storage) = b.finish();
    assert_eq!(completed[0].return_code, 2);
    assert_eq!(memory.len(), 0);
}

#[test]
fn storage_writes_are_namespaced_by_block() {
    let mut b = BlockBuilder::new(Env { block_number: 2, timestamp: 0 });
    let tx = user_tx(b"alice", b"work", 10);
    let outcome = EngineOutcome {
        return_code: 0,
        return_value: vec![],
        gas_remaining: Some(10),
        memory_writes: vec![],
        storage_writes: vec![Pair { key: b"k".to_vec(), value: b"v".to_vec() }],
    };
    b.apply_user(&tx, outcome, 0).unwrap();
    let (_completed, _memory, storage) = b.finish();
    let mut namespaced = u64_to_be(2);
    namespaced.extend_from_slice(b"k");
    assert_eq!(storage.get(&namespaced).unwrap(), &b"v".to_vec());
    assert!(storage.get(&b"k".to_vec()).is_none());
}

#[test]
fn acknowledge_removes_exactly_one_and_is_idempotent() {
    let tx = user_tx(b"alice", b"work", 10);
    let bytes = encode_transaction(&tx);
    let mut q = ProcessingQueue::new();
    q.begin_processing(bytes.clone());
    assert_eq!(q.len(), 1);
    assert!(q.contains(&bytes));
    q.acknowledge(&bytes);
    assert_eq!(q.len(), 0);
    assert!(!q.contains(&bytes));
    // Acknowledging an item that is no longer present is a no-op.
    q.acknowledge(&bytes);
    assert_eq!(q.len(), 0);
}

#[test]
fn acknowledge_leaves_other_copies_in_flight() {
    let tx = user_tx(b"alice", b"work", 10);
    let bytes = encode_transaction(&tx);
    let other = encode_transaction(&user_tx(b"bob", b"work", 10));
    let mut q = ProcessingQueue::new();
    q.begin_processing(bytes.clone());
    q.begin_processing(other.clone());
    q.begin_processing(bytes.clone());
    q.acknowledge(&bytes);
    assert_eq!(q.len(), 2);
    assert!(q.contains(&bytes));
    assert!(q.contains(&other));
}

#[test]
fn dequeued_bytes_are_interpreted() {
    assert!(matches!(interpret_dequeued(&vec![]), Ok(None)));
    let tx = user_tx(b"alice", b"work", 10);
    let bytes = encode_transaction(&tx);
    match interpret_dequeued(&bytes) {
        Ok(Some(t)) => {
            assert_eq!(t.sender, tx.sender);
            assert_eq!(t.gas_limit, tx.gas_limit);
        },
        _ => panic!("expected a decoded transaction"),
    }
    assert!(matches!(
        interpret_dequeued(&vec![0xFF, 0xFF]),
        Err(FatalError::CorruptTransaction)
    ));
}

struct CountingStep {
    polls: u64,
}

impl BatchStep for CountingStep {
    fn step(&mut self) {
        self.polls += 1;
    }
}

#[test]
fn run_for_honors_the_whole_budget() {
    // The loop never exits before the budget has elapsed, and work started
    // within the budget runs to completion.
    let started = std::time::Instant::now();
    let mut runner = CountingStep { polls: 0 };
    let (observed_elapsed, steps) = run_for(40, &mut runner);
    assert!(started.elapsed() >= std::time::Duration::from_millis(40));
    assert!(observed_elapsed >= 40);
    assert!(steps > 0);
    assert_eq!(steps, runner.polls);
}

#[test]
fn run_for_zero_budget_runs_zero_steps() {
    let mut runner = CountingStep { polls: 0 };
    let (_observed_elapsed, steps) = run_for(0, &mut runner);
    assert_eq!(steps, 0);
    assert_eq!(runner.polls, 0);
}

#[test]
fn budget_test_is_exact() {
    assert!(!budget_expired(0, 1));
    assert!(!budget_expired(99, 100));
    assert!(budget_expired(100, 100));
    assert!(budget_expired(101, 100));
    assert!(budget_expired(0, 0));
}
