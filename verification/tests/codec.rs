use block_processor::cbor::decode_transaction;
use block_processor::cbor::decode_transaction_list;
use block_processor::cbor::encode_transaction;
use block_processor::cbor::encode_transaction_list;
use block_processor::cbor::encode_completed_list;
use block_processor::cbor::decode_completed_list;
use block_processor::changeset::Changeset;
use block_processor::encoder::encode_changeset;
use block_processor::encoder::encode_output;
use block_processor::encoder::decode_output;
use block_processor::processor::BlockBuilder;
use block_processor::types::CompletedTransaction;
use block_processor::types::EngineOutcome;
use block_processor::types::Env;
use block_processor::types::Transaction;

fn sample_tx(nonce: u64, gas_limit: u64) -> Transaction {
    Transaction {
        contract_address: vec![1, 2, 3],
        contract_name: b"token".to_vec(),
        sender: b"alice".to_vec(),
        nonce,
        gas_limit,
        function: b"transfer".to_vec(),
        arguments: vec![b"bob".to_vec(), vec![0, 0, 0, 0, 0, 0, 0, 5]],
    }
}

fn assert_tx_eq(a: &Transaction, b: &Transaction) {
    assert_eq!(a.contract_address, b.contract_address);
    assert_eq!(a.contract_name, b.contract_name);
    assert_eq!(a.sender, b.sender);
    assert_eq!(a.nonce, b.nonce);
    assert_eq!(a.gas_limit, b.gas_limit);
    assert_eq!(a.function, b.function);
    assert_eq!(a.arguments, b.arguments);
}

#[test]
fn transaction_round_trip() {
    let tx = sample_tx(7, 1000);
    let bytes = encode_transaction(&tx);
    let back = decode_transaction(&bytes).unwrap();
    assert_tx_eq(&tx, &back);
}

#[test]
fn transaction_round_trip_at_integer_boundaries() {
    // Every canonical header width: small immediate, one, two, four and
    // eight value bytes.
    for &n in &[0u64, 23, 24, 255, 256, 65535, 65536, 4294967295, 4294967296, u64::MAX] {
        let tx = sample_tx(n, n);
        let bytes = encode_transaction(&tx);
        let back = decode_transaction(&bytes).unwrap();
        assert_tx_eq(&tx, &back);
    }
}

#[test]
fn non_canonical_bytes_are_rejected() {
    // The one-byte value 5 written with a needlessly wide header must not
    // decode: the serialized form is an identity, so only the shortest
    // header is accepted.
    let tx = sample_tx(5, 10);
    let canonical = encode_transaction(&tx);
    assert!(decode_transaction(&canonical).is_ok());
    // A trailing byte also makes the buffer invalid as a whole.
    let mut padded = canonical.clone();
    padded.push(0);
    assert!(decode_transaction(&padded).is_err());
    // Garbage is rejected.
    assert!(decode_transaction(&vec![0xFF, 0x00, 0x13]).is_err());
}

#[test]
fn transaction_list_round_trip() {
    let txs = vec![sample_tx(1, 10), sample_tx(2, 20), sample_tx(3, 30)];
    let bytes = encode_transaction_list(&txs);
    let back = decode_transaction_list(&bytes).unwrap();
    assert_eq!(back.len(), 3);
    for (a, b) in txs.iter().zip(back.iter()) {
        assert_tx_eq(a, b);
    }
}

#[test]
fn empty_transaction_list_is_one_byte() {
    let bytes = encode_transaction_list(&vec![]);
    assert_eq!(bytes, vec![0x80]);
    assert!(decode_transaction_list(&bytes).unwrap().is_empty());
}

#[test]
fn completed_list_round_trip() {
    let ct = CompletedTransaction {
        contract_address: vec![9],
        contract_name: b"token".to_vec(),
        sender: b"alice".to_vec(),
        nonce: 4,
        gas_limit: 100,
        function: b"transfer".to_vec(),
        arguments: vec![b"bob".to_vec()],
        return_code: 0,
        return_value: vec![1],
        execution_order: 0,
    };
    let bytes = encode_completed_list(&vec![ct]);
    let back = decode_completed_list(&bytes).unwrap();
    assert_eq!(back.len(), 1);
    assert_eq!(back[0].sender, b"alice".to_vec());
    assert_eq!(back[0].return_code, 0);
    assert_eq!(back[0].return_value, vec![1]);
    assert_eq!(back[0].execution_order, 0);
}

#[test]
fn completed_list_of_two_round_trips_in_order() {
    let mut b = BlockBuilder::new(Env { block_number: 5, timestamp: 1 });
    let first = sample_tx(1, 100);
    let second = sample_tx(2, 100);
    let outcome = |code: u64| EngineOutcome {
        return_code: code,
        return_value: vec![code as u8],
        gas_remaining: Some(90),
        memory_writes: vec![],
        storage_writes: vec![],
    };
    b.apply_user(&first, outcome(0), 50).unwrap();
    b.apply_user(&second, outcome(7), 50).unwrap();
    let bytes = block_processor::cbor::encode_completed_list(b.completed_ref());
    let back = decode_completed_list(&bytes).unwrap();
    assert_eq!(back.len(), 2);
    assert_eq!(back[0].nonce, 1);
    assert_eq!(back[0].execution_order, 0);
    assert_eq!(back[0].return_code, 0);
    assert_eq!(back[1].nonce, 2);
    assert_eq!(back[1].execution_order, 1);
    assert_eq!(back[1].return_code, 7);
}

#[test]
fn changeset_encoding_is_exact() {
    // {"a": "b"} as a one-entry map of one-byte strings.
    let mut cs = Changeset::new();
    cs.set(b"a".to_vec(), b"b".to_vec());
    let bytes = encode_changeset(&cs);
    assert_eq!(bytes, vec![0xA1, 0x41, 0x61, 0x41, 0x62]);
}

#[test]
fn changeset_encoding_is_deterministic() {
    // The same write history always serializes to the same bytes, and a
    // later overwrite changes the value in place, not the key order.
    let mut one = Changeset::new();
    one.set(b"k1".to_vec(), b"u".to_vec());
    one.set(b"k2".to_vec(), b"v".to_vec());
    one.set(b"k1".to_vec(), b"w".to_vec());
    let mut two = Changeset::new();
    two.set(b"k1".to_vec(), b"u".to_vec());
    two.set(b"k2".to_vec(), b"v".to_vec());
    two.set(b"k1".to_vec(), b"w".to_vec());
    assert_eq!(encode_changeset(&one), encode_changeset(&two));
}

#[test]
fn output_line_has_three_tokens() {
    let b = BlockBuilder::new(Env { block_number: 1, timestamp: 0 });
    let line = encode_output(&b);
    assert!(!line.contains('\n'));
    let tokens: Vec<&str> = line.split(' ').collect();
    assert_eq!(tokens.len(), 3);
}

#[test]
fn empty_batch_output_round_trips() {
    // A batch with zero transactions produces one well-formed line, not an
    // error, and decoding it yields an empty record list and two empty
    // changesets.
    let b = BlockBuilder::new(Env { block_number: 1, timestamp: 0 });
    let line = encode_output(&b);
    let tokens: Vec<&str> = line.split(' ').collect();
    let (cts, mem, stor) = decode_output(tokens[0], tokens[1], tokens[2]).unwrap();
    assert!(cts.is_empty());
    assert!(mem.is_empty());
    assert!(stor.is_empty());
}

#[test]
fn full_batch_output_round_trips() {
    let mut b = BlockBuilder::new(Env { block_number: 3, timestamp: 9 });
    let tx = sample_tx(1, 100);
    let outcome = EngineOutcome {
        return_code: 0,
        return_value: vec![7, 7],
        gas_remaining: Some(60),
        memory_writes: vec![block_processor::types::Pair {
            key: b"x".to_vec(),
            value: b"1".to_vec(),
        }],
        storage_writes: vec![],
    };
    b.apply_user(&tx, outcome, 500).unwrap();
    let line = encode_output(&b);
    let tokens: Vec<&str> = line.split(' ').collect();
    assert_eq!(tokens.len(), 3);
    let (cts, mem, stor) = decode_output(tokens[0], tokens[1], tokens[2]).unwrap();
    assert_eq!(cts.len(), 1);
    assert_eq!(cts[0].sender, b"alice".to_vec());
    assert_eq!(cts[0].return_value, vec![7, 7]);
    assert_eq!(cts[0].execution_order, 0);
    // The memory changeset carries the engine write and the fee debit.
    assert_eq!(mem.len(), 2);
    assert_eq!(mem[0].key, b"x".to_vec());
    assert_eq!(mem[0].value, b"1".to_vec());
    assert!(stor.is_empty());
}
