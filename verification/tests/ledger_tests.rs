use schnorrkel::{ExpansionMode, Keypair, MiniSecretKey};
use utxo_ledger::crypto::{genesis_key, output_key, reward_key};
use utxo_ledger::encoding::{append_varint, encode_output, encode_transaction, signing_image};
use utxo_ledger::ledger::Ledger;
use utxo_ledger::types::{Error, Event, Transaction, TransactionInput, TransactionOutput};

fn keypair(seed: u8) -> Keypair {
    MiniSecretKey::from_bytes(&[seed; 32]).unwrap().expand_to_keypair(ExpansionMode::Ed25519)
}

fn sign_inputs(tx: &mut Transaction, signers: &[&Keypair]) {
    let image = signing_image(tx);
    for (i, kp) in signers.iter().enumerate() {
        tx.inputs[i].sigscript = kp.sign_simple(b"", &image).to_bytes();
    }
}

#[test]
fn single_valid_spend() {
    let kp_a = keypair(1);
    let a = kp_a.public.to_bytes();
    let b = keypair(2).public.to_bytes();

    let genesis_out = TransactionOutput { value: 100, pubkey: a };
    let k0 = genesis_key(&genesis_out);
    let mut ledger = Ledger::new();
    ledger.genesis_init(&vec![genesis_out]);
    assert!(ledger.contains_utxo(&k0));

    let mut tx = Transaction {
        inputs: vec![TransactionInput { outpoint: k0, sigscript: [0u8; 64] }],
        outputs: vec![TransactionOutput { value: 100, pubkey: b }],
    };
    sign_inputs(&mut tx, &[&kp_a]);

    let r = ledger.spend(&tx);
    assert!(matches!(r, Ok(())));

    assert!(!ledger.contains_utxo(&k0));
    let k1 = output_key(&tx, 0);
    let created = ledger.utxo(&k1).unwrap();
    assert_eq!(created.value, 100);
    assert_eq!(created.pubkey, b);
    assert_eq!(ledger.reward_total(), 0);
    assert_eq!(ledger.event_count(), 1);
    match ledger.event_at(0) {
        Event::TransactionApplied(applied) => {
            assert_eq!(applied.outputs.len(), 1);
            assert_eq!(applied.outputs[0].value, 100);
        },
        _ => panic!("expected a transaction event"),
    }
}

#[test]
fn missing_input_rejected() {
    let mut ledger = Ledger::new();
    let absent = [9u8; 32];
    let tx = Transaction {
        inputs: vec![TransactionInput { outpoint: absent, sigscript: [0u8; 64] }],
        outputs: vec![TransactionOutput { value: 1, pubkey: [3u8; 32] }],
    };
    let r = ledger.spend(&tx);
    match r {
        Err(Error::MissingInput(k)) => assert_eq!(k, absent),
        _ => panic!("expected a missing input"),
    }
    assert_eq!(ledger.reward_total(), 0);
    assert_eq!(ledger.event_count(), 0);
}

#[test]
fn fee_accrual_and_dispersal() {
    let kp_a = keypair(1);
    let a = kp_a.public.to_bytes();
    let b = keypair(2).public.to_bytes();

    let genesis_out = TransactionOutput { value: 10, pubkey: a };
    let k0 = genesis_key(&genesis_out);
    let mut ledger = Ledger::new();
    ledger.genesis_init(&vec![genesis_out]);

    let mut tx = Transaction {
        inputs: vec![TransactionInput { outpoint: k0, sigscript: [0u8; 64] }],
        outputs: vec![TransactionOutput { value: 7, pubkey: b }],
    };
    sign_inputs(&mut tx, &[&kp_a]);
    assert!(matches!(ledger.spend(&tx), Ok(())));
    assert_eq!(ledger.reward_total(), 3);

    let x = [11u8; 32];
    let y = [12u8; 32];
    let z = [13u8; 32];
    ledger.on_finalize(1, &vec![x, y, z]);
    assert_eq!(ledger.reward_total(), 0);
    for auth in [x, y, z] {
        let out = TransactionOutput { value: 1, pubkey: auth };
        let key = reward_key(&out, 1);
        let got = ledger.utxo(&key).unwrap();
        assert_eq!(got.value, 1);
        assert_eq!(got.pubkey, auth);
    }
    assert_eq!(ledger.event_count(), 4);
    for i in 1..4 {
        match ledger.event_at(i) {
            Event::RewardPaid(_, v) => assert_eq!(v, 1),
            _ => panic!("expected a reward payment"),
        }
    }
}

#[test]
fn indivisible_pool_carries_forward() {
    let kp_a = keypair(1);
    let a = kp_a.public.to_bytes();
    let b = keypair(2).public.to_bytes();

    let genesis_out = TransactionOutput { value: 10, pubkey: a };
    let k0 = genesis_key(&genesis_out);
    let mut ledger = Ledger::new();
    ledger.genesis_init(&vec![genesis_out]);

    let mut tx = Transaction {
        inputs: vec![TransactionInput { outpoint: k0, sigscript: [0u8; 64] }],
        outputs: vec![TransactionOutput { value: 8, pubkey: b }],
    };
    sign_inputs(&mut tx, &[&kp_a]);
    assert!(matches!(ledger.spend(&tx), Ok(())));
    assert_eq!(ledger.reward_total(), 2);

    let auths = vec![[11u8; 32], [12u8; 32], [13u8; 32]];
    let events_before = ledger.event_count();
    ledger.on_finalize(1, &auths);
    assert_eq!(ledger.reward_total(), 2);
    assert_eq!(ledger.event_count(), events_before);
    let key = reward_key(&TransactionOutput { value: 0, pubkey: auths[0] }, 1);
    assert!(ledger.utxo(&key).is_none());
}

#[test]
fn empty_authorities_leave_pool() {
    let mut ledger = Ledger::new();
    ledger.on_finalize(1, &vec![]);
    assert_eq!(ledger.reward_total(), 0);
    assert_eq!(ledger.event_count(), 0);
}

#[test]
fn duplicate_input_rejected() {
    let kp_a = keypair(1);
    let a = kp_a.public.to_bytes();
    let genesis_out = TransactionOutput { value: 10, pubkey: a };
    let k0 = genesis_key(&genesis_out);
    let mut ledger = Ledger::new();
    ledger.genesis_init(&vec![genesis_out]);

    let tx = Transaction {
        inputs: vec![
            TransactionInput { outpoint: k0, sigscript: [0u8; 64] },
            TransactionInput { outpoint: k0, sigscript: [1u8; 64] },
        ],
        outputs: vec![TransactionOutput { value: 10, pubkey: a }],
    };
    assert!(matches!(ledger.spend(&tx), Err(Error::DuplicateInput)));
    assert!(ledger.contains_utxo(&k0));
}

#[test]
fn duplicate_output_rejected() {
    let mut ledger = Ledger::new();
    let tx = Transaction {
        inputs: vec![TransactionInput { outpoint: [1u8; 32], sigscript: [0u8; 64] }],
        outputs: vec![
            TransactionOutput { value: 4, pubkey: [2u8; 32] },
            TransactionOutput { value: 4, pubkey: [2u8; 32] },
        ],
    };
    assert!(matches!(ledger.spend(&tx), Err(Error::DuplicateOutput)));
}

#[test]
fn zero_output_value_rejected() {
    let mut ledger = Ledger::new();
    let tx = Transaction {
        inputs: vec![TransactionInput { outpoint: [1u8; 32], sigscript: [0u8; 64] }],
        outputs: vec![TransactionOutput { value: 0, pubkey: [2u8; 32] }],
    };
    assert!(matches!(ledger.spend(&tx), Err(Error::ZeroOutputValue)));
}

#[test]
fn empty_transaction_rejected() {
    let mut ledger = Ledger::new();
    let no_inputs = Transaction {
        inputs: vec![],
        outputs: vec![TransactionOutput { value: 1, pubkey: [2u8; 32] }],
    };
    assert!(matches!(ledger.spend(&no_inputs), Err(Error::Empty)));
    let no_outputs = Transaction {
        inputs: vec![TransactionInput { outpoint: [1u8; 32], sigscript: [0u8; 64] }],
        outputs: vec![],
    };
    assert!(matches!(ledger.spend(&no_outputs), Err(Error::Empty)));
}

#[test]
fn negative_fee_rejected() {
    let kp_a = keypair(1);
    let a = kp_a.public.to_bytes();
    let b = keypair(2).public.to_bytes();
    let genesis_out = TransactionOutput { value: 5, pubkey: a };
    let k0 = genesis_key(&genesis_out);
    let mut ledger = Ledger::new();
    ledger.genesis_init(&vec![genesis_out]);

    let mut tx = Transaction {
        inputs: vec![TransactionInput { outpoint: k0, sigscript: [0u8; 64] }],
        outputs: vec![TransactionOutput { value: 6, pubkey: b }],
    };
    sign_inputs(&mut tx, &[&kp_a]);
    assert!(matches!(ledger.spend(&tx), Err(Error::NegativeFee)));
    assert!(ledger.contains_utxo(&k0));
    assert_eq!(ledger.reward_total(), 0);
}

#[test]
fn input_sum_overflow_rejected() {
    let kp_a = keypair(1);
    let a = kp_a.public.to_bytes();
    let b = keypair(2).public.to_bytes();
    let big = TransactionOutput { value: u128::MAX, pubkey: a };
    let small = TransactionOutput { value: 1, pubkey: a };
    let k_big = genesis_key(&big);
    let k_small = genesis_key(&small);
    let mut ledger = Ledger::new();
    ledger.genesis_init(&vec![big, small]);

    let mut tx = Transaction {
        inputs: vec![
            TransactionInput { outpoint: k_big, sigscript: [0u8; 64] },
            TransactionInput { outpoint: k_small, sigscript: [0u8; 64] },
        ],
        outputs: vec![TransactionOutput { value: 1, pubkey: b }],
    };
    sign_inputs(&mut tx, &[&kp_a, &kp_a]);
    assert!(matches!(ledger.spend(&tx), Err(Error::Overflow)));
    assert!(ledger.contains_utxo(&k_big));
    assert!(ledger.contains_utxo(&k_small));
}

#[test]
fn invalid_signature_rejected() {
    let kp_a = keypair(1);
    let kp_c = keypair(3);
    let a = kp_a.public.to_bytes();
    let b = keypair(2).public.to_bytes();
    let genesis_out = TransactionOutput { value: 10, pubkey: a };
    let k0 = genesis_key(&genesis_out);
    let mut ledger = Ledger::new();
    ledger.genesis_init(&vec![genesis_out]);

    // Signed by the wrong key.
    let mut tx = Transaction {
        inputs: vec![TransactionInput { outpoint: k0, sigscript: [0u8; 64] }],
        outputs: vec![TransactionOutput { value: 10, pubkey: b }],
    };
    sign_inputs(&mut tx, &[&kp_c]);
    assert!(matches!(ledger.spend(&tx), Err(Error::InvalidSignature(0))));
    assert!(ledger.contains_utxo(&k0));
}

#[test]
fn signature_bit_flip_rejected() {
    let kp_a = keypair(1);
    let a = kp_a.public.to_bytes();
    let b = keypair(2).public.to_bytes();
    let genesis_out = TransactionOutput { value: 10, pubkey: a };
    let k0 = genesis_key(&genesis_out);
    let mut ledger = Ledger::new();
    ledger.genesis_init(&vec![genesis_out]);

    let mut tx = Transaction {
        inputs: vec![TransactionInput { outpoint: k0, sigscript: [0u8; 64] }],
        outputs: vec![TransactionOutput { value: 10, pubkey: b }],
    };
    sign_inputs(&mut tx, &[&kp_a]);
    assert!(matches!(ledger.validate(&tx), Ok(0)));

    for (byte, bit) in [(0usize, 0u8), (0, 7), (17, 3), (31, 6), (32, 0), (47, 5), (63, 7)] {
        let mut tampered = Transaction {
            inputs: vec![TransactionInput { outpoint: k0, sigscript: tx.inputs[0].sigscript }],
            outputs: vec![TransactionOutput { value: 10, pubkey: b }],
        };
        tampered.inputs[0].sigscript[byte] ^= 1 << bit;
        assert!(matches!(ledger.validate(&tampered), Err(Error::InvalidSignature(0))));
    }
}

#[test]
fn conservation_across_spend() {
    let kp_a = keypair(1);
    let a = kp_a.public.to_bytes();
    let b = keypair(2).public.to_bytes();
    let genesis_out = TransactionOutput { value: 10, pubkey: a };
    let k0 = genesis_key(&genesis_out);
    let mut ledger = Ledger::new();
    ledger.genesis_init(&vec![genesis_out]);

    let before = ledger.utxo(&k0).unwrap().value + ledger.reward_total();

    let mut tx = Transaction {
        inputs: vec![TransactionInput { outpoint: k0, sigscript: [0u8; 64] }],
        outputs: vec![TransactionOutput { value: 7, pubkey: b }],
    };
    sign_inputs(&mut tx, &[&kp_a]);
    assert!(matches!(ledger.spend(&tx), Ok(())));

    let k1 = output_key(&tx, 0);
    let after = ledger.utxo(&k1).unwrap().value + ledger.reward_total();
    assert_eq!(before, after);
}

#[test]
fn reward_wasted_on_key_collision() {
    let kp_a = keypair(1);
    let a = kp_a.public.to_bytes();
    let b = keypair(2).public.to_bytes();
    let g1 = TransactionOutput { value: 10, pubkey: a };
    let g2 = TransactionOutput { value: 11, pubkey: a };
    let k1 = genesis_key(&g1);
    let k2 = genesis_key(&g2);
    let mut ledger = Ledger::new();
    ledger.genesis_init(&vec![g1, g2]);

    let auths = vec![[11u8; 32], [12u8; 32], [13u8; 32]];

    let mut tx1 = Transaction {
        inputs: vec![TransactionInput { outpoint: k1, sigscript: [0u8; 64] }],
        outputs: vec![TransactionOutput { value: 7, pubkey: b }],
    };
    sign_inputs(&mut tx1, &[&kp_a]);
    assert!(matches!(ledger.spend(&tx1), Ok(())));
    ledger.on_finalize(7, &auths);
    assert_eq!(ledger.reward_total(), 0);

    let mut tx2 = Transaction {
        inputs: vec![TransactionInput { outpoint: k2, sigscript: [0u8; 64] }],
        outputs: vec![TransactionOutput { value: 8, pubkey: b }],
    };
    sign_inputs(&mut tx2, &[&kp_a]);
    assert!(matches!(ledger.spend(&tx2), Ok(())));
    assert_eq!(ledger.reward_total(), 3);

    // The same block number and the same shares derive the same reward keys,
    // so every reward is forfeited this time.
    let events_before = ledger.event_count();
    ledger.on_finalize(7, &auths);
    assert_eq!(ledger.reward_total(), 0);
    assert_eq!(ledger.event_count(), events_before + 3);
    for i in 0..3 {
        match ledger.event_at(events_before + i) {
            Event::RewardWasted(Some(auth)) => assert_eq!(auth, auths[i]),
            _ => panic!("expected a wasted reward"),
        }
    }
    // The rewards minted at the first finalization are untouched.
    let key = reward_key(&TransactionOutput { value: 1, pubkey: auths[0] }, 7);
    assert_eq!(ledger.utxo(&key).unwrap().value, 1);
}

#[test]
fn double_spend_rejected_within_block() {
    let kp_a = keypair(1);
    let a = kp_a.public.to_bytes();
    let b = keypair(2).public.to_bytes();
    let genesis_out = TransactionOutput { value: 10, pubkey: a };
    let k0 = genesis_key(&genesis_out);
    let mut ledger = Ledger::new();
    ledger.genesis_init(&vec![genesis_out]);

    let mut tx1 = Transaction {
        inputs: vec![TransactionInput { outpoint: k0, sigscript: [0u8; 64] }],
        outputs: vec![TransactionOutput { value: 9, pubkey: b }],
    };
    sign_inputs(&mut tx1, &[&kp_a]);
    assert!(matches!(ledger.spend(&tx1), Ok(())));

    let mut tx2 = Transaction {
        inputs: vec![TransactionInput { outpoint: k0, sigscript: [0u8; 64] }],
        outputs: vec![TransactionOutput { value: 8, pubkey: b }],
    };
    sign_inputs(&mut tx2, &[&kp_a]);
    match ledger.spend(&tx2) {
        Err(Error::MissingInput(k)) => assert_eq!(k, k0),
        _ => panic!("expected a missing input"),
    }
}

#[test]
fn encoding_is_byte_stable() {
    let out = TransactionOutput { value: 1, pubkey: [0u8; 32] };
    let mut expected = vec![0u8; 48];
    expected[0] = 1;
    assert_eq!(encode_output(&out), expected);

    let tx = Transaction {
        inputs: vec![TransactionInput { outpoint: [5u8; 32], sigscript: [6u8; 64] }],
        outputs: vec![TransactionOutput { value: 258, pubkey: [7u8; 32] }],
    };
    let mut wire = vec![1u8];
    wire.extend_from_slice(&[5u8; 32]);
    wire.extend_from_slice(&[6u8; 64]);
    wire.push(1u8);
    wire.extend_from_slice(&[2u8, 1u8]);
    wire.extend_from_slice(&[0u8; 14]);
    wire.extend_from_slice(&[7u8; 32]);
    assert_eq!(encode_transaction(&tx), wire);

    // The signing image zeroes every sigscript and nothing else.
    let image = signing_image(&tx);
    let mut expected_image = wire.clone();
    for i in 33..97 {
        expected_image[i] = 0;
    }
    assert_eq!(image, expected_image);
}

#[test]
fn varint_lengths_are_compact() {
    let cases: [(u64, Vec<u8>); 5] = [
        (0, vec![0]),
        (127, vec![127]),
        (128, vec![0x80, 1]),
        (300, vec![0xAC, 2]),
        (16384, vec![0x80, 0x80, 1]),
    ];
    for (n, expected) in cases {
        let mut v: Vec<u8> = Vec::new();
        append_varint(&mut v, n);
        assert_eq!(v, expected);
    }
}
