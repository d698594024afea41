use wallet_core::errors::{
    CalculateFeeError, CannotConnectError, CreateWithPersistError, LoadWithPersistError,
};
use wallet_core::store::Connection;
use wallet_core::types::{
    BlockHash, CanonicalTx, ChainPosition, KeychainKind, LocalOutput, Network, OutPoint, Tip,
    Transaction, TxIn, TxOut, Txid, Update,
};
use wallet_core::wallet::Wallet;

const EXT_DESC: &str = "wpkh(tprv8ZgxMBicQKsPdy6LMhUtFHAgpocR8GC6QmwMSFpZs7h6Eziw3SpThFfczTDh5rW2krkqffa11UpX3XkeTTB2FvzZKWXqPY54Y6Rq4AQ5R8L/84'/1'/0'/0/*)";
const INT_DESC: &str = "wpkh(tprv8ZgxMBicQKsPdy6LMhUtFHAgpocR8GC6QmwMSFpZs7h6Eziw3SpThFfczTDh5rW2krkqffa11UpX3XkeTTB2FvzZKWXqPY54Y6Rq4AQ5R8L/84'/1'/0'/1/*)";

fn fresh_wallet() -> (Wallet, Connection) {
    let mut conn = Connection::new();
    let wallet = Wallet::new(EXT_DESC, INT_DESC, Network::Testnet, &mut conn).unwrap();
    (wallet, conn)
}

fn txid_n(n: u64) -> Txid {
    Txid { w0: 0, w1: 0, w2: 0, w3: n }
}

fn outpoint_n(n: u64, vout: u32) -> OutPoint {
    OutPoint { txid: txid_n(n), vout }
}

fn tip_at(height: u32) -> Tip {
    Tip { height, hash: BlockHash { w0: height as u64, w1: 0, w2: 0, w3: 0 } }
}

fn plain_output(n: u64, value: u64, keychain: KeychainKind, pos: ChainPosition) -> LocalOutput {
    LocalOutput {
        outpoint: outpoint_n(n, 0),
        value,
        script_pubkey: vec![0x51, n as u8],
        keychain,
        derivation_index: 0,
        is_spent: false,
        chain_position: pos,
        is_coinbase: false,
    }
}

#[test]
fn create_wallet_succeeds() {
    let (wallet, conn) = fresh_wallet();
    assert_eq!(wallet.network(), Network::Testnet);
    assert_eq!(wallet.next_external_index, 0);
    assert_eq!(conn.changesets.len(), 1);
}

#[test]
fn create_rejects_invalid_descriptor() {
    let mut conn = Connection::new();
    let r = Wallet::new("not a descriptor", INT_DESC, Network::Testnet, &mut conn);
    assert!(matches!(r, Err(CreateWithPersistError::InvalidDescriptor)));
    assert_eq!(conn.changesets.len(), 0);
}

#[test]
fn create_twice_already_exists() {
    let (_, mut conn) = fresh_wallet();
    let r = Wallet::new(EXT_DESC, INT_DESC, Network::Testnet, &mut conn);
    assert!(matches!(r, Err(CreateWithPersistError::AlreadyExists)));
}

#[test]
fn reveal_indices_increase_without_gaps() {
    let (mut wallet, _) = fresh_wallet();
    let a = wallet.reveal_next_address(KeychainKind::External);
    let b = wallet.reveal_next_address(KeychainKind::External);
    let c = wallet.reveal_next_address(KeychainKind::External);
    assert_eq!((a.index, b.index, c.index), (0, 1, 2));
    // the internal keychain advances independently
    let d = wallet.reveal_next_address(KeychainKind::Internal);
    assert_eq!(d.index, 0);
    assert_eq!(wallet.next_external_index, 3);
    assert_eq!(wallet.next_internal_index, 1);
}

#[test]
fn revealed_scripts_are_real_and_distinct() {
    let (mut wallet, _) = fresh_wallet();
    let a = wallet.reveal_next_address(KeychainKind::External);
    let b = wallet.reveal_next_address(KeychainKind::External);
    // a wpkh locking script is OP_0 PUSH20 <20 bytes>
    assert_eq!(a.script_pubkey.len(), 22);
    assert_eq!(a.script_pubkey[0], 0x00);
    assert_eq!(a.script_pubkey[1], 0x14);
    assert_ne!(a.script_pubkey, b.script_pubkey);
}

#[test]
fn is_mine_recognizes_revealed_scripts_only() {
    let (mut wallet, _) = fresh_wallet();
    let a = wallet.reveal_next_address(KeychainKind::External);
    let i = wallet.reveal_next_address(KeychainKind::Internal);
    assert!(wallet.is_mine(&a.script_pubkey));
    assert!(wallet.is_mine(&i.script_pubkey));
    assert!(!wallet.is_mine(&vec![0x00, 0x14, 7, 7, 7]));
}

#[test]
fn balance_partitions_unspent_value() {
    let (mut wallet, _) = fresh_wallet();
    let mut mature_coinbase = plain_output(1, 50_000, KeychainKind::External, ChainPosition::Confirmed { height: 10 });
    mature_coinbase.is_coinbase = true;
    let mut young_coinbase = plain_output(2, 25_000, KeychainKind::External, ChainPosition::Confirmed { height: 190 });
    young_coinbase.is_coinbase = true;
    let confirmed = plain_output(3, 10_000, KeychainKind::External, ChainPosition::Confirmed { height: 150 });
    let trusted = plain_output(4, 7_000, KeychainKind::Internal, ChainPosition::Unconfirmed);
    let untrusted = plain_output(5, 3_000, KeychainKind::External, ChainPosition::Unconfirmed);
    let spent = plain_output(6, 99_000, KeychainKind::External, ChainPosition::Confirmed { height: 100 });
    let update = Update {
        prev_tip: None,
        tip: tip_at(200),
        new_outputs: vec![mature_coinbase, young_coinbase, confirmed, trusted, untrusted, spent],
        new_txs: vec![],
        spent: vec![outpoint_n(6, 0)],
    };
    wallet.apply_update(&update).unwrap();
    let b = wallet.balance();
    // height 10 + 99 <= 200: mature; height 190 + 99 > 200: immature
    assert_eq!(b.confirmed, 60_000);
    assert_eq!(b.immature, 25_000);
    assert_eq!(b.trusted_pending, 7_000);
    assert_eq!(b.untrusted_pending, 3_000);
    let unspent_total: u64 = wallet.list_unspent().iter().map(|o| o.value).sum();
    assert_eq!(
        b.confirmed + b.immature + b.trusted_pending + b.untrusted_pending,
        unspent_total
    );
}

#[test]
fn apply_update_rejects_divergent_base() {
    let (mut wallet, _) = fresh_wallet();
    let update = Update {
        prev_tip: Some(tip_at(7)),
        tip: tip_at(8),
        new_outputs: vec![],
        new_txs: vec![],
        spent: vec![],
    };
    let r = wallet.apply_update(&update);
    assert!(matches!(r, Err(CannotConnectError::DivergentBase)));
}

#[test]
fn apply_update_marks_spends_and_moves_tip() {
    let (mut wallet, _) = fresh_wallet();
    let o = plain_output(1, 5_000, KeychainKind::External, ChainPosition::Unconfirmed);
    let first = Update {
        prev_tip: None,
        tip: tip_at(100),
        new_outputs: vec![o],
        new_txs: vec![],
        spent: vec![],
    };
    wallet.apply_update(&first).unwrap();
    assert_eq!(wallet.list_unspent().len(), 1);
    let second = Update {
        prev_tip: Some(tip_at(100)),
        tip: tip_at(101),
        new_outputs: vec![],
        new_txs: vec![],
        spent: vec![outpoint_n(1, 0)],
    };
    wallet.apply_update(&second).unwrap();
    assert_eq!(wallet.list_unspent().len(), 0);
    assert_eq!(wallet.list_output().len(), 1);
    assert!(wallet.list_output()[0].is_spent);
    assert_eq!(wallet.tip, Some(tip_at(101)));
}

fn wallet_with_coins() -> Wallet {
    let (mut wallet, _) = fresh_wallet();
    let a = plain_output(1, 70_000, KeychainKind::External, ChainPosition::Confirmed { height: 5 });
    let b = plain_output(2, 30_000, KeychainKind::External, ChainPosition::Confirmed { height: 6 });
    let update = Update {
        prev_tip: None,
        tip: tip_at(50),
        new_outputs: vec![a, b],
        new_txs: vec![],
        spent: vec![],
    };
    wallet.apply_update(&update).unwrap();
    wallet
}

#[test]
fn calculate_fee_sums_inputs_minus_outputs() {
    let wallet = wallet_with_coins();
    let tx = Transaction {
        txid: txid_n(9),
        inputs: vec![
            TxIn { previous_output: outpoint_n(1, 0), sequence: 0xFFFF_FFFF },
            TxIn { previous_output: outpoint_n(2, 0), sequence: 0xFFFF_FFFF },
        ],
        outputs: vec![TxOut { script_pubkey: vec![0x51], value: 99_000 }],
        weight: 800,
    };
    assert_eq!(wallet.calculate_fee(&tx).unwrap(), 1_000);
    let rate = wallet.calculate_fee_rate(&tx).unwrap();
    assert_eq!(rate.sat_per_kwu, 1_000 * 1000 / 800);
}

#[test]
fn calculate_fee_missing_input_fails() {
    let wallet = wallet_with_coins();
    let tx = Transaction {
        txid: txid_n(9),
        inputs: vec![TxIn { previous_output: outpoint_n(42, 0), sequence: 0 }],
        outputs: vec![],
        weight: 400,
    };
    assert!(matches!(
        wallet.calculate_fee(&tx),
        Err(CalculateFeeError::MissingTxOut)
    ));
}

#[test]
fn calculate_fee_negative_fails() {
    let wallet = wallet_with_coins();
    let tx = Transaction {
        txid: txid_n(9),
        inputs: vec![TxIn { previous_output: outpoint_n(2, 0), sequence: 0 }],
        outputs: vec![TxOut { script_pubkey: vec![0x51], value: 31_000 }],
        weight: 400,
    };
    assert!(matches!(
        wallet.calculate_fee(&tx),
        Err(CalculateFeeError::NegativeFee)
    ));
}

#[test]
fn sent_and_received_reads_ownership() {
    let (mut wallet, _) = fresh_wallet();
    let mine = wallet.reveal_next_address(KeychainKind::External);
    let coin = LocalOutput {
        outpoint: outpoint_n(1, 0),
        value: 20_000,
        script_pubkey: mine.script_pubkey.clone(),
        keychain: KeychainKind::External,
        derivation_index: 0,
        is_spent: false,
        chain_position: ChainPosition::Confirmed { height: 5 },
        is_coinbase: false,
    };
    let update = Update {
        prev_tip: None,
        tip: tip_at(50),
        new_outputs: vec![coin],
        new_txs: vec![],
        spent: vec![],
    };
    wallet.apply_update(&update).unwrap();
    let tx = Transaction {
        txid: txid_n(9),
        inputs: vec![TxIn { previous_output: outpoint_n(1, 0), sequence: 0 }],
        outputs: vec![
            TxOut { script_pubkey: vec![0x51, 0x52], value: 14_000 },
            TxOut { script_pubkey: mine.script_pubkey.clone(), value: 5_000 },
        ],
        weight: 600,
    };
    let sr = wallet.sent_and_received(&tx);
    assert_eq!(sr.sent, 20_000);
    assert_eq!(sr.received, 5_000);
}

#[test]
fn get_tx_parses_hex_and_finds() {
    let (mut wallet, _) = fresh_wallet();
    let tx = Transaction {
        txid: txid_n(1),
        inputs: vec![],
        outputs: vec![],
        weight: 400,
    };
    let update = Update {
        prev_tip: None,
        tip: tip_at(50),
        new_outputs: vec![],
        new_txs: vec![CanonicalTx {
            transaction: tx,
            chain_position: ChainPosition::Confirmed { height: 40 },
        }],
        spent: vec![],
    };
    wallet.apply_update(&update).unwrap();
    let hex_one = "0000000000000000000000000000000000000000000000000000000000000001";
    let found = wallet.get_tx(hex_one).unwrap();
    assert!(found.is_some());
    assert_eq!(found.unwrap().transaction.txid, txid_n(1));
    let hex_two = "0000000000000000000000000000000000000000000000000000000000000002";
    assert!(wallet.get_tx(hex_two).unwrap().is_none());
    assert!(wallet.get_tx("zz").is_err());
    assert!(wallet.get_tx("0123").is_err());
}

#[test]
fn persist_then_load_round_trips() {
    let mut conn = Connection::new();
    let mut wallet = Wallet::new(EXT_DESC, INT_DESC, Network::Testnet, &mut conn).unwrap();
    wallet.reveal_next_address(KeychainKind::External);
    wallet.reveal_next_address(KeychainKind::Internal);
    let o = plain_output(1, 12_345, KeychainKind::External, ChainPosition::Confirmed { height: 3 });
    let update = Update {
        prev_tip: None,
        tip: tip_at(9),
        new_outputs: vec![o],
        new_txs: vec![],
        spent: vec![],
    };
    wallet.apply_update(&update).unwrap();
    assert!(wallet.persist(&mut conn));
    // idempotent: nothing new to write
    assert!(!wallet.persist(&mut conn));
    let loaded = Wallet::load(EXT_DESC, INT_DESC, &conn).unwrap();
    assert_eq!(loaded.next_external_index, wallet.next_external_index);
    assert_eq!(loaded.next_internal_index, wallet.next_internal_index);
    assert_eq!(loaded.tip, wallet.tip);
    let a = loaded.list_output();
    let b = wallet.list_output();
    assert_eq!(a.len(), b.len());
    assert_eq!(a[0].outpoint, b[0].outpoint);
    assert_eq!(a[0].value, b[0].value);
    assert_eq!(a[0].script_pubkey, b[0].script_pubkey);
    // the revealed scripts come back identical
    assert_eq!(loaded.external_scripts, wallet.external_scripts);
}

#[test]
fn load_empty_store_not_found() {
    let conn = Connection::new();
    let r = Wallet::load(EXT_DESC, INT_DESC, &conn);
    assert!(matches!(r, Err(LoadWithPersistError::NotFound)));
}

#[test]
fn load_with_other_descriptors_mismatch() {
    let (_, conn) = fresh_wallet();
    let r = Wallet::load(INT_DESC, EXT_DESC, &conn);
    assert!(matches!(r, Err(LoadWithPersistError::Mismatch)));
}

#[test]
fn scan_requests_expose_targets() {
    let (mut wallet, _) = fresh_wallet();
    wallet.reveal_next_address(KeychainKind::External);
    wallet.reveal_next_address(KeychainKind::Internal);
    let full = wallet.start_full_scan();
    assert_eq!(full.descriptor, EXT_DESC.as_bytes().to_vec());
    assert_eq!(full.change_descriptor, INT_DESC.as_bytes().to_vec());
    let sync = wallet.start_sync_with_revealed_spks();
    assert_eq!(sync.scripts.len(), 2);
    assert_eq!(sync.scripts[0], wallet.external_scripts[0]);
    assert_eq!(sync.scripts[1], wallet.internal_scripts[0]);
}

#[test]
fn update_confirms_previously_seen_output_and_tx() {
    let (mut wallet, _) = fresh_wallet();
    let pending = plain_output(1, 8_000, KeychainKind::External, ChainPosition::Unconfirmed);
    let tx = Transaction { txid: txid_n(4), inputs: vec![], outputs: vec![], weight: 400 };
    let first = Update {
        prev_tip: None,
        tip: tip_at(100),
        new_outputs: vec![pending],
        new_txs: vec![CanonicalTx { transaction: tx.clone(), chain_position: ChainPosition::Unconfirmed }],
        spent: vec![],
    };
    wallet.apply_update(&first).unwrap();
    assert_eq!(wallet.balance().untrusted_pending, 8_000);
    // the same output and transaction come back confirmed
    let confirmed = plain_output(1, 8_000, KeychainKind::External, ChainPosition::Confirmed { height: 101 });
    let second = Update {
        prev_tip: Some(tip_at(100)),
        tip: tip_at(101),
        new_outputs: vec![confirmed],
        new_txs: vec![CanonicalTx { transaction: tx, chain_position: ChainPosition::Confirmed { height: 101 } }],
        spent: vec![],
    };
    wallet.apply_update(&second).unwrap();
    // the row was refreshed in place, not duplicated
    assert_eq!(wallet.list_output().len(), 1);
    let b = wallet.balance();
    assert_eq!(b.untrusted_pending, 0);
    assert_eq!(b.confirmed, 8_000);
    let hex = "0000000000000000000000000000000000000000000000000000000000000004";
    let found = wallet.get_tx(hex).unwrap().unwrap();
    assert!(matches!(found.chain_position, ChainPosition::Confirmed { height: 101 }));
}

#[test]
fn replayed_update_is_answered_not_forbidden() {
    let (mut wallet, _) = fresh_wallet();
    let o = plain_output(1, 5_000, KeychainKind::External, ChainPosition::Confirmed { height: 9 });
    let update = Update {
        prev_tip: None,
        tip: tip_at(10),
        new_outputs: vec![o.clone()],
        new_txs: vec![],
        spent: vec![],
    };
    wallet.apply_update(&update).unwrap();
    // replaying against the advanced tip does not connect, gracefully
    assert!(wallet.apply_update(&update).is_err());
    // the same content against the current tip merges idempotently
    let replay = Update {
        prev_tip: Some(tip_at(10)),
        tip: tip_at(10),
        new_outputs: vec![o],
        new_txs: vec![],
        spent: vec![],
    };
    wallet.apply_update(&replay).unwrap();
    assert_eq!(wallet.list_output().len(), 1);
    assert_eq!(wallet.balance().confirmed, 5_000);
}

#[test]
fn spent_flag_survives_a_refresh() {
    let (mut wallet, _) = fresh_wallet();
    let o = plain_output(1, 5_000, KeychainKind::External, ChainPosition::Unconfirmed);
    let first = Update {
        prev_tip: None,
        tip: tip_at(10),
        new_outputs: vec![o],
        new_txs: vec![],
        spent: vec![outpoint_n(1, 0)],
    };
    wallet.apply_update(&first).unwrap();
    assert!(wallet.list_output()[0].is_spent);
    // a confirmation of the same output does not resurrect it
    let confirmed = plain_output(1, 5_000, KeychainKind::External, ChainPosition::Confirmed { height: 11 });
    let second = Update {
        prev_tip: Some(tip_at(10)),
        tip: tip_at(11),
        new_outputs: vec![confirmed],
        new_txs: vec![],
        spent: vec![],
    };
    wallet.apply_update(&second).unwrap();
    assert!(wallet.list_output()[0].is_spent);
    assert_eq!(wallet.balance().confirmed, 0);
}
