use wallet_core::bump::BumpFeeTxBuilder;
use wallet_core::errors::CreateTxError;
use wallet_core::store::Connection;
use wallet_core::tx_builder::{ChangeSpendPolicy, RbfValue, TxBuilder};
use wallet_core::types::{
    BlockHash, CanonicalTx, ChainPosition, FeeRate, KeychainKind, LocalOutput, Network, OutPoint,
    ScriptAmount, Tip, Transaction, TxIn, TxOut, Txid, Update,
};
use wallet_core::wallet::Wallet;

const EXT_DESC: &str = "wpkh(tprv8ZgxMBicQKsPdy6LMhUtFHAgpocR8GC6QmwMSFpZs7h6Eziw3SpThFfczTDh5rW2krkqffa11UpX3XkeTTB2FvzZKWXqPY54Y6Rq4AQ5R8L/84'/1'/0'/0/*)";
const INT_DESC: &str = "wpkh(tprv8ZgxMBicQKsPdy6LMhUtFHAgpocR8GC6QmwMSFpZs7h6Eziw3SpThFfczTDh5rW2krkqffa11UpX3XkeTTB2FvzZKWXqPY54Y6Rq4AQ5R8L/84'/1'/0'/1/*)";

fn txid_n(n: u64) -> Txid {
    Txid { w0: 0, w1: 0, w2: 0, w3: n }
}

fn outpoint_n(n: u64, vout: u32) -> OutPoint {
    OutPoint { txid: txid_n(n), vout }
}

fn tip_at(height: u32) -> Tip {
    Tip { height, hash: BlockHash { w0: height as u64, w1: 0, w2: 0, w3: 0 } }
}

fn coin(n: u64, value: u64, keychain: KeychainKind) -> LocalOutput {
    LocalOutput {
        outpoint: outpoint_n(n, 0),
        value,
        script_pubkey: vec![0x51, n as u8],
        keychain,
        derivation_index: 0,
        is_spent: false,
        chain_position: ChainPosition::Confirmed { height: 5 },
        is_coinbase: false,
    }
}

fn funded_wallet(coins: Vec<LocalOutput>) -> Wallet {
    let mut conn = Connection::new();
    let mut wallet = Wallet::new(EXT_DESC, INT_DESC, Network::Testnet, &mut conn).unwrap();
    let update = Update {
        prev_tip: None,
        tip: tip_at(50),
        new_outputs: coins,
        new_txs: vec![],
        spent: vec![],
    };
    wallet.apply_update(&update).unwrap();
    wallet
}

fn pay_script() -> Vec<u8> {
    vec![0x00, 0x14, 9, 9, 9, 9, 9]
}

#[test]
fn absolute_fee_build_succeeds_with_exact_fee() {
    let wallet = funded_wallet(vec![coin(1, 100_000, KeychainKind::External)]);
    let b = TxBuilder::new()
        .add_recipient(pay_script(), 30_000)
        .fee_absolute(1_000);
    let t = b.finish(&wallet).unwrap();
    assert_eq!(t.fee, 1_000);
    assert_eq!(t.inputs.len(), 1);
    // recipients first, change output last
    assert_eq!(t.outputs.len(), 2);
    assert_eq!(t.outputs[0].script_pubkey, pay_script());
    assert_eq!(t.outputs[0].value, 30_000);
    assert_eq!(t.outputs[1].value, 69_000);
    // the change script is a real derived script, not a recipient's
    assert_eq!(t.outputs[1].script_pubkey.len(), 22);
    // value conservation
    let out_total: u64 = t.outputs.iter().map(|o| o.value).sum();
    assert_eq!(out_total + t.fee, 100_000);
}

#[test]
fn rate_fee_meets_requested_rate() {
    let wallet = funded_wallet(vec![coin(1, 100_000, KeychainKind::External)]);
    let b = TxBuilder::new()
        .add_recipient(pay_script(), 30_000)
        .fee_rate(FeeRate { sat_per_kwu: 250 });
    let t = b.finish(&wallet).unwrap();
    // estimated weight: base 40 + one input 272 + two outputs 248
    let weight: u64 = 40 + 272 + 2 * 124;
    assert_eq!(t.fee, (250 * weight + 999) / 1000);
    assert!(t.fee * 1000 >= 250 * weight);
}

#[test]
fn default_rate_applies_when_no_fee_intent() {
    let wallet = funded_wallet(vec![coin(1, 100_000, KeychainKind::External)]);
    let t = TxBuilder::new()
        .add_recipient(pay_script(), 30_000)
        .finish(&wallet)
        .unwrap();
    let weight: u64 = 40 + 272 + 2 * 124;
    assert_eq!(t.fee, (250 * weight + 999) / 1000);
}

#[test]
fn manual_selection_short_fails_insufficient() {
    let wallet = funded_wallet(vec![
        coin(1, 30_000, KeychainKind::External),
        coin(2, 100_000, KeychainKind::External),
    ]);
    let b = TxBuilder::new()
        .add_recipient(pay_script(), 30_000)
        .fee_absolute(1_000)
        .add_utxo(outpoint_n(1, 0))
        .manually_selected_only();
    assert!(matches!(
        b.finish(&wallet),
        Err(CreateTxError::InsufficientFunds)
    ));
}

#[test]
fn manual_selection_exact_has_no_change() {
    let wallet = funded_wallet(vec![coin(1, 31_000, KeychainKind::External)]);
    let b = TxBuilder::new()
        .add_recipient(pay_script(), 30_000)
        .fee_absolute(1_000)
        .add_utxo(outpoint_n(1, 0))
        .manually_selected_only();
    let t = b.finish(&wallet).unwrap();
    assert_eq!(t.outputs.len(), 1);
    assert_eq!(t.fee, 1_000);
    assert_eq!(t.inputs.len(), 1);
}

#[test]
fn no_recipients_fails() {
    let wallet = funded_wallet(vec![coin(1, 100_000, KeychainKind::External)]);
    let r = TxBuilder::new().finish(&wallet);
    assert!(matches!(r, Err(CreateTxError::NoRecipients)));
}

#[test]
fn dust_recipient_fails() {
    let wallet = funded_wallet(vec![coin(1, 100_000, KeychainKind::External)]);
    let r = TxBuilder::new()
        .add_recipient(pay_script(), 100)
        .finish(&wallet);
    assert!(matches!(r, Err(CreateTxError::OutputBelowDustLimit)));
}

#[test]
fn unknown_explicit_utxo_fails() {
    let wallet = funded_wallet(vec![coin(1, 100_000, KeychainKind::External)]);
    let r = TxBuilder::new()
        .add_recipient(pay_script(), 30_000)
        .add_utxo(outpoint_n(77, 0))
        .finish(&wallet);
    assert!(matches!(r, Err(CreateTxError::UnknownUtxo)));
}

#[test]
fn manual_without_inclusions_fails() {
    let wallet = funded_wallet(vec![coin(1, 100_000, KeychainKind::External)]);
    let r = TxBuilder::new()
        .add_recipient(pay_script(), 30_000)
        .manually_selected_only()
        .finish(&wallet);
    assert!(matches!(r, Err(CreateTxError::NoUtxosSelected)));
}

#[test]
fn change_policy_excluding_everything_fails() {
    let wallet = funded_wallet(vec![coin(1, 100_000, KeychainKind::External)]);
    let r = TxBuilder::new()
        .add_recipient(pay_script(), 30_000)
        .only_spend_change()
        .finish(&wallet);
    assert!(matches!(r, Err(CreateTxError::ChangePolicyDescRequired)));
}

#[test]
fn change_policy_filters_automatic_selection() {
    let wallet = funded_wallet(vec![
        coin(1, 100_000, KeychainKind::External),
        coin(2, 100_000, KeychainKind::Internal),
    ]);
    let t = TxBuilder::new()
        .add_recipient(pay_script(), 30_000)
        .change_policy(ChangeSpendPolicy::OnlyChange)
        .fee_absolute(1_000)
        .finish(&wallet)
        .unwrap();
    assert_eq!(t.inputs.len(), 1);
    assert_eq!(t.inputs[0].previous_output, outpoint_n(2, 0));
}

#[test]
fn unspendable_outpoints_are_never_selected() {
    let wallet = funded_wallet(vec![
        coin(1, 100_000, KeychainKind::External),
        coin(2, 100_000, KeychainKind::External),
    ]);
    let t = TxBuilder::new()
        .add_recipient(pay_script(), 30_000)
        .add_unspendable(outpoint_n(1, 0))
        .fee_absolute(1_000)
        .finish(&wallet)
        .unwrap();
    assert_eq!(t.inputs.len(), 1);
    assert_eq!(t.inputs[0].previous_output, outpoint_n(2, 0));
}

#[test]
fn drain_to_routes_all_spare_value() {
    let wallet = funded_wallet(vec![coin(1, 100_000, KeychainKind::External)]);
    let drain = vec![0x00, 0x14, 1, 2, 3];
    let t = TxBuilder::new()
        .add_recipient(pay_script(), 30_000)
        .fee_absolute(1_000)
        .drain_wallet()
        .drain_to(drain.clone())
        .finish(&wallet)
        .unwrap();
    assert_eq!(t.outputs.len(), 2);
    assert_eq!(t.outputs[1].script_pubkey, drain);
    assert_eq!(t.outputs[1].value, 69_000);
    assert_eq!(t.fee, 1_000);
}

#[test]
fn rbf_intent_sets_sequences() {
    let wallet = funded_wallet(vec![coin(1, 100_000, KeychainKind::External)]);
    let base = || {
        TxBuilder::new()
            .add_recipient(pay_script(), 30_000)
            .fee_absolute(1_000)
    };
    let plain = base().finish(&wallet).unwrap();
    assert_eq!(plain.inputs[0].sequence, 0xFFFF_FFFF);
    let rbf = base().enable_rbf().finish(&wallet).unwrap();
    assert_eq!(rbf.inputs[0].sequence, 0xFFFF_FFFD);
    let explicit = base().enable_rbf_with_sequence(42).finish(&wallet).unwrap();
    assert_eq!(explicit.inputs[0].sequence, 42);
}

#[test]
fn set_recipients_replaces_list() {
    let wallet = funded_wallet(vec![coin(1, 100_000, KeychainKind::External)]);
    let t = TxBuilder::new()
        .add_recipient(vec![0x99], 5_000)
        .set_recipients(vec![
            ScriptAmount { script: pay_script(), amount: 20_000 },
            ScriptAmount { script: vec![0x00, 0x14, 4], amount: 10_000 },
        ])
        .fee_absolute(1_000)
        .finish(&wallet)
        .unwrap();
    assert_eq!(t.outputs[0].value, 20_000);
    assert_eq!(t.outputs[1].value, 10_000);
}

#[test]
fn concurrent_manual_builds_on_disjoint_inputs_both_succeed() {
    let wallet = funded_wallet(vec![
        coin(1, 50_000, KeychainKind::External),
        coin(2, 50_000, KeychainKind::External),
    ]);
    let t1 = TxBuilder::new()
        .add_recipient(pay_script(), 40_000)
        .fee_absolute(1_000)
        .add_utxo(outpoint_n(1, 0))
        .manually_selected_only()
        .finish(&wallet)
        .unwrap();
    let t2 = TxBuilder::new()
        .add_recipient(pay_script(), 40_000)
        .fee_absolute(1_000)
        .add_utxo(outpoint_n(2, 0))
        .manually_selected_only()
        .finish(&wallet)
        .unwrap();
    assert_ne!(
        t1.inputs[0].previous_output,
        t2.inputs[0].previous_output
    );
}

/// A wallet holding one coin spent by a replaceable transaction that pays
/// a stranger and returns change to a revealed internal script.
fn wallet_with_replaceable_tx() -> (Wallet, String) {
    let mut conn = Connection::new();
    let mut wallet = Wallet::new(EXT_DESC, INT_DESC, Network::Testnet, &mut conn).unwrap();
    let change_script = wallet.reveal_next_address(KeychainKind::Internal).script_pubkey;
    let funding = coin(1, 100_000, KeychainKind::External);
    let original = Transaction {
        txid: txid_n(2),
        inputs: vec![TxIn { previous_output: outpoint_n(1, 0), sequence: 0xFFFF_FFFD }],
        outputs: vec![
            TxOut { script_pubkey: pay_script(), value: 60_000 },
            TxOut { script_pubkey: change_script, value: 39_000 },
        ],
        weight: 600,
    };
    let update = Update {
        prev_tip: None,
        tip: tip_at(50),
        new_outputs: vec![funding],
        new_txs: vec![CanonicalTx {
            transaction: original,
            chain_position: ChainPosition::Unconfirmed,
        }],
        spent: vec![outpoint_n(1, 0)],
    };
    wallet.apply_update(&update).unwrap();
    let hex = "0000000000000000000000000000000000000000000000000000000000000002";
    (wallet, hex.to_string())
}

#[test]
fn fee_bump_raises_fee_from_change() {
    let (wallet, hex) = wallet_with_replaceable_tx();
    // original fee: 100_000 - 99_000 = 1_000
    let t = BumpFeeTxBuilder::new(hex, FeeRate { sat_per_kwu: 2_000 })
        .finish(&wallet)
        .unwrap();
    // shape: one input, two outputs; weight 40 + 272 + 248 = 560
    let target = (2_000u64 * 560 + 999) / 1000;
    assert_eq!(t.fee, target);
    assert!(t.fee > 1_000);
    assert_eq!(t.outputs[0].value, 60_000);
    assert_eq!(t.outputs[1].value, 39_000 - (target - 1_000));
    // the replacement signals replaceability by default
    assert_eq!(t.inputs[0].sequence, 0xFFFF_FFFD);
}

#[test]
fn fee_bump_below_increment_fails() {
    let (wallet, hex) = wallet_with_replaceable_tx();
    // 250 sat/kwu over weight 560 resolves to 140, below the original 1_000
    let r = BumpFeeTxBuilder::new(hex, FeeRate { sat_per_kwu: 250 }).finish(&wallet);
    assert!(matches!(r, Err(CreateTxError::FeeRateTooLow)));
}

#[test]
fn fee_bump_unknown_transaction_fails() {
    let (wallet, _) = wallet_with_replaceable_tx();
    let other = "0000000000000000000000000000000000000000000000000000000000000009";
    let r = BumpFeeTxBuilder::new(other.to_string(), FeeRate { sat_per_kwu: 2_000 })
        .finish(&wallet);
    assert!(matches!(r, Err(CreateTxError::TransactionNotFound)));
    let bad = BumpFeeTxBuilder::new("xyz".to_string(), FeeRate { sat_per_kwu: 2_000 })
        .finish(&wallet);
    assert!(matches!(bad, Err(CreateTxError::UnknownUtxo)));
}

#[test]
fn fee_bump_explicit_sequence_applies() {
    let (wallet, hex) = wallet_with_replaceable_tx();
    let t = BumpFeeTxBuilder::new(hex, FeeRate { sat_per_kwu: 2_000 })
        .enable_rbf_with_sequence(7)
        .finish(&wallet)
        .unwrap();
    assert_eq!(t.inputs[0].sequence, 7);
}

/// A wallet whose replaceable transaction has no change output, plus one
/// spare coin the replacement can draw on.
fn wallet_with_changeless_tx() -> (Wallet, String) {
    let mut conn = Connection::new();
    let mut wallet = Wallet::new(EXT_DESC, INT_DESC, Network::Testnet, &mut conn).unwrap();
    let funding = coin(1, 100_000, KeychainKind::External);
    let spare = coin(3, 50_000, KeychainKind::External);
    let original = Transaction {
        txid: txid_n(2),
        inputs: vec![TxIn { previous_output: outpoint_n(1, 0), sequence: 0xFFFF_FFFD }],
        outputs: vec![TxOut { script_pubkey: pay_script(), value: 99_000 }],
        weight: 500,
    };
    let update = Update {
        prev_tip: None,
        tip: tip_at(50),
        new_outputs: vec![funding, spare],
        new_txs: vec![CanonicalTx {
            transaction: original,
            chain_position: ChainPosition::Unconfirmed,
        }],
        spent: vec![outpoint_n(1, 0)],
    };
    wallet.apply_update(&update).unwrap();
    let hex = "0000000000000000000000000000000000000000000000000000000000000002";
    (wallet, hex.to_string())
}

#[test]
fn fee_bump_without_change_adds_inputs() {
    let (wallet, hex) = wallet_with_changeless_tx();
    // original fee: 100_000 - 99_000 = 1_000; shape 1-in 1-out, weight 436
    let t = BumpFeeTxBuilder::new(hex, FeeRate { sat_per_kwu: 3_000 })
        .finish(&wallet)
        .unwrap();
    // the spare coin is drawn in; all spare value goes to fee
    assert_eq!(t.inputs.len(), 2);
    assert_eq!(t.inputs[0].previous_output, outpoint_n(1, 0));
    assert_eq!(t.inputs[1].previous_output, outpoint_n(3, 0));
    assert_eq!(t.outputs.len(), 1);
    assert_eq!(t.outputs[0].value, 99_000);
    assert_eq!(t.fee, 150_000 - 99_000);
    assert!(t.fee > 1_000);
    // the realized fee covers the rate at the final two-input shape
    let weight: u64 = 40 + 2 * 272 + 124;
    assert!(t.fee >= (3_000 * weight + 999) / 1000);
}

#[test]
fn fee_bump_without_change_or_funds_fails() {
    let mut conn = Connection::new();
    let mut wallet = Wallet::new(EXT_DESC, INT_DESC, Network::Testnet, &mut conn).unwrap();
    let funding = coin(1, 100_000, KeychainKind::External);
    let original = Transaction {
        txid: txid_n(2),
        inputs: vec![TxIn { previous_output: outpoint_n(1, 0), sequence: 0xFFFF_FFFD }],
        outputs: vec![TxOut { script_pubkey: pay_script(), value: 99_000 }],
        weight: 500,
    };
    let update = Update {
        prev_tip: None,
        tip: tip_at(50),
        new_outputs: vec![funding],
        new_txs: vec![CanonicalTx {
            transaction: original,
            chain_position: ChainPosition::Unconfirmed,
        }],
        spent: vec![outpoint_n(1, 0)],
    };
    wallet.apply_update(&update).unwrap();
    let hex = "0000000000000000000000000000000000000000000000000000000000000002";
    let r = BumpFeeTxBuilder::new(hex.to_string(), FeeRate { sat_per_kwu: 3_000 })
        .finish(&wallet);
    assert!(matches!(r, Err(CreateTxError::InsufficientFunds)));
}
