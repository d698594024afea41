//! Core data types of the wallet engine.
//!
//! Everything the engine reasons about is held here as plain values:
//! identifiers are 256-bit words, scripts are byte vectors, amounts are
//! satoshis in `u64`.

use vstd::prelude::*;

verus! {

/// Largest number of satoshis that can ever exist. Every wallet keeps the
/// sum of its output values at or below this bound, which keeps all balance
/// and fee arithmetic inside `u64`.
pub const MAX_MONEY: u64 = 2_100_000_000_000_000;

/// Number of confirmations a coinbase-style output needs before it is
/// spendable (the maturity window).
pub const COINBASE_MATURITY: u32 = 100;

/// Output value below which an output is uneconomical to spend; spare value
/// under this threshold is folded into the fee instead of becoming an output.
pub const DUST_LIMIT: u64 = 546;

/// Sequence number marking an input as finalized (not replaceable).
pub const SEQUENCE_FINAL: u32 = 0xFFFF_FFFF;

/// Sequence number enabling replacement with no relative locktime.
pub const SEQUENCE_RBF: u32 = 0xFFFF_FFFD;

/// Inputs with a sequence strictly below this signal replaceability.
pub const SEQUENCE_RBF_THRESHOLD: u32 = 0xFFFF_FFFE;

/// A 256-bit transaction identifier, held as four 64-bit words.
#[derive(Clone, Copy, PartialEq, Eq, Structural, Debug)]
pub struct Txid {
    pub w0: u64,
    pub w1: u64,
    pub w2: u64,
    pub w3: u64,
}

/// A 256-bit block hash, held as four 64-bit words.
#[derive(Clone, Copy, PartialEq, Eq, Structural, Debug)]
pub struct BlockHash {
    pub w0: u64,
    pub w1: u64,
    pub w2: u64,
    pub w3: u64,
}

/// A reference to one output of one transaction.
#[derive(Clone, Copy, PartialEq, Eq, Structural, Debug)]
pub struct OutPoint {
    pub txid: Txid,
    pub vout: u32,
}

/// The network a wallet operates on.
#[derive(Clone, Copy, PartialEq, Eq, Structural, Debug)]
pub enum Network {
    Bitcoin,
    Testnet,
    Signet,
    Regtest,
}

impl Network {
    /// A numeric tag for the network, used when stating what the external
    /// descriptor library computes.
    pub open spec fn code(self) -> int {
        match self {
            Network::Bitcoin => 0,
            Network::Testnet => 1,
            Network::Signet => 2,
            Network::Regtest => 3,
        }
    }
}

/// One of the two address-derivation branches of the wallet.
#[derive(Clone, Copy, PartialEq, Eq, Structural, Debug)]
pub enum KeychainKind {
    /// Receiving addresses, handed out to other parties.
    External,
    /// Change addresses, used internally by transaction building.
    Internal,
}

/// Where an output stands relative to the chain.
#[derive(Clone, Copy, PartialEq, Eq, Structural, Debug)]
pub enum ChainPosition {
    /// Anchored in a block at this height.
    Confirmed { height: u32 },
    /// Seen, but not yet in any block.
    Unconfirmed,
}

/// The chain tip a wallet has last been synchronized to.
#[derive(Clone, Copy, PartialEq, Eq, Structural, Debug)]
pub struct Tip {
    pub height: u32,
    pub hash: BlockHash,
}

/// A fee rate in satoshis per thousand weight units.
#[derive(Clone, Copy, PartialEq, Eq, Structural, Debug)]
pub struct FeeRate {
    pub sat_per_kwu: u64,
}

/// An output owned by the wallet, with its spend status.
///
/// Rows are append-only history: an output is never removed, only marked
/// spent once a transaction consuming it is applied.
#[derive(Clone, Debug)]
pub struct LocalOutput {
    pub outpoint: OutPoint,
    /// Value in satoshis.
    pub value: u64,
    /// The locking script of this output, as raw bytes.
    pub script_pubkey: Vec<u8>,
    /// Which derivation branch revealed the owning script.
    pub keychain: KeychainKind,
    /// The derivation index the owning script was revealed from.
    pub derivation_index: u32,
    /// Whether a transaction consuming this output has been applied.
    pub is_spent: bool,
    pub chain_position: ChainPosition,
    /// Whether the output is of coinbase style and thus subject to the
    /// maturity window.
    pub is_coinbase: bool,
}

/// A script together with an amount: one recipient of a transaction.
#[derive(Clone, Debug)]
pub struct ScriptAmount {
    pub script: Vec<u8>,
    /// Amount in satoshis.
    pub amount: u64,
}

/// One input of a transaction.
#[derive(Clone, Copy, PartialEq, Eq, Structural, Debug)]
pub struct TxIn {
    pub previous_output: OutPoint,
    pub sequence: u32,
}

/// One output of a transaction.
#[derive(Clone, Debug)]
pub struct TxOut {
    pub script_pubkey: Vec<u8>,
    /// Value in satoshis.
    pub value: u64,
}

/// A transaction as the engine sees it: an identifier, inputs, outputs and
/// the serialization weight (in weight units) reported by the party that
/// serialized it.
#[derive(Clone, Debug)]
pub struct Transaction {
    pub txid: Txid,
    pub inputs: Vec<TxIn>,
    pub outputs: Vec<TxOut>,
    /// Serialization weight in weight units.
    pub weight: u64,
}

/// A transaction known to the wallet, together with its chain position.
#[derive(Clone, Debug)]
pub struct CanonicalTx {
    pub transaction: Transaction,
    pub chain_position: ChainPosition,
}

/// A script, its derivation index and branch: the result of revealing the
/// next unused address of a keychain.
#[derive(Clone, Debug)]
pub struct AddressInfo {
    pub index: u32,
    pub keychain: KeychainKind,
    /// The locking script of the revealed address, as raw bytes.
    pub script_pubkey: Vec<u8>,
}

/// The four balance buckets, each in satoshis. Derived from the output set
/// on demand, never stored.
#[derive(Clone, Copy, PartialEq, Eq, Structural, Debug)]
pub struct Balance {
    /// Confirmed coinbase-style value still inside the maturity window.
    pub immature: u64,
    /// Unconfirmed value on the internal (change) branch.
    pub trusted_pending: u64,
    /// Unconfirmed value on the external branch.
    pub untrusted_pending: u64,
    /// Confirmed, mature value.
    pub confirmed: u64,
}

/// Values sent from and received by the wallet within one transaction.
#[derive(Clone, Copy, PartialEq, Eq, Structural, Debug)]
pub struct SentAndReceivedValues {
    /// Satoshis consumed from the wallet's own outputs.
    pub sent: u64,
    /// Satoshis paid to the wallet's own scripts.
    pub received: u64,
}

/// A batch of scan results to be merged into the wallet: the tip it was
/// computed against, the new tip, newly discovered outputs and transactions,
/// and outpoints observed as spent.
#[derive(Clone, Debug)]
pub struct Update {
    /// The tip the supplier of this update saw the wallet at. Must equal the
    /// wallet's current tip for the update to connect.
    pub prev_tip: Option<Tip>,
    /// The tip after this update.
    pub tip: Tip,
    /// Newly discovered outputs paying to wallet scripts.
    pub new_outputs: Vec<LocalOutput>,
    /// Newly observed transactions.
    pub new_txs: Vec<CanonicalTx>,
    /// Outpoints of wallet outputs observed as spent.
    pub spent: Vec<OutPoint>,
}

/// Sum of the values of a sequence of outputs.
pub open spec fn sum_values(s: Seq<LocalOutput>) -> int
    decreases s.len(),
{
    if s.len() == 0 {
        0
    } else {
        sum_values(s.drop_last()) + s.last().value
    }
}

/// Sum of the values of a sequence of transaction outputs.
pub open spec fn sum_txout_values(s: Seq<TxOut>) -> int
    decreases s.len(),
{
    if s.len() == 0 {
        0
    } else {
        sum_txout_values(s.drop_last()) + s.last().value
    }
}

/// Sum of the amounts of a sequence of recipients.
pub open spec fn sum_amounts(s: Seq<ScriptAmount>) -> int
    decreases s.len(),
{
    if s.len() == 0 {
        0
    } else {
        sum_amounts(s.drop_last()) + s.last().amount
    }
}

/// Every sum of output values is non-negative.
pub proof fn lemma_sum_values_nonneg(s: Seq<LocalOutput>)
    ensures
        sum_values(s) >= 0,
    decreases s.len(),
{
    if s.len() > 0 {
        lemma_sum_values_nonneg(s.drop_last());
    }
}

/// Every sum of transaction output values is non-negative.
pub proof fn lemma_sum_txout_nonneg(s: Seq<TxOut>)
    ensures
        sum_txout_values(s) >= 0,
    decreases s.len(),
{
    if s.len() > 0 {
        lemma_sum_txout_nonneg(s.drop_last());
    }
}

/// Two owned outputs carry the same data (scripts compared by content).
pub open spec fn out_eqv(a: LocalOutput, b: LocalOutput) -> bool {
    &&& a.outpoint == b.outpoint
    &&& a.value == b.value
    &&& a.script_pubkey@ == b.script_pubkey@
    &&& a.keychain == b.keychain
    &&& a.derivation_index == b.derivation_index
    &&& a.is_spent == b.is_spent
    &&& a.chain_position == b.chain_position
    &&& a.is_coinbase == b.is_coinbase
}

/// Two sequences of owned outputs carry the same data, row by row.
pub open spec fn outs_eqv(a: Seq<LocalOutput>, b: Seq<LocalOutput>) -> bool {
    &&& a.len() == b.len()
    &&& forall|i: int| 0 <= i < a.len() ==> out_eqv(#[trigger] a[i], b[i])
}

/// Two transaction outputs carry the same data.
pub open spec fn txout_eqv(a: TxOut, b: TxOut) -> bool {
    a.script_pubkey@ == b.script_pubkey@ && a.value == b.value
}

/// Two transactions carry the same data.
pub open spec fn tx_eqv(a: Transaction, b: Transaction) -> bool {
    &&& a.txid == b.txid
    &&& a.inputs@ == b.inputs@
    &&& a.outputs@.len() == b.outputs@.len()
    &&& forall|i: int| 0 <= i < a.outputs@.len() ==> txout_eqv(
            #[trigger] a.outputs@[i],
            b.outputs@[i],
        )
    &&& a.weight == b.weight
}

/// Two wallet transactions carry the same data.
pub open spec fn ctx_eqv(a: CanonicalTx, b: CanonicalTx) -> bool {
    tx_eqv(a.transaction, b.transaction) && a.chain_position == b.chain_position
}

/// Two sequences of wallet transactions carry the same data, row by row.
pub open spec fn ctxs_eqv(a: Seq<CanonicalTx>, b: Seq<CanonicalTx>) -> bool {
    &&& a.len() == b.len()
    &&& forall|i: int| 0 <= i < a.len() ==> ctx_eqv(#[trigger] a[i], b[i])
}

/// Sums distribute over concatenation of output rows.
pub proof fn lemma_sum_values_append(a: Seq<LocalOutput>, b: Seq<LocalOutput>)
    ensures
        sum_values(a + b) == sum_values(a) + sum_values(b),
    decreases b.len(),
{
    if b.len() == 0 {
        assert(a + b =~= a);
    } else {
        assert((a + b).drop_last() =~= a + b.drop_last());
        lemma_sum_values_append(a, b.drop_last());
    }
}

/// Compare two byte vectors by content.
pub fn bytes_eq(a: &Vec<u8>, b: &Vec<u8>) -> (r: bool)
    ensures
        r == (a@ == b@),
{
    if a.len() != b.len() {
        assert(a@ != b@);
        return false;
    }
    let n = a.len();
    let mut i: usize = 0;
    while i < n
        invariant
            n == a.len() == b.len(),
            0 <= i <= n,
            forall|k: int| 0 <= k < i ==> a@[k] == b@[k],
        decreases n - i,
    {
        if a[i] != b[i] {
            return false;
        }
        i += 1;
    }
    proof {
        assert(a@ =~= b@);
    }
    true
}

/// Copy a byte vector.
pub fn copy_bytes(v: &Vec<u8>) -> (r: Vec<u8>)
    ensures
        r@ == v@,
{
    let n = v.len();
    let mut r: Vec<u8> = Vec::new();
    let mut i: usize = 0;
    while i < n
        invariant
            n == v.len(),
            0 <= i <= n,
            r@ =~= v@.take(i as int),
        decreases n - i,
    {
        r.push(v[i]);
        i += 1;
    }
    proof {
        assert(r@ =~= v@);
    }
    r
}

/// Copy an owned-output row.
pub fn copy_output(o: &LocalOutput) -> (r: LocalOutput)
    ensures
        out_eqv(r, *o),
{
    LocalOutput {
        outpoint: o.outpoint,
        value: o.value,
        script_pubkey: copy_bytes(&o.script_pubkey),
        keychain: o.keychain,
        derivation_index: o.derivation_index,
        is_spent: o.is_spent,
        chain_position: o.chain_position,
        is_coinbase: o.is_coinbase,
    }
}

/// Copy a transaction.
pub fn copy_tx(t: &Transaction) -> (r: Transaction)
    ensures
        tx_eqv(r, *t),
{
    let mut inputs: Vec<TxIn> = Vec::new();
    let mut i: usize = 0;
    while i < t.inputs.len()
        invariant
            0 <= i <= t.inputs.len(),
            inputs@ =~= t.inputs@.take(i as int),
        decreases t.inputs.len() - i,
    {
        inputs.push(t.inputs[i]);
        i += 1;
    }
    let mut outputs: Vec<TxOut> = Vec::new();
    let mut j: usize = 0;
    while j < t.outputs.len()
        invariant
            0 <= j <= t.outputs.len(),
            outputs@.len() == j,
            forall|k: int| 0 <= k < j ==> txout_eqv(#[trigger] outputs@[k], t.outputs@[k]),
        decreases t.outputs.len() - j,
    {
        let o = TxOut {
            script_pubkey: copy_bytes(&t.outputs[j].script_pubkey),
            value: t.outputs[j].value,
        };
        outputs.push(o);
        j += 1;
    }
    proof {
        assert(inputs@ =~= t.inputs@);
    }
    Transaction { txid: t.txid, inputs, outputs, weight: t.weight }
}

/// Copy a wallet transaction.
pub fn copy_ctx(t: &CanonicalTx) -> (r: CanonicalTx)
    ensures
        ctx_eqv(r, *t),
{
    CanonicalTx { transaction: copy_tx(&t.transaction), chain_position: t.chain_position }
}

/// Two sequences of scripts carry the same bytes, entry by entry.
pub open spec fn scriptvecs_eqv(a: Seq<Vec<u8>>, b: Seq<Vec<u8>>) -> bool {
    &&& a.len() == b.len()
    &&& forall|i: int| 0 <= i < a.len() ==> (#[trigger] a[i])@ == b[i]@
}

/// Copy every row of an output list.
pub fn copy_outputs(v: &Vec<LocalOutput>) -> (r: Vec<LocalOutput>)
    ensures
        outs_eqv(r@, v@),
{
    let mut r: Vec<LocalOutput> = Vec::new();
    let mut i: usize = 0;
    while i < v.len()
        invariant
            0 <= i <= v@.len(),
            r@.len() == i,
            forall|k: int| 0 <= k < i ==> out_eqv(#[trigger] r@[k], v@[k]),
        decreases v@.len() - i,
    {
        r.push(copy_output(&v[i]));
        i += 1;
    }
    r
}

/// Copy every row of a transaction list.
pub fn copy_ctxs(v: &Vec<CanonicalTx>) -> (r: Vec<CanonicalTx>)
    ensures
        ctxs_eqv(r@, v@),
{
    let mut r: Vec<CanonicalTx> = Vec::new();
    let mut i: usize = 0;
    while i < v.len()
        invariant
            0 <= i <= v@.len(),
            r@.len() == i,
            forall|k: int| 0 <= k < i ==> ctx_eqv(#[trigger] r@[k], v@[k]),
        decreases v@.len() - i,
    {
        r.push(copy_ctx(&v[i]));
        i += 1;
    }
    r
}

/// The sum of a prefix of transaction outputs is at most the whole sum.
pub proof fn lemma_sum_txout_take_bound(s: Seq<TxOut>, i: int)
    requires
        0 <= i <= s.len(),
    ensures
        sum_txout_values(s.take(i)) <= sum_txout_values(s),
    decreases s.len() - i,
{
    if i < s.len() {
        lemma_sum_txout_take_bound(s, i + 1);
        assert(s.take(i + 1).drop_last() =~= s.take(i));
        lemma_sum_txout_nonneg(s.take(i));
    } else {
        assert(s.take(i) =~= s);
    }
}

} // verus!
