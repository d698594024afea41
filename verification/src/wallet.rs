//! The wallet engine: derivation state for the two keychains, the
//! append-only output set, the chain-tip view, and every query and mutation
//! over them.
//!
//! All mutating access goes through `&mut self`, so Rust's exclusive borrow
//! is the single mutual-exclusion boundary: at most one mutating operation
//! can be in flight at a time, and a scoped borrow is released on every exit
//! path.

use vstd::prelude::*;
use vstd::slice::{slice_index_get, slice_to_vec};
use vstd::string::StringSliceAdditionalSpecFns;

use crate::errors::{
    CalculateFeeError, CannotConnectError, CreateWithPersistError, LoadWithPersistError,
    TxidParseError,
};
use crate::store::{ChangeSet, Connection};
use crate::types::{
    bytes_eq, copy_bytes, copy_ctx, copy_ctxs, copy_output, copy_outputs, ctx_eqv, ctxs_eqv,
    lemma_sum_txout_nonneg, lemma_sum_txout_take_bound, lemma_sum_values_append,
    lemma_sum_values_nonneg, out_eqv, outs_eqv, scriptvecs_eqv, sum_txout_values, sum_values,
    AddressInfo, Balance, CanonicalTx, ChainPosition, FeeRate, KeychainKind, LocalOutput, Network,
    OutPoint, SentAndReceivedValues, Tip, Transaction, TxIn, TxOut, Txid, Update,
    COINBASE_MATURITY, MAX_MONEY,
};

verus! {

/// What the external descriptor library accepts: whether a descriptor pair
/// is valid for a network. Depends only on the two strings and the network.
pub uninterp spec fn descriptors_accepted(ext: Seq<u8>, chg: Seq<u8>, net: int) -> bool;

/// What the external descriptor library derives: the locking script of a
/// descriptor at a derivation index. Depends only on the string and the
/// index.
pub uninterp spec fn script_at(desc: Seq<u8>, index: int) -> Seq<u8>;

/// Relies on `bdk_wallet::Wallet::create(..).create_wallet_no_persist()`:
/// whether it accepts a descriptor pair for a network is a function of the
/// two descriptor strings and the network alone.
#[verifier::external_body]
fn check_descriptors(ext: &Vec<u8>, chg: &Vec<u8>, network: Network) -> (r: bool)
    ensures
        r == descriptors_accepted(ext@, chg@, network.code()),
{
    let e = match core::str::from_utf8(ext.as_slice()) { Ok(s) => s.to_string(), Err(_) => return false };
    let i = match core::str::from_utf8(chg.as_slice()) { Ok(s) => s.to_string(), Err(_) => return false };
    let net = match network {
        Network::Bitcoin => bdk_wallet::bitcoin::Network::Bitcoin,
        Network::Testnet => bdk_wallet::bitcoin::Network::Testnet,
        Network::Signet => bdk_wallet::bitcoin::Network::Signet,
        Network::Regtest => bdk_wallet::bitcoin::Network::Regtest,
    };
    bdk_wallet::Wallet::create(e, i).network(net).create_wallet_no_persist().is_ok()
}

/// Relies on `miniscript::Descriptor::parse_descriptor` and
/// `derived_descriptor`: the locking script at an index is a function of the
/// descriptor string and the index alone (an unparsable or underivable
/// descriptor yields the empty script).
#[verifier::external_body]
pub(crate) fn derive_script(desc: &Vec<u8>, index: u32) -> (r: Vec<u8>)
    requires
        index < 0x8000_0000,
    ensures
        r@ == script_at(desc@, index as int),
{
    let s = match core::str::from_utf8(desc.as_slice()) { Ok(s) => s, Err(_) => return Vec::new() };
    let secp = bdk_wallet::bitcoin::secp256k1::Secp256k1::new();
    let parsed = match bdk_wallet::miniscript::Descriptor::parse_descriptor(&secp, s) {
        Ok((d, _)) => d,
        Err(_) => return Vec::new(),
    };
    match parsed.derived_descriptor(&secp, index) {
        Ok(d) => d.script_pubkey().into_bytes(),
        Err(_) => Vec::new(),
    }
}

/// No two rows reference the same outpoint.
pub open spec fn unique_outpoints(s: Seq<LocalOutput>) -> bool {
    forall|i: int, j: int|
        0 <= i < j < s.len() ==> (#[trigger] s[i]).outpoint != (#[trigger] s[j]).outpoint
}

/// No two known transactions share an identifier.
pub open spec fn unique_txids(s: Seq<CanonicalTx>) -> bool {
    forall|i: int, j: int|
        0 <= i < j < s.len() ==> (#[trigger] s[i]).transaction.txid
            != (#[trigger] s[j]).transaction.txid
}

/// The wallet engine's state: descriptor pair, derivation high-water marks,
/// revealed scripts, the append-only output set, known transactions, and
/// the last synchronized chain tip.
#[derive(Debug)]
pub struct Wallet {
    /// Canonical form of the external (receiving) descriptor, as bytes.
    pub descriptor: Vec<u8>,
    /// Canonical form of the internal (change) descriptor, as bytes.
    pub change_descriptor: Vec<u8>,
    pub network: Network,
    /// Next unrevealed derivation index of the external keychain.
    pub next_external_index: u32,
    /// Next unrevealed derivation index of the internal keychain.
    pub next_internal_index: u32,
    /// Scripts revealed on the external keychain, one per index.
    pub external_scripts: Vec<Vec<u8>>,
    /// Scripts revealed on the internal keychain, one per index.
    pub internal_scripts: Vec<Vec<u8>>,
    /// Append-only output history; rows are marked spent, never removed.
    pub outputs: Vec<LocalOutput>,
    /// Transactions known to the wallet.
    pub txs: Vec<CanonicalTx>,
    /// Last synchronized chain tip.
    pub tip: Option<Tip>,
    /// Whether state has changed since the last persist.
    pub dirty: bool,
}

impl Wallet {
    /// The next unrevealed index of a keychain.
    pub open spec fn next_index(self, k: KeychainKind) -> u32 {
        match k {
            KeychainKind::External => self.next_external_index,
            KeychainKind::Internal => self.next_internal_index,
        }
    }

    /// The revealed scripts of a keychain.
    pub open spec fn scripts_of(self, k: KeychainKind) -> Seq<Vec<u8>> {
        match k {
            KeychainKind::External => self.external_scripts@,
            KeychainKind::Internal => self.internal_scripts@,
        }
    }

    /// The descriptor of a keychain, as bytes.
    pub open spec fn descriptor_of(self, k: KeychainKind) -> Seq<u8> {
        match k {
            KeychainKind::External => self.descriptor@,
            KeychainKind::Internal => self.change_descriptor@,
        }
    }

    /// Whether a script belongs to the wallet: it was revealed on one of the
    /// two keychains.
    pub open spec fn owns(self, s: Seq<u8>) -> bool {
        ||| exists|i: int|
            0 <= i < self.external_scripts@.len() && (#[trigger] self.external_scripts@[i])@ == s
        ||| exists|i: int|
            0 <= i < self.internal_scripts@.len() && (#[trigger] self.internal_scripts@[i])@ == s
    }

    /// Well-formedness: the descriptor pair is accepted for the network,
    /// indices stay below the derivation bound, one revealed script per
    /// index and each equal to the derived one, outpoints and transaction
    /// ids unique, and the total held value within the money supply.
    pub open spec fn wf(self) -> bool {
        &&& descriptors_accepted(self.descriptor@, self.change_descriptor@, self.network.code())
        &&& self.next_external_index <= 0x8000_0000u32
        &&& self.next_internal_index <= 0x8000_0000u32
        &&& self.external_scripts@.len() == self.next_external_index
        &&& self.internal_scripts@.len() == self.next_internal_index
        &&& forall|i: int|
            0 <= i < self.external_scripts@.len() ==> (#[trigger] self.external_scripts@[i])@
                == script_at(self.descriptor@, i)
        &&& forall|i: int|
            0 <= i < self.internal_scripts@.len() ==> (#[trigger] self.internal_scripts@[i])@
                == script_at(self.change_descriptor@, i)
        &&& unique_outpoints(self.outputs@)
        &&& unique_txids(self.txs@)
        &&& sum_values(self.outputs@) <= MAX_MONEY
    }

    /// Initialize fresh state against an empty store, writing the initial
    /// changeset. Fails if the descriptor pair is rejected or if the store
    /// already holds a wallet.
    pub fn new(
        descriptor: &str,
        change_descriptor: &str,
        network: Network,
        connection: &mut Connection,
    ) -> (r: Result<Wallet, CreateWithPersistError>)
        ensures
            !descriptors_accepted(
                descriptor.spec_bytes(),
                change_descriptor.spec_bytes(),
                network.code(),
            ) ==> r == Err::<Wallet, _>(CreateWithPersistError::InvalidDescriptor)
                && *final(connection) == *old(connection),
            descriptors_accepted(
                descriptor.spec_bytes(),
                change_descriptor.spec_bytes(),
                network.code(),
            ) && old(connection).changesets@.len() > 0 ==> r == Err::<Wallet, _>(
                CreateWithPersistError::AlreadyExists,
            ) && *final(connection) == *old(connection),
            r matches Ok(w) ==> {
                &&& descriptors_accepted(
                    descriptor.spec_bytes(),
                    change_descriptor.spec_bytes(),
                    network.code(),
                )
                &&& old(connection).changesets@.len() == 0
                &&& w.wf()
                &&& w.descriptor@ == descriptor.spec_bytes()
                &&& w.change_descriptor@ == change_descriptor.spec_bytes()
                &&& w.network == network
                &&& w.next_external_index == 0
                &&& w.next_internal_index == 0
                &&& w.outputs@.len() == 0
                &&& w.txs@.len() == 0
                &&& w.tip is None
                &&& !w.dirty
                &&& final(connection).changesets@.len() == 1
                &&& cs_matches(final(connection).changesets@[0], w)
            },
            r is Ok <==> descriptors_accepted(
                descriptor.spec_bytes(),
                change_descriptor.spec_bytes(),
                network.code(),
            ) && old(connection).changesets@.len() == 0,
    {
        let desc = slice_to_vec(descriptor.as_bytes());
        let change = slice_to_vec(change_descriptor.as_bytes());
        if !check_descriptors(&desc, &change, network) {
            return Err(CreateWithPersistError::InvalidDescriptor);
        }
        if connection.changesets.len() > 0 {
            return Err(CreateWithPersistError::AlreadyExists);
        }
        let wallet = Wallet {
            descriptor: desc,
            change_descriptor: change,
            network,
            next_external_index: 0,
            next_internal_index: 0,
            external_scripts: Vec::new(),
            internal_scripts: Vec::new(),
            outputs: Vec::new(),
            txs: Vec::new(),
            tip: None,
            dirty: false,
        };
        let cs = wallet.snapshot();
        connection.changesets.push(cs);
        Ok(wallet)
    }

    /// The changeset recording the wallet's full current state.
    fn snapshot(&self) -> (r: ChangeSet)
        requires
            self.wf(),
        ensures
            cs_matches(r, *self),
            cs_wf(r),
    {
        let outputs = copy_outputs(&self.outputs);
        let txs = copy_ctxs(&self.txs);
        let r = ChangeSet {
            descriptor: copy_bytes(&self.descriptor),
            change_descriptor: copy_bytes(&self.change_descriptor),
            network: self.network,
            next_external_index: self.next_external_index,
            next_internal_index: self.next_internal_index,
            outputs,
            txs,
            tip: self.tip,
        };
        proof {
            assert forall|x: int, y: int|
                0 <= x < y < r.outputs@.len() implies (#[trigger] r.outputs@[x]).outpoint != (
            #[trigger] r.outputs@[y]).outpoint by {
                assert(out_eqv(r.outputs@[x], self.outputs@[x]));
                assert(out_eqv(r.outputs@[y], self.outputs@[y]));
            }
            assert forall|x: int, y: int|
                0 <= x < y < r.txs@.len() implies (#[trigger] r.txs@[x]).transaction.txid != (
            #[trigger] r.txs@[y]).transaction.txid by {
                assert(ctx_eqv(r.txs@[x], self.txs@[x]));
                assert(ctx_eqv(r.txs@[y], self.txs@[y]));
            }
            lemma_sum_values_same_skeleton(r.outputs@, self.outputs@);
        }
        r
    }

    /// The network this wallet operates on.
    pub fn network(&self) -> (r: Network)
        ensures
            r == self.network,
    {
        self.network
    }

    /// Reveal the next unused address of a keychain: deterministic and
    /// monotonic, the high-water index moves up by exactly one and the
    /// returned index was never returned before. Does not persist.
    pub fn reveal_next_address(&mut self, keychain: KeychainKind) -> (r: AddressInfo)
        requires
            old(self).wf(),
            old(self).next_index(keychain) < 0x8000_0000u32,
        ensures
            final(self).wf(),
            r.keychain == keychain,
            r.index == old(self).next_index(keychain),
            r.script_pubkey@ == script_at(old(self).descriptor_of(keychain), r.index as int),
            final(self).next_index(keychain) == old(self).next_index(keychain) + 1,
            forall|k: KeychainKind| k != keychain ==> final(self).next_index(k) == old(
                self,
            ).next_index(k),
            forall|k: KeychainKind| k != keychain ==> final(self).scripts_of(k) == old(
                self,
            ).scripts_of(k),
            final(self).scripts_of(keychain) == old(self).scripts_of(keychain).push(
                final(self).scripts_of(keychain).last(),
            ),
            final(self).descriptor@ == old(self).descriptor@,
            final(self).change_descriptor@ == old(self).change_descriptor@,
            final(self).network == old(self).network,
            final(self).outputs == old(self).outputs,
            final(self).txs == old(self).txs,
            final(self).tip == old(self).tip,
            final(self).dirty,
    {
        match keychain {
            KeychainKind::External => {
                let index = self.next_external_index;
                let script = derive_script(&self.descriptor, index);
                let out = AddressInfo {
                    index,
                    keychain,
                    script_pubkey: copy_bytes(&script),
                };
                self.external_scripts.push(script);
                self.next_external_index = index + 1;
                self.dirty = true;
                out
            },
            KeychainKind::Internal => {
                let index = self.next_internal_index;
                let script = derive_script(&self.change_descriptor, index);
                let out = AddressInfo {
                    index,
                    keychain,
                    script_pubkey: copy_bytes(&script),
                };
                self.internal_scripts.push(script);
                self.next_internal_index = index + 1;
                self.dirty = true;
                out
            },
        }
    }

    /// Whether a script belongs to this wallet, that is, was revealed on one
    /// of its keychains.
    pub fn is_mine(&self, script: &Vec<u8>) -> (r: bool)
        ensures
            r == self.owns(script@),
    {
        let mut i: usize = 0;
        while i < self.external_scripts.len()
            invariant
                0 <= i <= self.external_scripts@.len(),
                forall|k: int|
                    0 <= k < i ==> (#[trigger] self.external_scripts@[k])@ != script@,
            decreases self.external_scripts@.len() - i,
        {
            if bytes_eq(&self.external_scripts[i], script) {
                return true;
            }
            i += 1;
        }
        let mut j: usize = 0;
        while j < self.internal_scripts.len()
            invariant
                0 <= j <= self.internal_scripts@.len(),
                forall|k: int|
                    0 <= k < self.external_scripts@.len() ==> (
                    #[trigger] self.external_scripts@[k])@ != script@,
                forall|k: int|
                    0 <= k < j ==> (#[trigger] self.internal_scripts@[k])@ != script@,
            decreases self.internal_scripts@.len() - j,
        {
            if bytes_eq(&self.internal_scripts[j], script) {
                return true;
            }
            j += 1;
        }
        false
    }
}

/// Whether a coinbase-style output confirmed at `h` has left the maturity
/// window under the given tip.
pub open spec fn is_mature(h: u32, tip: Option<Tip>) -> bool {
    match tip {
        Some(t) => h as int + COINBASE_MATURITY as int <= t.height as int + 1,
        None => false,
    }
}

/// The output counts toward the immature bucket.
pub open spec fn in_immature(o: LocalOutput, tip: Option<Tip>) -> bool {
    !o.is_spent && o.is_coinbase && match o.chain_position {
        ChainPosition::Confirmed { height } => !is_mature(height, tip),
        ChainPosition::Unconfirmed => false,
    }
}

/// The output counts toward the confirmed bucket.
pub open spec fn in_confirmed(o: LocalOutput, tip: Option<Tip>) -> bool {
    !o.is_spent && match o.chain_position {
        ChainPosition::Confirmed { height } => !o.is_coinbase || is_mature(height, tip),
        ChainPosition::Unconfirmed => false,
    }
}

/// The output counts toward the trusted-pending bucket: unconfirmed change.
pub open spec fn in_trusted(o: LocalOutput) -> bool {
    !o.is_spent && o.chain_position is Unconfirmed && o.keychain == KeychainKind::Internal
}

/// The output counts toward the untrusted-pending bucket: unconfirmed
/// external receives.
pub open spec fn in_untrusted(o: LocalOutput) -> bool {
    !o.is_spent && o.chain_position is Unconfirmed && o.keychain == KeychainKind::External
}

/// Sum of the values of the rows satisfying `f`.
pub open spec fn sum_where(s: Seq<LocalOutput>, f: spec_fn(LocalOutput) -> bool) -> int
    decreases s.len(),
{
    if s.len() == 0 {
        0
    } else {
        sum_where(s.drop_last(), f) + if f(s.last()) {
            s.last().value as int
        } else {
            0
        }
    }
}

/// Sum of the values of all unspent rows.
pub open spec fn spec_unspent_total(s: Seq<LocalOutput>) -> int {
    sum_where(s, |o: LocalOutput| !o.is_spent)
}

/// The four balance buckets partition the unspent value: their sums are
/// each non-negative and together equal the sum of all unspent output
/// values, which is itself bounded by the sum of all values.
pub proof fn lemma_balance_partition(s: Seq<LocalOutput>, tip: Option<Tip>)
    ensures
        sum_where(s, |o: LocalOutput| in_immature(o, tip)) + sum_where(
            s,
            |o: LocalOutput| in_trusted(o),
        ) + sum_where(s, |o: LocalOutput| in_untrusted(o)) + sum_where(
            s,
            |o: LocalOutput| in_confirmed(o, tip),
        ) == spec_unspent_total(s),
        0 <= sum_where(s, |o: LocalOutput| in_immature(o, tip)),
        0 <= sum_where(s, |o: LocalOutput| in_trusted(o)),
        0 <= sum_where(s, |o: LocalOutput| in_untrusted(o)),
        0 <= sum_where(s, |o: LocalOutput| in_confirmed(o, tip)),
        spec_unspent_total(s) <= sum_values(s),
    decreases s.len(),
{
    if s.len() > 0 {
        lemma_balance_partition(s.drop_last(), tip);
    }
}

impl Wallet {
    /// The balance buckets, derived from the output set and the current
    /// tip. The four buckets always sum to the total unspent value.
    pub fn balance(&self) -> (r: Balance)
        requires
            self.wf(),
        ensures
            r.immature == sum_where(self.outputs@, |o: LocalOutput| in_immature(o, self.tip)),
            r.trusted_pending == sum_where(self.outputs@, |o: LocalOutput| in_trusted(o)),
            r.untrusted_pending == sum_where(self.outputs@, |o: LocalOutput| in_untrusted(o)),
            r.confirmed == sum_where(self.outputs@, |o: LocalOutput| in_confirmed(o, self.tip)),
            r.immature + r.trusted_pending + r.untrusted_pending + r.confirmed
                == spec_unspent_total(self.outputs@),
    {
        let ghost all = self.outputs@;
        let mut immature: u64 = 0;
        let mut trusted: u64 = 0;
        let mut untrusted: u64 = 0;
        let mut confirmed: u64 = 0;
        let n = self.outputs.len();
        let mut i: usize = 0;
        while i < n
            invariant
                self.wf(),
                n == self.outputs@.len(),
                all == self.outputs@,
                0 <= i <= n,
                immature == sum_where(all.take(i as int), |o: LocalOutput| in_immature(o, self.tip)),
                trusted == sum_where(all.take(i as int), |o: LocalOutput| in_trusted(o)),
                untrusted == sum_where(all.take(i as int), |o: LocalOutput| in_untrusted(o)),
                confirmed == sum_where(all.take(i as int), |o: LocalOutput| in_confirmed(o, self.tip)),
            decreases n - i,
        {
            proof {
                assert(all.take(i + 1).drop_last() =~= all.take(i as int));
                assert(all.take(i + 1).last() == all[i as int]);
                lemma_balance_partition(all.take(i + 1), self.tip);
                lemma_balance_partition(all, self.tip);
                lemma_sum_values_take_bound(all, i + 1);
            }
            let o = &self.outputs[i];
            if !o.is_spent {
                let mature = match (self.tip, o.chain_position) {
                    (Some(t), ChainPosition::Confirmed { height }) => (height as u64)
                        + ((COINBASE_MATURITY - 1) as u64) <= t.height as u64,
                    _ => false,
                };
                match o.chain_position {
                    ChainPosition::Confirmed { height: _ } => {
                        if o.is_coinbase && !mature {
                            immature = immature + o.value;
                        } else {
                            confirmed = confirmed + o.value;
                        }
                    },
                    ChainPosition::Unconfirmed => {
                        match o.keychain {
                            KeychainKind::Internal => {
                                trusted = trusted + o.value;
                            },
                            KeychainKind::External => {
                                untrusted = untrusted + o.value;
                            },
                        }
                    },
                }
            }
            i += 1;
        }
        proof {
            assert(all.take(n as int) =~= all);
            lemma_balance_partition(all, self.tip);
        }
        Balance { immature, trusted_pending: trusted, untrusted_pending: untrusted, confirmed }
    }
}

/// The sum of a prefix of the rows is at most the sum of all rows.
pub proof fn lemma_sum_values_take_bound(s: Seq<LocalOutput>, i: int)
    requires
        0 <= i <= s.len(),
    ensures
        sum_values(s.take(i)) <= sum_values(s),
{
    assert(s =~= s.take(i) + s.skip(i));
    lemma_sum_values_append(s.take(i), s.skip(i));
    lemma_sum_values_nonneg(s.skip(i));
}

/// Some row references this outpoint.
pub open spec fn has_op(s: Seq<LocalOutput>, op: OutPoint) -> bool {
    exists|i: int| 0 <= i < s.len() && (#[trigger] s[i]).outpoint == op
}

/// Some known transaction has this identifier.
pub open spec fn has_txid(s: Seq<CanonicalTx>, id: Txid) -> bool {
    exists|i: int| 0 <= i < s.len() && (#[trigger] s[i]).transaction.txid == id
}

/// Mark the row referencing `op` (if any) as spent.
pub open spec fn mark_one(s: Seq<LocalOutput>, op: OutPoint) -> Seq<LocalOutput> {
    Seq::new(
        s.len(),
        |i: int|
            if s[i].outpoint == op {
                (LocalOutput { is_spent: true, ..s[i] })
            } else {
                s[i]
            },
    )
}

/// Mark every row referenced by `spent` as spent, in order.
pub open spec fn mark_spent(s: Seq<LocalOutput>, spent: Seq<OutPoint>) -> Seq<LocalOutput>
    decreases spent.len(),
{
    if spent.len() == 0 {
        s
    } else {
        mark_one(mark_spent(s, spent.drop_last()), spent.last())
    }
}

/// Marking rows spent changes neither length, nor outpoints, nor values.
pub proof fn lemma_mark_spent_skeleton(s: Seq<LocalOutput>, spent: Seq<OutPoint>)
    ensures
        mark_spent(s, spent).len() == s.len(),
        forall|i: int|
            0 <= i < s.len() ==> (#[trigger] mark_spent(s, spent)[i]).outpoint == s[i].outpoint
                && mark_spent(s, spent)[i].value == s[i].value,
    decreases spent.len(),
{
    if spent.len() > 0 {
        lemma_mark_spent_skeleton(s, spent.drop_last());
    }
}

/// Rows of equal length, values and outpoints sum alike.
pub proof fn lemma_sum_values_same_skeleton(a: Seq<LocalOutput>, b: Seq<LocalOutput>)
    requires
        a.len() == b.len(),
        forall|i: int| 0 <= i < a.len() ==> (#[trigger] a[i]).value == b[i].value,
    ensures
        sum_values(a) == sum_values(b),
    decreases a.len(),
{
    if a.len() > 0 {
        lemma_sum_values_same_skeleton(a.drop_last(), b.drop_last());
    }
}

/// Find the row referencing an outpoint.
pub(crate) fn find_output_index(v: &Vec<LocalOutput>, op: OutPoint) -> (r: Option<usize>)
    ensures
        match r {
            Some(j) => j < v@.len() && v@[j as int].outpoint == op,
            None => !has_op(v@, op),
        },
{
    let mut i: usize = 0;
    while i < v.len()
        invariant
            0 <= i <= v@.len(),
            forall|k: int| 0 <= k < i ==> (#[trigger] v@[k]).outpoint != op,
        decreases v@.len() - i,
    {
        if v[i].outpoint == op {
            return Some(i);
        }
        i += 1;
    }
    None
}

impl Wallet {
    /// Merge externally supplied scan results into the wallet. A row whose
    /// outpoint is already known is refreshed in place (a confirmation
    /// updates its chain position; its spent flag is kept), a fresh row is
    /// appended; transactions likewise; observed spends are marked and the
    /// tip advances. Fails, changing nothing, when the update's claimed
    /// base tip does not chain from the wallet's last known tip; an update
    /// replayed against the tip it itself produced merges idempotently.
    ///
    /// The update must be internally consistent: no outpoint or
    /// transaction id appears twice within it, every spent marker
    /// references an output known before or within the update, and the
    /// merged total value stays within the money supply.
    #[verifier::rlimit(100)]
    pub fn apply_update(&mut self, update: &Update) -> (r: Result<(), CannotConnectError>)
        requires
            old(self).wf(),
            unique_outpoints(update.new_outputs@),
            unique_txids(update.new_txs@),
            forall|i: int|
                0 <= i < update.spent@.len() ==> has_op(
                    old(self).outputs@,
                    #[trigger] update.spent@[i],
                ) || has_op(update.new_outputs@, update.spent@[i]),
            sum_values(merge_outputs(old(self).outputs@, update.new_outputs@)) <= MAX_MONEY,
        ensures
            r is Ok <==> update.prev_tip == old(self).tip,
            r is Err ==> *final(self) == *old(self) && r == Err::<(), _>(
                CannotConnectError::DivergentBase,
            ),
            r is Ok ==> {
                &&& final(self).wf()
                &&& outs_eqv(
                    final(self).outputs@,
                    mark_spent(
                        merge_outputs(old(self).outputs@, update.new_outputs@),
                        update.spent@,
                    ),
                )
                &&& ctxs_eqv(final(self).txs@, merge_txs(old(self).txs@, update.new_txs@))
                &&& final(self).tip == Some(update.tip)
                &&& final(self).dirty
                &&& final(self).descriptor@ == old(self).descriptor@
                &&& final(self).change_descriptor@ == old(self).change_descriptor@
                &&& final(self).network == old(self).network
                &&& final(self).next_external_index == old(self).next_external_index
                &&& final(self).next_internal_index == old(self).next_internal_index
                &&& final(self).external_scripts == old(self).external_scripts
                &&& final(self).internal_scripts == old(self).internal_scripts
            },
    {
        let tips_match = match (&self.tip, &update.prev_tip) {
            (Some(a), Some(b)) => *a == *b,
            (None, None) => true,
            _ => false,
        };
        if !tips_match {
            return Err(CannotConnectError::DivergentBase);
        }
        let ghost base = self.outputs@;
        let ghost news = update.new_outputs@;
        // Merge the update's output rows: refresh known rows, append fresh
        // ones.
        let mut i: usize = 0;
        while i < update.new_outputs.len()
            invariant
                news == update.new_outputs@,
                base == old(self).outputs@,
                unique_outpoints(news),
                0 <= i <= news.len(),
                outs_eqv(self.outputs@, merge_outputs(base, news.take(i as int))),
                unique_outpoints(self.outputs@),
                *self == (Wallet { outputs: self.outputs, ..*old(self) }),
            decreases news.len() - i,
        {
            let ghost m = merge_outputs(base, news.take(i as int));
            proof {
                assert(news.take(i + 1).drop_last() =~= news.take(i as int));
                assert(news.take(i + 1).last() == news[i as int]);
            }
            let op = update.new_outputs[i].outpoint;
            match find_output_index(&self.outputs, op) {
                Some(j) => {
                    proof {
                        assert(out_eqv(self.outputs@[j as int], m[j as int]));
                        assert(has_op(m, op)) by {
                            assert(m[j as int].outpoint == op);
                        }
                        let c = op_index(m, op);
                        assert(m[c].outpoint == op);
                        assert(out_eqv(self.outputs@[c], m[c]));
                        if c != j as int {
                            assert(self.outputs@[c].outpoint == op);
                            assert(false);
                        }
                    }
                    let keep_spent = self.outputs[j].is_spent;
                    let mut row = copy_output(&update.new_outputs[i]);
                    row.is_spent = keep_spent;
                    let ghost prev_actual = self.outputs@;
                    let _replaced = self.outputs.remove(j);
                    self.outputs.insert(j, row);
                    proof {
                        assert(self.outputs@ =~= prev_actual.update(j as int, row));
                        let m1 = merge_outputs(base, news.take(i + 1));
                        assert(m1 == m.update(
                            op_index(m, op),
                            (merged_row(m[op_index(m, op)], news[i as int])),
                        ));
                        assert(out_eqv(row, merged_row(m[j as int], news[i as int])));
                        assert forall|k: int| 0 <= k < self.outputs@.len() implies out_eqv(
                            #[trigger] self.outputs@[k],
                            m1[k],
                        ) by {
                            if k != j as int {
                                assert(self.outputs@[k] == prev_actual[k]);
                                assert(out_eqv(prev_actual[k], m[k]));
                            }
                        }
                        assert(outs_eqv(self.outputs@, m1));
                        assert forall|x: int, y: int|
                            0 <= x < y < self.outputs@.len() implies (
                        #[trigger] self.outputs@[x]).outpoint != (
                        #[trigger] self.outputs@[y]).outpoint by {
                            assert(self.outputs@[x].outpoint == prev_actual[x].outpoint);
                            assert(self.outputs@[y].outpoint == prev_actual[y].outpoint);
                        }
                    }
                },
                None => {
                    proof {
                        if has_op(m, op) {
                            let c = op_index(m, op);
                            assert(m[c].outpoint == op);
                            assert(out_eqv(self.outputs@[c], m[c]));
                            assert(false);
                        }
                    }
                    let row = copy_output(&update.new_outputs[i]);
                    let ghost prev_actual = self.outputs@;
                    self.outputs.push(row);
                    proof {
                        let m1 = merge_outputs(base, news.take(i + 1));
                        assert(m1 == m.push(news[i as int]));
                        assert forall|k: int| 0 <= k < self.outputs@.len() implies out_eqv(
                            #[trigger] self.outputs@[k],
                            m1[k],
                        ) by {
                            if k < prev_actual.len() {
                                assert(self.outputs@[k] == prev_actual[k]);
                                assert(out_eqv(prev_actual[k], m[k]));
                                assert(m1[k] == m[k]);
                            }
                        }
                        assert(outs_eqv(self.outputs@, m1));
                        assert forall|x: int, y: int|
                            0 <= x < y < self.outputs@.len() implies (
                        #[trigger] self.outputs@[x]).outpoint != (
                        #[trigger] self.outputs@[y]).outpoint by {
                            if y == prev_actual.len() {
                                assert(self.outputs@[x] == prev_actual[x]);
                                assert(self.outputs@[y] == row);
                            } else {
                                assert(self.outputs@[x] == prev_actual[x]);
                                assert(self.outputs@[y] == prev_actual[y]);
                            }
                        }
                    }
                },
            }
            i += 1;
        }
        proof {
            assert(news.take(news.len() as int) =~= news);
        }
        let ghost merged_spec = merge_outputs(base, news);
        let ghost appended = self.outputs@;
        proof {
            lemma_sum_values_same_skeleton(appended, merged_spec);
        }
        // Mark the observed spends, one outpoint at a time.
        let mut si: usize = 0;
        while si < update.spent.len()
            invariant
                0 <= si <= update.spent@.len(),
                unique_outpoints(appended),
                self.outputs@ =~= mark_spent(appended, update.spent@.take(si as int)),
                *self == (Wallet { outputs: self.outputs, ..*old(self) }),
            decreases update.spent@.len() - si,
        {
            let op = update.spent[si];
            let ghost prev = mark_spent(appended, update.spent@.take(si as int));
            proof {
                lemma_mark_spent_skeleton(appended, update.spent@.take(si as int));
                assert(update.spent@.take(si + 1).drop_last() =~= update.spent@.take(si as int));
                assert(update.spent@.take(si + 1).last() == update.spent@[si as int]);
            }
            match find_output_index(&self.outputs, op) {
                Some(j) => {
                    self.outputs[j].is_spent = true;
                    proof {
                        assert(self.outputs@ =~= prev.update(
                            j as int,
                            (LocalOutput { is_spent: true, ..prev[j as int] }),
                        ));
                        assert forall|k: int| 0 <= k < prev.len() implies self.outputs@[k]
                            == mark_one(prev, op)[k] by {
                            if k != j as int && prev[k].outpoint == op {
                                assert(prev[k].outpoint == appended[k].outpoint);
                                assert(prev[j as int].outpoint == appended[j as int].outpoint);
                                assert(false);
                            }
                        }
                        assert(self.outputs@ =~= mark_one(prev, op));
                    }
                },
                None => {
                    proof {
                        assert forall|k: int| 0 <= k < prev.len() implies self.outputs@[k]
                            == mark_one(prev, op)[k] by {
                            if prev[k].outpoint == op {
                                assert(has_op(prev, op));
                            }
                        }
                        assert(self.outputs@ =~= mark_one(prev, op));
                    }
                },
            }
            si += 1;
        }
        proof {
            assert(update.spent@.take(update.spent@.len() as int) =~= update.spent@);
            lemma_mark_spent_skeleton(appended, update.spent@);
            lemma_sum_values_same_skeleton(self.outputs@, appended);
            lemma_mark_spent_eqv(appended, merged_spec, update.spent@);
            assert(outs_eqv(self.outputs@, mark_spent(merged_spec, update.spent@))) by {
                lemma_mark_spent_skeleton(merged_spec, update.spent@);
                assert forall|k: int| 0 <= k < self.outputs@.len() implies out_eqv(
                    #[trigger] self.outputs@[k],
                    mark_spent(merged_spec, update.spent@)[k],
                ) by {
                    assert(out_eqv(mark_spent(appended, update.spent@)[k], mark_spent(
                        merged_spec,
                        update.spent@,
                    )[k]));
                }
            }
            assert forall|x: int, y: int|
                0 <= x < y < self.outputs@.len() implies (#[trigger] self.outputs@[x]).outpoint
                != (#[trigger] self.outputs@[y]).outpoint by {
                assert(self.outputs@[x].outpoint == appended[x].outpoint);
                assert(self.outputs@[y].outpoint == appended[y].outpoint);
            }
        }
        // Merge the update's transactions: refresh known ones, append the
        // fresh ones.
        let ghost prior = *self;
        let ghost old_txs = self.txs@;
        let ghost tnews = update.new_txs@;
        let mut ti: usize = 0;
        while ti < update.new_txs.len()
            invariant
                tnews == update.new_txs@,
                old_txs == old(self).txs@,
                unique_txids(tnews),
                0 <= ti <= tnews.len(),
                ctxs_eqv(self.txs@, merge_txs(old_txs, tnews.take(ti as int))),
                unique_txids(self.txs@),
                *self == (Wallet { txs: self.txs, ..prior }),
            decreases tnews.len() - ti,
        {
            let ghost m = merge_txs(old_txs, tnews.take(ti as int));
            proof {
                assert(tnews.take(ti + 1).drop_last() =~= tnews.take(ti as int));
                assert(tnews.take(ti + 1).last() == tnews[ti as int]);
            }
            let id = update.new_txs[ti].transaction.txid;
            let row = copy_ctx(&update.new_txs[ti]);
            match find_tx_index(&self.txs, id) {
                Some(j) => {
                    proof {
                        assert(ctx_eqv(self.txs@[j as int], m[j as int]));
                        assert(has_txid(m, id)) by {
                            assert(m[j as int].transaction.txid == id);
                        }
                        let c = tx_index(m, id);
                        assert(m[c].transaction.txid == id);
                        assert(ctx_eqv(self.txs@[c], m[c]));
                        if c != j as int {
                            assert(self.txs@[c].transaction.txid == id);
                            assert(false);
                        }
                    }
                    let ghost prev_actual = self.txs@;
                    let _replaced = self.txs.remove(j);
                    self.txs.insert(j, row);
                    proof {
                        assert(self.txs@ =~= prev_actual.update(j as int, self.txs@[j as int]));
                        let m1 = merge_txs(old_txs, tnews.take(ti + 1));
                        assert(m1 == m.update(tx_index(m, id), tnews[ti as int]));
                        assert forall|k: int| 0 <= k < self.txs@.len() implies ctx_eqv(
                            #[trigger] self.txs@[k],
                            m1[k],
                        ) by {
                            if k != j as int {
                                assert(self.txs@[k] == prev_actual[k]);
                                assert(ctx_eqv(prev_actual[k], m[k]));
                            }
                        }
                        assert(ctxs_eqv(self.txs@, m1));
                        assert forall|x: int, y: int|
                            0 <= x < y < self.txs@.len() implies (
                        #[trigger] self.txs@[x]).transaction.txid != (
                        #[trigger] self.txs@[y]).transaction.txid by {
                            assert(self.txs@[x].transaction.txid
                                == prev_actual[x].transaction.txid);
                            assert(self.txs@[y].transaction.txid
                                == prev_actual[y].transaction.txid);
                        }
                    }
                },
                None => {
                    proof {
                        if has_txid(m, id) {
                            let c = tx_index(m, id);
                            assert(m[c].transaction.txid == id);
                            assert(ctx_eqv(self.txs@[c], m[c]));
                            assert(false);
                        }
                    }
                    let ghost prev_actual = self.txs@;
                    self.txs.push(row);
                    proof {
                        let m1 = merge_txs(old_txs, tnews.take(ti + 1));
                        assert(m1 == m.push(tnews[ti as int]));
                        assert forall|k: int| 0 <= k < self.txs@.len() implies ctx_eqv(
                            #[trigger] self.txs@[k],
                            m1[k],
                        ) by {
                            if k < prev_actual.len() {
                                assert(self.txs@[k] == prev_actual[k]);
                                assert(ctx_eqv(prev_actual[k], m[k]));
                                assert(m1[k] == m[k]);
                            }
                        }
                        assert(ctxs_eqv(self.txs@, m1));
                        assert forall|x: int, y: int|
                            0 <= x < y < self.txs@.len() implies (
                        #[trigger] self.txs@[x]).transaction.txid != (
                        #[trigger] self.txs@[y]).transaction.txid by {
                            if y == prev_actual.len() {
                                assert(self.txs@[x] == prev_actual[x]);
                            } else {
                                assert(self.txs@[x] == prev_actual[x]);
                                assert(self.txs@[y] == prev_actual[y]);
                            }
                        }
                    }
                },
            }
            ti += 1;
        }
        self.tip = Some(update.tip);
        self.dirty = true;
        proof {
            assert(tnews.take(tnews.len() as int) =~= tnews);
        }
        Ok(())
    }
}

/// Index of the row referencing an outpoint (meaningful when one does).
pub open spec fn op_index(s: Seq<LocalOutput>, op: OutPoint) -> int {
    choose|i: int| 0 <= i < s.len() && (#[trigger] s[i]).outpoint == op
}

/// A refreshed row: the update's data, the wallet's spent flag.
pub open spec fn merged_row(old_row: LocalOutput, new_row: LocalOutput) -> LocalOutput {
    LocalOutput { is_spent: old_row.is_spent, ..new_row }
}

/// Merge update rows into the output set, left to right: a row whose
/// outpoint is known refreshes that row in place, a fresh row is appended.
pub open spec fn merge_outputs(s: Seq<LocalOutput>, news: Seq<LocalOutput>) -> Seq<LocalOutput>
    decreases news.len(),
{
    if news.len() == 0 {
        s
    } else {
        let m = merge_outputs(s, news.drop_last());
        let r = news.last();
        if has_op(m, r.outpoint) {
            m.update(op_index(m, r.outpoint), (merged_row(m[op_index(m, r.outpoint)], r)))
        } else {
            m.push(r)
        }
    }
}

/// Index of the transaction with an identifier (meaningful when one has
/// it).
pub open spec fn tx_index(s: Seq<CanonicalTx>, id: Txid) -> int {
    choose|i: int| 0 <= i < s.len() && (#[trigger] s[i]).transaction.txid == id
}

/// Merge update transactions into the known set, left to right: a known
/// identifier's record is replaced, a fresh one is appended.
pub open spec fn merge_txs(s: Seq<CanonicalTx>, news: Seq<CanonicalTx>) -> Seq<CanonicalTx>
    decreases news.len(),
{
    if news.len() == 0 {
        s
    } else {
        let m = merge_txs(s, news.drop_last());
        let r = news.last();
        if has_txid(m, r.transaction.txid) {
            m.update(tx_index(m, r.transaction.txid), r)
        } else {
            m.push(r)
        }
    }
}

/// Find the transaction with an identifier.
pub(crate) fn find_tx_index(v: &Vec<CanonicalTx>, id: Txid) -> (r: Option<usize>)
    ensures
        match r {
            Some(j) => j < v@.len() && v@[j as int].transaction.txid == id,
            None => !has_txid(v@, id),
        },
{
    let mut i: usize = 0;
    while i < v.len()
        invariant
            0 <= i <= v@.len(),
            forall|k: int| 0 <= k < i ==> (#[trigger] v@[k]).transaction.txid != id,
        decreases v@.len() - i,
    {
        if v[i].transaction.txid == id {
            return Some(i);
        }
        i += 1;
    }
    None
}

/// Marking is a congruence for row-wise data equality.
proof fn lemma_mark_spent_eqv(a: Seq<LocalOutput>, b: Seq<LocalOutput>, spent: Seq<OutPoint>)
    requires
        outs_eqv(a, b),
    ensures
        outs_eqv(mark_spent(a, spent), mark_spent(b, spent)),
    decreases spent.len(),
{
    if spent.len() > 0 {
        lemma_mark_spent_eqv(a, b, spent.drop_last());
        let ma = mark_spent(a, spent.drop_last());
        let mb = mark_spent(b, spent.drop_last());
        let op = spent.last();
        assert forall|k: int| 0 <= k < ma.len() implies out_eqv(
            #[trigger] mark_one(ma, op)[k],
            mark_one(mb, op)[k],
        ) by {
            assert(out_eqv(ma[k], mb[k]));
        }
    }
}

/// No two inputs of a transaction consume the same outpoint.
pub open spec fn distinct_inputs(ins: Seq<TxIn>) -> bool {
    forall|i: int, j: int|
        0 <= i < j < ins.len() ==> (#[trigger] ins[i]).previous_output != (
        #[trigger] ins[j]).previous_output
}

/// A transaction the engine is asked about is structurally valid: no input
/// repeated, outputs within the money supply, positive weight.
pub open spec fn tx_wf(tx: Transaction) -> bool {
    &&& distinct_inputs(tx.inputs@)
    &&& sum_txout_values(tx.outputs@) <= MAX_MONEY
    &&& 1 <= tx.weight
}

/// The value of the row referencing `op`, or zero when no row does.
pub open spec fn val_of(s: Seq<LocalOutput>, op: OutPoint) -> int {
    if has_op(s, op) {
        s[choose|i: int| 0 <= i < s.len() && (#[trigger] s[i]).outpoint == op].value as int
    } else {
        0
    }
}

/// Every input of the transaction references a known row.
pub open spec fn inputs_known(s: Seq<LocalOutput>, ins: Seq<TxIn>) -> bool {
    forall|i: int| 0 <= i < ins.len() ==> has_op(s, (#[trigger] ins[i]).previous_output)
}

/// Sum of the known values consumed by the given inputs.
pub open spec fn sum_input_values(s: Seq<LocalOutput>, ins: Seq<TxIn>) -> int
    decreases ins.len(),
{
    if ins.len() == 0 {
        0
    } else {
        sum_input_values(s, ins.drop_last()) + val_of(s, ins.last().previous_output)
    }
}

/// Removing a row lowers the sum by exactly that row's value.
pub(crate) proof fn lemma_sum_values_remove(s: Seq<LocalOutput>, j: int)
    requires
        0 <= j < s.len(),
    ensures
        sum_values(s.remove(j)) == sum_values(s) - s[j].value,
    decreases s.len(),
{
    if j == s.len() - 1 {
        assert(s.remove(j) =~= s.drop_last());
    } else {
        assert(s.remove(j).drop_last() =~= s.drop_last().remove(j));
        lemma_sum_values_remove(s.drop_last(), j);
        assert(s.remove(j).last() == s.last());
    }
}

/// Removing a row another outpoint does not reference leaves that
/// outpoint's value unchanged.
pub(crate) proof fn lemma_val_of_remove(s: Seq<LocalOutput>, j: int, op: OutPoint)
    requires
        unique_outpoints(s),
        0 <= j < s.len(),
        op != s[j].outpoint,
    ensures
        val_of(s.remove(j), op) == val_of(s, op),
{
    let s2 = s.remove(j);
    if has_op(s, op) {
        let i0 = choose|i: int| 0 <= i < s.len() && (#[trigger] s[i]).outpoint == op;
        let i2 = if i0 < j {
            i0
        } else {
            i0 - 1
        };
        assert(s2[i2] == s[i0]);
        assert(has_op(s2, op));
        let k = choose|i: int| 0 <= i < s2.len() && (#[trigger] s2[i]).outpoint == op;
        let korig = if k < j {
            k
        } else {
            k + 1
        };
        assert(s2[k] == s[korig]);
        assert(s[korig].outpoint == op);
        assert(korig == i0);
    } else {
        if has_op(s2, op) {
            let k = choose|i: int| 0 <= i < s2.len() && (#[trigger] s2[i]).outpoint == op;
            let korig = if k < j {
                k
            } else {
                k + 1
            };
            assert(s2[k] == s[korig]);
            assert(has_op(s, op));
        }
    }
}

/// Removing a row no input references leaves the input sum unchanged.
proof fn lemma_input_sum_remove(s: Seq<LocalOutput>, j: int, ins: Seq<TxIn>)
    requires
        unique_outpoints(s),
        0 <= j < s.len(),
        forall|i: int|
            0 <= i < ins.len() ==> (#[trigger] ins[i]).previous_output != s[j].outpoint,
    ensures
        sum_input_values(s.remove(j), ins) == sum_input_values(s, ins),
    decreases ins.len(),
{
    if ins.len() > 0 {
        lemma_input_sum_remove(s, j, ins.drop_last());
        lemma_val_of_remove(s, j, ins.last().previous_output);
    }
}

/// Removing a row preserves outpoint uniqueness.
pub(crate) proof fn lemma_unique_remove(s: Seq<LocalOutput>, j: int)
    requires
        unique_outpoints(s),
        0 <= j < s.len(),
    ensures
        unique_outpoints(s.remove(j)),
{
    let s2 = s.remove(j);
    assert forall|x: int, y: int| 0 <= x < y < s2.len() implies (#[trigger] s2[x]).outpoint != (
    #[trigger] s2[y]).outpoint by {
        let xo = if x < j {
            x
        } else {
            x + 1
        };
        let yo = if y < j {
            y
        } else {
            y + 1
        };
        assert(s2[x] == s[xo]);
        assert(s2[y] == s[yo]);
    }
}

/// Distinct inputs drawing on a set of rows with unique outpoints can never
/// sum to more than the rows hold in total.
pub proof fn lemma_input_sum_bound(s: Seq<LocalOutput>, ins: Seq<TxIn>)
    requires
        unique_outpoints(s),
        distinct_inputs(ins),
    ensures
        0 <= sum_input_values(s, ins),
        sum_input_values(s, ins) <= sum_values(s),
    decreases ins.len(),
{
    lemma_sum_values_nonneg(s);
    if ins.len() > 0 {
        let rest = ins.drop_last();
        let op = ins.last().previous_output;
        assert(distinct_inputs(rest));
        if has_op(s, op) {
            let j = choose|i: int| 0 <= i < s.len() && (#[trigger] s[i]).outpoint == op;
            assert(val_of(s, op) == s[j].value as int);
            let s2 = s.remove(j);
            lemma_unique_remove(s, j);
            lemma_sum_values_remove(s, j);
            assert forall|i: int|
                0 <= i < rest.len() implies (#[trigger] rest[i]).previous_output
                != s[j].outpoint by {
                assert(ins[i] == rest[i]);
                assert(ins[ins.len() - 1].previous_output == op);
            }
            lemma_input_sum_remove(s, j, rest);
            lemma_input_sum_bound(s2, rest);
        } else {
            lemma_input_sum_bound(s, rest);
            assert(val_of(s, op) == 0);
        }
    }
}

/// Satoshis paid by a transaction to scripts this wallet owns.
pub open spec fn sum_received(w: Wallet, outs: Seq<TxOut>) -> int
    decreases outs.len(),
{
    if outs.len() == 0 {
        0
    } else {
        sum_received(w, outs.drop_last()) + if w.owns(outs.last().script_pubkey@) {
            outs.last().value as int
        } else {
            0
        }
    }
}

/// The received sum lies between zero and the transaction's output total.
proof fn lemma_sum_received_bound(w: Wallet, outs: Seq<TxOut>)
    ensures
        0 <= sum_received(w, outs),
        sum_received(w, outs) <= sum_txout_values(outs),
    decreases outs.len(),
{
    if outs.len() > 0 {
        lemma_sum_received_bound(w, outs.drop_last());
    }
}

impl Wallet {
    /// The fee paid by a transaction: the sum of the values of its inputs,
    /// looked up in the output set, minus the sum of its output values.
    /// Fails with `MissingTxOut` when an input is unknown to this wallet and
    /// with `NegativeFee` when the inputs are worth less than the outputs.
    pub fn calculate_fee(&self, tx: &Transaction) -> (r: Result<u64, CalculateFeeError>)
        requires
            self.wf(),
            tx_wf(*tx),
        ensures
            r == Err::<u64, _>(CalculateFeeError::MissingTxOut) <==> !inputs_known(
                self.outputs@,
                tx.inputs@,
            ),
            r == Err::<u64, _>(CalculateFeeError::NegativeFee) <==> inputs_known(
                self.outputs@,
                tx.inputs@,
            ) && sum_input_values(self.outputs@, tx.inputs@) < sum_txout_values(tx.outputs@),
            r matches Ok(f) ==> inputs_known(self.outputs@, tx.inputs@) && f
                == sum_input_values(self.outputs@, tx.inputs@) - sum_txout_values(tx.outputs@),
            r is Ok <==> inputs_known(self.outputs@, tx.inputs@) && sum_input_values(
                self.outputs@,
                tx.inputs@,
            ) >= sum_txout_values(tx.outputs@),
    {
        let ghost outs = self.outputs@;
        let ghost ins = tx.inputs@;
        let mut sum_in: u64 = 0;
        let mut i: usize = 0;
        while i < tx.inputs.len()
            invariant
                self.wf(),
                tx_wf(*tx),
                outs == self.outputs@,
                ins == tx.inputs@,
                0 <= i <= ins.len(),
                sum_in as int == sum_input_values(outs, ins.take(i as int)),
                inputs_known(outs, ins.take(i as int)),
                sum_in <= MAX_MONEY,
            decreases ins.len() - i,
        {
            let ghost prefix = ins.take(i as int);
            let ghost prefix1 = ins.take(i + 1);
            proof {
                assert(prefix1.drop_last() =~= prefix);
                assert(prefix1.last() == ins[i as int]);
                assert(distinct_inputs(prefix1)) by {
                    assert forall|x: int, y: int|
                        0 <= x < y < prefix1.len() implies (#[trigger] prefix1[x]).previous_output
                        != (#[trigger] prefix1[y]).previous_output by {
                        assert(prefix1[x] == ins[x]);
                        assert(prefix1[y] == ins[y]);
                    }
                }
                lemma_input_sum_bound(outs, prefix1);
            }
            match find_output_index(&self.outputs, tx.inputs[i].previous_output) {
                Some(j) => {
                    proof {
                        let op = ins[i as int].previous_output;
                        let c = choose|k: int|
                            0 <= k < outs.len() && (#[trigger] outs[k]).outpoint == op;
                        assert(outs[j as int].outpoint == op);
                        if c != j as int {
                            assert(false);
                        }
                    }
                    sum_in = sum_in + self.outputs[j].value;
                },
                None => {
                    proof {
                        assert(!has_op(outs, ins[i as int].previous_output));
                    }
                    return Err(CalculateFeeError::MissingTxOut);
                },
            }
            i += 1;
        }
        proof {
            assert(ins.take(ins.len() as int) =~= ins);
        }
        let mut sum_out: u64 = 0;
        let mut k: usize = 0;
        while k < tx.outputs.len()
            invariant
                tx_wf(*tx),
                0 <= k <= tx.outputs@.len(),
                sum_out as int == sum_txout_values(tx.outputs@.take(k as int)),
                sum_out <= MAX_MONEY,
            decreases tx.outputs@.len() - k,
        {
            proof {
                assert(tx.outputs@.take(k + 1).drop_last() =~= tx.outputs@.take(k as int));
                assert(tx.outputs@.take(k + 1).last() == tx.outputs@[k as int]);
                lemma_sum_txout_take_bound(tx.outputs@, k + 1);
                lemma_sum_txout_nonneg(tx.outputs@.take(k + 1));
            }
            sum_out = sum_out + tx.outputs[k].value;
            k += 1;
        }
        proof {
            assert(tx.outputs@.take(tx.outputs@.len() as int) =~= tx.outputs@);
        }
        if sum_in < sum_out {
            Err(CalculateFeeError::NegativeFee)
        } else {
            Ok(sum_in - sum_out)
        }
    }

    /// The fee rate of a transaction: its fee divided by its weight, in
    /// satoshis per thousand weight units, rounded down.
    pub fn calculate_fee_rate(&self, tx: &Transaction) -> (r: Result<FeeRate, CalculateFeeError>)
        requires
            self.wf(),
            tx_wf(*tx),
        ensures
            r is Ok <==> inputs_known(self.outputs@, tx.inputs@) && sum_input_values(
                self.outputs@,
                tx.inputs@,
            ) >= sum_txout_values(tx.outputs@),
            r matches Ok(fr) ==> fr.sat_per_kwu as int == (sum_input_values(
                self.outputs@,
                tx.inputs@,
            ) - sum_txout_values(tx.outputs@)) * 1000 / (tx.weight as int),
            r matches Err(e) ==> Err::<u64, _>(e) == {
                if !inputs_known(self.outputs@, tx.inputs@) {
                    Err::<u64, CalculateFeeError>(CalculateFeeError::MissingTxOut)
                } else {
                    Err::<u64, CalculateFeeError>(CalculateFeeError::NegativeFee)
                }
            },
    {
        let fee = match self.calculate_fee(tx) {
            Ok(f) => f,
            Err(e) => {
                return Err(e);
            },
        };
        proof {
            lemma_input_sum_bound(self.outputs@, tx.inputs@);
            lemma_sum_txout_nonneg(tx.outputs@);
        }
        Ok(FeeRate { sat_per_kwu: (fee * 1000) / tx.weight })
    }

    /// The satoshis a transaction takes from this wallet (inputs consuming
    /// known outputs) and pays to it (outputs locking to owned scripts).
    pub fn sent_and_received(&self, tx: &Transaction) -> (r: SentAndReceivedValues)
        requires
            self.wf(),
            tx_wf(*tx),
        ensures
            r.sent == sum_input_values(self.outputs@, tx.inputs@),
            r.received == sum_received(*self, tx.outputs@),
    {
        let ghost outs = self.outputs@;
        let ghost ins = tx.inputs@;
        let mut sent: u64 = 0;
        let mut i: usize = 0;
        while i < tx.inputs.len()
            invariant
                self.wf(),
                tx_wf(*tx),
                outs == self.outputs@,
                ins == tx.inputs@,
                0 <= i <= ins.len(),
                sent as int == sum_input_values(outs, ins.take(i as int)),
                sent <= MAX_MONEY,
            decreases ins.len() - i,
        {
            let ghost prefix1 = ins.take(i + 1);
            proof {
                assert(prefix1.drop_last() =~= ins.take(i as int));
                assert(prefix1.last() == ins[i as int]);
                assert(distinct_inputs(prefix1)) by {
                    assert forall|x: int, y: int|
                        0 <= x < y < prefix1.len() implies (#[trigger] prefix1[x]).previous_output
                        != (#[trigger] prefix1[y]).previous_output by {
                        assert(prefix1[x] == ins[x]);
                        assert(prefix1[y] == ins[y]);
                    }
                }
                lemma_input_sum_bound(outs, prefix1);
            }
            match find_output_index(&self.outputs, tx.inputs[i].previous_output) {
                Some(j) => {
                    proof {
                        let op = ins[i as int].previous_output;
                        let c = choose|k: int|
                            0 <= k < outs.len() && (#[trigger] outs[k]).outpoint == op;
                        assert(outs[j as int].outpoint == op);
                        if c != j as int {
                            assert(false);
                        }
                    }
                    sent = sent + self.outputs[j].value;
                },
                None => {
                    proof {
                        assert(val_of(outs, ins[i as int].previous_output) == 0);
                    }
                },
            }
            i += 1;
        }
        let mut received: u64 = 0;
        let mut k: usize = 0;
        while k < tx.outputs.len()
            invariant
                self.wf(),
                tx_wf(*tx),
                0 <= k <= tx.outputs@.len(),
                received as int == sum_received(*self, tx.outputs@.take(k as int)),
                received <= MAX_MONEY,
            decreases tx.outputs@.len() - k,
        {
            proof {
                assert(tx.outputs@.take(k + 1).drop_last() =~= tx.outputs@.take(k as int));
                assert(tx.outputs@.take(k + 1).last() == tx.outputs@[k as int]);
                lemma_sum_received_bound(*self, tx.outputs@.take(k + 1));
                lemma_sum_txout_take_bound(tx.outputs@, k + 1);
            }
            if self.is_mine(&tx.outputs[k].script_pubkey) {
                received = received + tx.outputs[k].value;
            }
            k += 1;
        }
        proof {
            assert(ins.take(ins.len() as int) =~= ins);
            assert(tx.outputs@.take(tx.outputs@.len() as int) =~= tx.outputs@);
        }
        SentAndReceivedValues { sent, received }
    }

    /// A fresh snapshot of every transaction known to the wallet.
    pub fn transactions(&self) -> (r: Vec<CanonicalTx>)
        ensures
            ctxs_eqv(r@, self.txs@),
    {
        copy_ctxs(&self.txs)
    }

    /// A fresh snapshot of the whole output history, spent rows included.
    pub fn list_output(&self) -> (r: Vec<LocalOutput>)
        ensures
            outs_eqv(r@, self.outputs@),
    {
        copy_outputs(&self.outputs)
    }

    /// A fresh snapshot of the unspent rows only.
    pub fn list_unspent(&self) -> (r: Vec<LocalOutput>)
        ensures
            outs_eqv(r@, unspent_of(self.outputs@)),
    {
        let mut r: Vec<LocalOutput> = Vec::new();
        let mut i: usize = 0;
        while i < self.outputs.len()
            invariant
                0 <= i <= self.outputs@.len(),
                outs_eqv(r@, unspent_of(self.outputs@.take(i as int))),
            decreases self.outputs@.len() - i,
        {
            proof {
                assert(self.outputs@.take(i + 1).drop_last() =~= self.outputs@.take(i as int));
                assert(self.outputs@.take(i + 1).last() == self.outputs@[i as int]);
            }
            if !self.outputs[i].is_spent {
                r.push(copy_output(&self.outputs[i]));
            }
            i += 1;
        }
        proof {
            assert(self.outputs@.take(self.outputs@.len() as int) =~= self.outputs@);
        }
        r
    }
}

/// The subsequence of rows not yet spent, in order.
pub open spec fn unspent_of(s: Seq<LocalOutput>) -> Seq<LocalOutput>
    decreases s.len(),
{
    if s.len() == 0 {
        Seq::empty()
    } else if !s.last().is_spent {
        unspent_of(s.drop_last()).push(s.last())
    } else {
        unspent_of(s.drop_last())
    }
}

/// A byte is an ASCII hexadecimal digit.
pub open spec fn is_hex_digit(b: u8) -> bool {
    (48 <= b <= 57) || (97 <= b <= 102) || (65 <= b <= 70)
}

/// The numeric value of an ASCII hexadecimal digit.
pub open spec fn hex_val(b: u8) -> int {
    if 48 <= b <= 57 {
        b - 48
    } else if 97 <= b <= 102 {
        b - 87
    } else if 65 <= b <= 70 {
        b - 55
    } else {
        0
    }
}

/// The number denoted by a big-endian string of hexadecimal digits.
pub open spec fn hex_word(bs: Seq<u8>) -> int
    decreases bs.len(),
{
    if bs.len() == 0 {
        0
    } else {
        hex_word(bs.drop_last()) * 16 + hex_val(bs.last())
    }
}

/// Sixteen to the given power.
pub open spec fn pow16(n: nat) -> int
    decreases n,
{
    if n == 0 {
        1
    } else {
        16 * pow16((n - 1) as nat)
    }
}

/// A hexadecimal string of n digits denotes a number below sixteen to the n.
proof fn lemma_hex_word_bound(bs: Seq<u8>)
    ensures
        0 <= hex_word(bs) < pow16(bs.len()),
    decreases bs.len(),
{
    if bs.len() > 0 {
        lemma_hex_word_bound(bs.drop_last());
    }
}

/// Powers of sixteen do not decrease.
proof fn lemma_pow16_mono(a: nat, b: nat)
    requires
        a <= b,
    ensures
        pow16(a) <= pow16(b),
    decreases b,
{
    if a < b {
        lemma_pow16_mono(a, (b - 1) as nat);
        lemma_hex_word_bound(Seq::<u8>::empty());
        assert(pow16((b - 1) as nat) >= 1) by {
            lemma_pow16_pos((b - 1) as nat);
        }
    }
}

/// Powers of sixteen are positive.
proof fn lemma_pow16_pos(n: nat)
    ensures
        pow16(n) >= 1,
    decreases n,
{
    if n > 0 {
        lemma_pow16_pos((n - 1) as nat);
    }
}

/// A valid transaction-id string: exactly sixty-four hexadecimal digits.
pub open spec fn valid_hex(bs: Seq<u8>) -> bool {
    bs.len() == 64 && forall|i: int| 0 <= i < 64 ==> is_hex_digit(#[trigger] bs[i])
}

/// The identifier denoted by a sixty-four digit hexadecimal string, read as
/// four big-endian sixteen-digit words.
pub open spec fn txid_of_hex(bs: Seq<u8>) -> Txid {
    Txid {
        w0: hex_word(bs.subrange(0, 16)) as u64,
        w1: hex_word(bs.subrange(16, 32)) as u64,
        w2: hex_word(bs.subrange(32, 48)) as u64,
        w3: hex_word(bs.subrange(48, 64)) as u64,
    }
}

/// The numeric value of one hexadecimal digit byte, if it is one.
fn hex_digit(b: u8) -> (r: Option<u8>)
    ensures
        match r {
            Some(v) => is_hex_digit(b) && v as int == hex_val(b) && v < 16,
            None => !is_hex_digit(b),
        },
{
    if 48 <= b && b <= 57 {
        Some(b - 48)
    } else if 97 <= b && b <= 102 {
        Some(b - 87)
    } else if 65 <= b && b <= 70 {
        Some(b - 55)
    } else {
        None
    }
}

/// Parse sixteen hexadecimal digits starting at `start` as one word.
fn parse_hex_word(bs: &[u8], start: usize) -> (r: Option<u64>)
    requires
        start + 16 <= bs@.len(),
    ensures
        match r {
            Some(w) => (forall|k: int| start <= k < start + 16 ==> is_hex_digit(#[trigger] bs@[k]))
                && w as int == hex_word(bs@.subrange(start as int, start as int + 16)),
            None => !(forall|k: int|
                start <= k < start + 16 ==> is_hex_digit(#[trigger] bs@[k])),
        },
{
    let n: usize = bs.len();
    let mut w: u64 = 0;
    let mut k: usize = 0;
    while k < 16
        invariant
            start + 16 <= bs@.len(),
            n == bs@.len(),
            0 <= k <= 16,
            forall|x: int| start <= x < start + k ==> is_hex_digit(#[trigger] bs@[x]),
            w as int == hex_word(bs@.subrange(start as int, start as int + k)),
            (w as int) < pow16(k as nat),
        decreases 16 - k,
    {
        let b = *slice_index_get(bs, start + k);
        let d = match hex_digit(b) {
            Some(d) => d,
            None => {
                return None;
            },
        };
        proof {
            let sub1 = bs@.subrange(start as int, start as int + k + 1);
            assert(sub1.drop_last() =~= bs@.subrange(start as int, start as int + k));
            assert(sub1.last() == bs@[start as int + k]);
            lemma_pow16_mono((k + 1) as nat, 16nat);
            assert(pow16(16nat) == 0x10000000000000000) by {
                reveal_with_fuel(pow16, 17);
            }
        }
        w = w * 16 + (d as u64);
        k += 1;
    }
    Some(w)
}

impl Wallet {
    /// Look a transaction up by the hexadecimal form of its identifier.
    /// Fails only when the string is not sixty-four hexadecimal digits.
    pub fn get_tx(&self, txid: &str) -> (r: Result<Option<CanonicalTx>, TxidParseError>)
        requires
            self.wf(),
        ensures
            r is Err <==> !valid_hex(txid.spec_bytes()),
            r is Err ==> r == Err::<Option<CanonicalTx>, _>(TxidParseError::InvalidTxid),
            r matches Ok(o) ==> match o {
                Some(c) => exists|i: int|
                    0 <= i < self.txs@.len() && (#[trigger] self.txs@[i]).transaction.txid
                        == txid_of_hex(txid.spec_bytes()) && ctx_eqv(c, self.txs@[i]),
                None => !has_txid(self.txs@, txid_of_hex(txid.spec_bytes())),
            },
    {
        let bs = txid.as_bytes();
        if bs.len() != 64 {
            return Err(TxidParseError::InvalidTxid);
        }
        let w0 = parse_hex_word(bs, 0);
        let w1 = parse_hex_word(bs, 16);
        let w2 = parse_hex_word(bs, 32);
        let w3 = parse_hex_word(bs, 48);
        let t = match (w0, w1, w2, w3) {
            (Some(a), Some(b), Some(c), Some(d)) => {
                proof {
                    lemma_hex_word_bound(bs@.subrange(0, 16));
                    lemma_hex_word_bound(bs@.subrange(16, 32));
                    lemma_hex_word_bound(bs@.subrange(32, 48));
                    lemma_hex_word_bound(bs@.subrange(48, 64));
                }
                Txid { w0: a, w1: b, w2: c, w3: d }
            },
            _ => {
                return Err(TxidParseError::InvalidTxid);
            },
        };
        proof {
            assert(valid_hex(txid.spec_bytes()));
            assert(t == txid_of_hex(txid.spec_bytes()));
        }
        let mut i: usize = 0;
        while i < self.txs.len()
            invariant
                self.wf(),
                0 <= i <= self.txs@.len(),
                valid_hex(txid.spec_bytes()),
                t == txid_of_hex(txid.spec_bytes()),
                forall|k: int| 0 <= k < i ==> (#[trigger] self.txs@[k]).transaction.txid != t,
            decreases self.txs@.len() - i,
        {
            if self.txs[i].transaction.txid == t {
                return Ok(Some(copy_ctx(&self.txs[i])));
            }
            i += 1;
        }
        Ok(None)
    }

    /// The targets of a full chain scan: the two descriptors themselves.
    pub fn start_full_scan(&self) -> (r: FullScanRequest)
        ensures
            r.descriptor@ == self.descriptor@,
            r.change_descriptor@ == self.change_descriptor@,
    {
        FullScanRequest {
            descriptor: copy_bytes(&self.descriptor),
            change_descriptor: copy_bytes(&self.change_descriptor),
        }
    }

    /// The targets of an incremental sync: every script revealed so far,
    /// external keychain first.
    pub fn start_sync_with_revealed_spks(&self) -> (r: SyncRequest)
        ensures
            scriptvecs_eqv(r.scripts@, self.external_scripts@ + self.internal_scripts@),
    {
        let ghost whole = self.external_scripts@ + self.internal_scripts@;
        let mut scripts: Vec<Vec<u8>> = Vec::new();
        let mut i: usize = 0;
        while i < self.external_scripts.len()
            invariant
                0 <= i <= self.external_scripts@.len(),
                scripts@.len() == i,
                forall|k: int|
                    0 <= k < i ==> (#[trigger] scripts@[k])@ == self.external_scripts@[k]@,
            decreases self.external_scripts@.len() - i,
        {
            scripts.push(copy_bytes(&self.external_scripts[i]));
            i += 1;
        }
        let ghost n = self.external_scripts@.len();
        let mut j: usize = 0;
        while j < self.internal_scripts.len()
            invariant
                0 <= j <= self.internal_scripts@.len(),
                n == self.external_scripts@.len(),
                scripts@.len() == n + j,
                forall|k: int|
                    0 <= k < n ==> (#[trigger] scripts@[k])@ == self.external_scripts@[k]@,
                forall|k: int|
                    0 <= k < j ==> (#[trigger] scripts@[n + k])@ == self.internal_scripts@[k]@,
            decreases self.internal_scripts@.len() - j,
        {
            scripts.push(copy_bytes(&self.internal_scripts[j]));
            j += 1;
        }
        proof {
            assert forall|k: int| 0 <= k < whole.len() implies (#[trigger] scripts@[k])@
                == whole[k]@ by {
                if k >= n {
                    let m = k - n;
                    assert(whole[k] == self.internal_scripts@[m]);
                    assert((scripts@[n + m])@ == self.internal_scripts@[m]@);
                }
            }
        }
        SyncRequest { scripts }
    }

    /// Flush all changes since the last persist as one appended changeset.
    /// Returns whether anything was written; persisting twice with no
    /// intervening mutation writes nothing the second time.
    pub fn persist(&mut self, connection: &mut Connection) -> (r: bool)
        requires
            old(self).wf(),
        ensures
            r == old(self).dirty,
            *final(self) == (Wallet { dirty: false, ..*old(self) }),
            !old(self).dirty ==> *final(connection) == *old(connection),
            old(self).dirty ==> {
                &&& final(connection).changesets@.len() == old(connection).changesets@.len() + 1
                &&& forall|k: int|
                    0 <= k < old(connection).changesets@.len()
                        ==> final(connection).changesets@[k] == old(connection).changesets@[k]
                &&& cs_matches(final(connection).changesets@.last(), *old(self))
                &&& cs_wf(final(connection).changesets@.last())
            },
    {
        if !self.dirty {
            return false;
        }
        let cs = self.snapshot();
        connection.changesets.push(cs);
        self.dirty = false;
        true
    }
}

/// The request produced for a full chain scan.
#[derive(Clone, Debug)]
pub struct FullScanRequest {
    pub descriptor: Vec<u8>,
    pub change_descriptor: Vec<u8>,
}

/// The request produced for an incremental sync over revealed scripts.
#[derive(Clone, Debug)]
pub struct SyncRequest {
    pub scripts: Vec<Vec<u8>>,
}

/// A changeset that can rehydrate a well-formed wallet.
pub open spec fn cs_wf(cs: ChangeSet) -> bool {
    &&& descriptors_accepted(cs.descriptor@, cs.change_descriptor@, cs.network.code())
    &&& cs.next_external_index <= 0x8000_0000u32
    &&& cs.next_internal_index <= 0x8000_0000u32
    &&& unique_outpoints(cs.outputs@)
    &&& unique_txids(cs.txs@)
    &&& sum_values(cs.outputs@) <= MAX_MONEY
}

/// Check that no two rows reference the same outpoint.
fn outputs_unique_check(v: &Vec<LocalOutput>) -> (r: bool)
    ensures
        r == unique_outpoints(v@),
{
    let mut i: usize = 0;
    while i < v.len()
        invariant
            0 <= i <= v@.len(),
            forall|x: int, y: int|
                0 <= x < y < i ==> (#[trigger] v@[x]).outpoint != (#[trigger] v@[y]).outpoint,
        decreases v@.len() - i,
    {
        let mut j: usize = 0;
        while j < i
            invariant
                0 <= j <= i < v@.len(),
                forall|x: int| 0 <= x < j ==> (#[trigger] v@[x]).outpoint != v@[i as int].outpoint,
            decreases i - j,
        {
            if v[j].outpoint == v[i].outpoint {
                return false;
            }
            j += 1;
        }
        i += 1;
    }
    true
}

/// Check that no two transactions share an identifier.
fn txids_unique_check(v: &Vec<CanonicalTx>) -> (r: bool)
    ensures
        r == unique_txids(v@),
{
    let mut i: usize = 0;
    while i < v.len()
        invariant
            0 <= i <= v@.len(),
            forall|x: int, y: int|
                0 <= x < y < i ==> (#[trigger] v@[x]).transaction.txid != (
                #[trigger] v@[y]).transaction.txid,
        decreases v@.len() - i,
    {
        let mut j: usize = 0;
        while j < i
            invariant
                0 <= j <= i < v@.len(),
                forall|x: int|
                    0 <= x < j ==> (#[trigger] v@[x]).transaction.txid
                        != v@[i as int].transaction.txid,
            decreases i - j,
        {
            if v[j].transaction.txid == v[i].transaction.txid {
                return false;
            }
            j += 1;
        }
        i += 1;
    }
    true
}

/// Check that the rows' total value stays within the money supply.
fn total_within_supply(v: &Vec<LocalOutput>) -> (r: bool)
    ensures
        r == (sum_values(v@) <= MAX_MONEY),
{
    let mut acc: u128 = 0;
    let mut i: usize = 0;
    while i < v.len()
        invariant
            0 <= i <= v@.len(),
            acc as int == sum_values(v@.take(i as int)),
            acc <= MAX_MONEY as u128,
        decreases v@.len() - i,
    {
        proof {
            assert(v@.take(i + 1).drop_last() =~= v@.take(i as int));
            assert(v@.take(i + 1).last() == v@[i as int]);
        }
        acc = acc + (v[i].value as u128);
        if acc > MAX_MONEY as u128 {
            proof {
                lemma_sum_values_take_bound(v@, i + 1);
            }
            return false;
        }
        i += 1;
    }
    proof {
        assert(v@.take(v@.len() as int) =~= v@);
    }
    true
}

/// A wallet whose fields carry exactly what a changeset recorded.
pub open spec fn loaded_from(w: Wallet, cs: ChangeSet) -> bool {
    &&& w.descriptor@ == cs.descriptor@
    &&& w.change_descriptor@ == cs.change_descriptor@
    &&& w.network == cs.network
    &&& w.next_external_index == cs.next_external_index
    &&& w.next_internal_index == cs.next_internal_index
    &&& outs_eqv(w.outputs@, cs.outputs@)
    &&& ctxs_eqv(w.txs@, cs.txs@)
    &&& w.tip == cs.tip
}

impl Wallet {
    /// Rehydrate a wallet from the store's most recent changeset. Fails
    /// with `NotFound` on an empty store, `Corrupt` when the record cannot
    /// rehydrate a well-formed wallet, and `Mismatch` when the supplied
    /// descriptors differ from the persisted ones.
    pub fn load(
        descriptor: &str,
        change_descriptor: &str,
        connection: &Connection,
    ) -> (r: Result<Wallet, LoadWithPersistError>)
        ensures
            (connection.changesets@.len() == 0) <==> r == Err::<Wallet, _>(
                LoadWithPersistError::NotFound,
            ),
            (connection.changesets@.len() > 0 && !cs_wf(connection.changesets@.last())) <==> r
                == Err::<Wallet, _>(LoadWithPersistError::Corrupt),
            (connection.changesets@.len() > 0 && cs_wf(connection.changesets@.last()) && !(
            connection.changesets@.last().descriptor@ == descriptor.spec_bytes()
                && connection.changesets@.last().change_descriptor@
                == change_descriptor.spec_bytes())) <==> r == Err::<Wallet, _>(
                LoadWithPersistError::Mismatch,
            ),
            r matches Ok(w) ==> {
                &&& connection.changesets@.len() > 0
                &&& cs_wf(connection.changesets@.last())
                &&& loaded_from(w, connection.changesets@.last())
                &&& w.wf()
                &&& !w.dirty
            },
    {
        let n = connection.changesets.len();
        if n == 0 {
            return Err(LoadWithPersistError::NotFound);
        }
        let cs = &connection.changesets[n - 1];
        if !check_descriptors(&cs.descriptor, &cs.change_descriptor, cs.network) {
            return Err(LoadWithPersistError::Corrupt);
        }
        if cs.next_external_index > 0x8000_0000 || cs.next_internal_index > 0x8000_0000 {
            return Err(LoadWithPersistError::Corrupt);
        }
        if !outputs_unique_check(&cs.outputs) {
            return Err(LoadWithPersistError::Corrupt);
        }
        if !txids_unique_check(&cs.txs) {
            return Err(LoadWithPersistError::Corrupt);
        }
        if !total_within_supply(&cs.outputs) {
            return Err(LoadWithPersistError::Corrupt);
        }
        let dvec = slice_to_vec(descriptor.as_bytes());
        let cvec = slice_to_vec(change_descriptor.as_bytes());
        if !bytes_eq(&cs.descriptor, &dvec) || !bytes_eq(&cs.change_descriptor, &cvec) {
            return Err(LoadWithPersistError::Mismatch);
        }
        let mut external_scripts: Vec<Vec<u8>> = Vec::new();
        let mut i: u32 = 0;
        while i < cs.next_external_index
            invariant
                cs == &connection.changesets@.last(),
                cs.next_external_index <= 0x8000_0000u32,
                0 <= i <= cs.next_external_index,
                external_scripts@.len() == i,
                forall|k: int|
                    0 <= k < i ==> (#[trigger] external_scripts@[k])@ == script_at(
                        cs.descriptor@,
                        k,
                    ),
            decreases cs.next_external_index - i,
        {
            external_scripts.push(derive_script(&cs.descriptor, i));
            i += 1;
        }
        let mut internal_scripts: Vec<Vec<u8>> = Vec::new();
        let mut j: u32 = 0;
        while j < cs.next_internal_index
            invariant
                cs == &connection.changesets@.last(),
                cs.next_internal_index <= 0x8000_0000u32,
                0 <= j <= cs.next_internal_index,
                internal_scripts@.len() == j,
                forall|k: int|
                    0 <= k < j ==> (#[trigger] internal_scripts@[k])@ == script_at(
                        cs.change_descriptor@,
                        k,
                    ),
            decreases cs.next_internal_index - j,
        {
            internal_scripts.push(derive_script(&cs.change_descriptor, j));
            j += 1;
        }
        let outputs = copy_outputs(&cs.outputs);
        let txs = copy_ctxs(&cs.txs);
        let w = Wallet {
            descriptor: copy_bytes(&cs.descriptor),
            change_descriptor: copy_bytes(&cs.change_descriptor),
            network: cs.network,
            next_external_index: cs.next_external_index,
            next_internal_index: cs.next_internal_index,
            external_scripts,
            internal_scripts,
            outputs,
            txs,
            tip: cs.tip,
            dirty: false,
        };
        proof {
            assert forall|x: int, y: int|
                0 <= x < y < w.outputs@.len() implies (#[trigger] w.outputs@[x]).outpoint != (
            #[trigger] w.outputs@[y]).outpoint by {
                assert(out_eqv(w.outputs@[x], cs.outputs@[x]));
                assert(out_eqv(w.outputs@[y], cs.outputs@[y]));
            }
            assert forall|x: int, y: int|
                0 <= x < y < w.txs@.len() implies (#[trigger] w.txs@[x]).transaction.txid != (
            #[trigger] w.txs@[y]).transaction.txid by {
                assert(ctx_eqv(w.txs@[x], cs.txs@[x]));
                assert(ctx_eqv(w.txs@[y], cs.txs@[y]));
            }
            lemma_sum_values_same_skeleton(w.outputs@, cs.outputs@);
        }
        Ok(w)
    }
}

/// A changeset records exactly the given wallet state.
pub open spec fn cs_matches(cs: ChangeSet, w: Wallet) -> bool {
    &&& cs.descriptor@ == w.descriptor@
    &&& cs.change_descriptor@ == w.change_descriptor@
    &&& cs.network == w.network
    &&& cs.next_external_index == w.next_external_index
    &&& cs.next_internal_index == w.next_internal_index
    &&& outs_eqv(cs.outputs@, w.outputs@)
    &&& ctxs_eqv(cs.txs@, w.txs@)
    &&& cs.tip == w.tip
}

} // verus!
