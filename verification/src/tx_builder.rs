//! The transaction builder: a pure intent object accumulated by value, and
//! the `finish` step that selects coins, resolves the fee, routes spare
//! value and sets replacement signaling against a borrowed wallet.

use vstd::prelude::*;

use crate::errors::CreateTxError;
use crate::types::{
    copy_bytes, sum_amounts, sum_txout_values, sum_values, FeeRate, KeychainKind, LocalOutput,
    OutPoint, ScriptAmount, TxIn, TxOut, DUST_LIMIT, MAX_MONEY, SEQUENCE_FINAL, SEQUENCE_RBF,
};
use crate::wallet::{
    derive_script, distinct_inputs, find_output_index, has_op, lemma_sum_values_remove,
    lemma_unique_remove, lemma_val_of_remove, script_at, sum_input_values, unique_outpoints,
    val_of, Wallet,
};

verus! {

/// Default fee rate when the builder sets none: one satoshi per virtual
/// byte, expressed per thousand weight units.
pub const DEFAULT_FEE_RATE: u64 = 250;

/// Weight units a transaction contributes independently of its inputs and
/// outputs, in the engine's estimation formula.
pub const WEIGHT_BASE: u64 = 40;

/// Estimated weight units per input.
pub const WEIGHT_PER_INPUT: u64 = 272;

/// Estimated weight units per output.
pub const WEIGHT_PER_OUTPUT: u64 = 124;

/// How automatic selection may treat change (internal-keychain) outputs.
#[derive(Clone, Copy, PartialEq, Eq, Structural, Debug)]
pub enum ChangeSpendPolicy {
    /// Spend change and external outputs alike.
    ChangeAllowed,
    /// Spend only change outputs.
    OnlyChange,
    /// Never spend change outputs.
    ChangeForbidden,
}

/// Replacement signaling: the library-defined replaceable sequence, or an
/// explicit thirty-two bit value used verbatim.
#[derive(Clone, Copy, PartialEq, Eq, Structural, Debug)]
pub enum RbfValue {
    Default,
    Value(u32),
}

/// An unsigned transaction artifact, bound for a signer: inputs with their
/// sequence numbers, outputs, and the fee it pays.
#[derive(Clone, Debug)]
pub struct UnsignedTx {
    pub inputs: Vec<TxIn>,
    pub outputs: Vec<TxOut>,
    /// Fee in satoshis: input value not reproduced by any output.
    pub fee: u64,
}

/// The builder: a value object accumulating recipients, selection
/// constraints, fee intent, drain intent and replacement intent. Every
/// mutator consumes the builder and returns a new value.
#[derive(Clone, Debug)]
pub struct TxBuilder {
    pub recipients: Vec<ScriptAmount>,
    /// Outpoints that must be spent by the transaction.
    pub utxos: Vec<OutPoint>,
    /// Outpoints automatic selection must never touch.
    pub unspendable: Vec<OutPoint>,
    pub change_policy: ChangeSpendPolicy,
    /// Use exactly the explicit inclusion set, no automatic selection.
    pub manually_selected_only: bool,
    pub fee_rate: Option<FeeRate>,
    pub fee_absolute: Option<u64>,
    /// Select every eligible output, not just enough to cover.
    pub drain_wallet: bool,
    /// Route all spare value to this script instead of a change address.
    pub drain_to: Option<Vec<u8>>,
    pub rbf: Option<RbfValue>,
}

/// The sequence number every input of the built transaction carries.
pub open spec fn sequence_of(rbf: Option<RbfValue>) -> u32 {
    match rbf {
        None => SEQUENCE_FINAL,
        Some(RbfValue::Default) => SEQUENCE_RBF,
        Some(RbfValue::Value(n)) => n,
    }
}

/// The engine's weight estimate for a transaction shape: a base cost plus
/// a fixed cost per input and per output. Monotone in both counts.
pub open spec fn weight_units(n_in: int, n_out: int) -> int {
    WEIGHT_BASE + WEIGHT_PER_INPUT * n_in + WEIGHT_PER_OUTPUT * n_out
}

/// The fee the builder's fee intent resolves to for a transaction shape:
/// an absolute fee verbatim; a rate times the estimated weight, rounded up
/// so the realized rate is never below the requested one; the default rate
/// when no intent was set.
pub open spec fn resolved_fee(b: TxBuilder, n_in: int, n_out: int) -> int {
    match b.fee_absolute {
        Some(a) => a as int,
        None => {
            let rate = (match b.fee_rate {
                Some(fr) => fr.sat_per_kwu,
                None => DEFAULT_FEE_RATE,
            }) as int;
            (rate * weight_units(n_in, n_out) + 999) / 1000
        },
    }
}

/// The resolved fee is never negative.
pub proof fn lemma_resolved_fee_nonneg(b: TxBuilder, n_in: int, n_out: int)
    requires
        n_in >= 0,
        n_out >= 0,
    ensures
        resolved_fee(b, n_in, n_out) >= 0,
{
    match b.fee_absolute {
        Some(_) => {},
        None => {
            let rate = (match b.fee_rate {
                Some(fr) => fr.sat_per_kwu,
                None => DEFAULT_FEE_RATE,
            }) as int;
            assert(rate * weight_units(n_in, n_out) >= 0) by (nonlinear_arith)
                requires
                    rate >= 0,
                    weight_units(n_in, n_out) >= 0,
            ;
        },
    }
}

impl TxBuilder {
    /// A builder with no intent yet: no recipients, no constraints, change
    /// allowed, automatic selection, default fee, no drain, no replacement
    /// signaling.
    pub fn new() -> (r: TxBuilder)
        ensures
            r.recipients@.len() == 0,
            r.utxos@.len() == 0,
            r.unspendable@.len() == 0,
            r.change_policy == ChangeSpendPolicy::ChangeAllowed,
            !r.manually_selected_only,
            r.fee_rate is None,
            r.fee_absolute is None,
            !r.drain_wallet,
            r.drain_to is None,
            r.rbf is None,
    {
        TxBuilder {
            recipients: Vec::new(),
            utxos: Vec::new(),
            unspendable: Vec::new(),
            change_policy: ChangeSpendPolicy::ChangeAllowed,
            manually_selected_only: false,
            fee_rate: None,
            fee_absolute: None,
            drain_wallet: false,
            drain_to: None,
            rbf: None,
        }
    }

    /// Append one recipient.
    pub fn add_recipient(self, script: Vec<u8>, amount: u64) -> (r: TxBuilder)
        ensures
            r == (TxBuilder {
                recipients: r.recipients,
                ..self
            }),
            r.recipients@ == self.recipients@.push(ScriptAmount { script, amount }),
    {
        let mut recipients = self.recipients;
        recipients.push(ScriptAmount { script, amount });
        TxBuilder { recipients, ..self }
    }

    /// Replace the recipient list.
    pub fn set_recipients(self, recipients: Vec<ScriptAmount>) -> (r: TxBuilder)
        ensures
            r == (TxBuilder { recipients, ..self }),
    {
        TxBuilder { recipients, ..self }
    }

    /// Add one outpoint automatic selection must never touch.
    pub fn add_unspendable(self, unspendable: OutPoint) -> (r: TxBuilder)
        ensures
            r == (TxBuilder {
                unspendable: r.unspendable,
                ..self
            }),
            r.unspendable@ == self.unspendable@.push(unspendable),
    {
        let mut u = self.unspendable;
        u.push(unspendable);
        TxBuilder { unspendable: u, ..self }
    }

    /// Replace the exclusion set.
    pub fn unspendable(self, unspendable: Vec<OutPoint>) -> (r: TxBuilder)
        ensures
            r == (TxBuilder { unspendable, ..self }),
    {
        TxBuilder { unspendable, ..self }
    }

    /// Add one outpoint that must be spent.
    pub fn add_utxo(self, outpoint: OutPoint) -> (r: TxBuilder)
        ensures
            r == (TxBuilder { utxos: r.utxos, ..self }),
            r.utxos@ == self.utxos@.push(outpoint),
    {
        let mut utxos = self.utxos;
        utxos.push(outpoint);
        TxBuilder { utxos, ..self }
    }

    /// Add several outpoints that must be spent.
    pub fn add_utxos(self, outpoints: Vec<OutPoint>) -> (r: TxBuilder)
        ensures
            r == (TxBuilder { utxos: r.utxos, ..self }),
            r.utxos@ == self.utxos@ + outpoints@,
    {
        let mut utxos = self.utxos;
        let mut i: usize = 0;
        while i < outpoints.len()
            invariant
                0 <= i <= outpoints@.len(),
                utxos@ =~= self.utxos@ + outpoints@.take(i as int),
            decreases outpoints@.len() - i,
        {
            utxos.push(outpoints[i]);
            i += 1;
        }
        proof {
            assert(utxos@ =~= self.utxos@ + outpoints@);
        }
        TxBuilder { utxos, ..self }
    }

    /// Set the change-spend policy for automatic selection.
    pub fn change_policy(self, change_policy: ChangeSpendPolicy) -> (r: TxBuilder)
        ensures
            r == (TxBuilder { change_policy, ..self }),
    {
        TxBuilder { change_policy, ..self }
    }

    /// Forbid automatic selection of change outputs.
    pub fn do_not_spend_change(self) -> (r: TxBuilder)
        ensures
            r == (TxBuilder { change_policy: ChangeSpendPolicy::ChangeForbidden, ..self }),
    {
        TxBuilder { change_policy: ChangeSpendPolicy::ChangeForbidden, ..self }
    }

    /// Let automatic selection use change outputs only.
    pub fn only_spend_change(self) -> (r: TxBuilder)
        ensures
            r == (TxBuilder { change_policy: ChangeSpendPolicy::OnlyChange, ..self }),
    {
        TxBuilder { change_policy: ChangeSpendPolicy::OnlyChange, ..self }
    }

    /// Use exactly the explicit inclusion set; no automatic selection.
    pub fn manually_selected_only(self) -> (r: TxBuilder)
        ensures
            r == (TxBuilder { manually_selected_only: true, ..self }),
    {
        TxBuilder { manually_selected_only: true, ..self }
    }

    /// Pay a fee at this rate.
    pub fn fee_rate(self, fee_rate: FeeRate) -> (r: TxBuilder)
        ensures
            r == (TxBuilder { fee_rate: Some(fee_rate), ..self }),
    {
        TxBuilder { fee_rate: Some(fee_rate), ..self }
    }

    /// Pay exactly this absolute fee.
    pub fn fee_absolute(self, fee_amount: u64) -> (r: TxBuilder)
        ensures
            r == (TxBuilder { fee_absolute: Some(fee_amount), ..self }),
    {
        TxBuilder { fee_absolute: Some(fee_amount), ..self }
    }

    /// Select every eligible output.
    pub fn drain_wallet(self) -> (r: TxBuilder)
        ensures
            r == (TxBuilder { drain_wallet: true, ..self }),
    {
        TxBuilder { drain_wallet: true, ..self }
    }

    /// Route all spare value to this script.
    pub fn drain_to(self, script: Vec<u8>) -> (r: TxBuilder)
        ensures
            r == (TxBuilder { drain_to: Some(script), ..self }),
    {
        TxBuilder { drain_to: Some(script), ..self }
    }

    /// Signal replaceability with the library-defined sequence.
    pub fn enable_rbf(self) -> (r: TxBuilder)
        ensures
            r == (TxBuilder { rbf: Some(RbfValue::Default), ..self }),
    {
        TxBuilder { rbf: Some(RbfValue::Default), ..self }
    }

    /// Signal replaceability with an explicit sequence value.
    pub fn enable_rbf_with_sequence(self, nsequence: u32) -> (r: TxBuilder)
        ensures
            r == (TxBuilder { rbf: Some(RbfValue::Value(nsequence)), ..self }),
    {
        TxBuilder { rbf: Some(RbfValue::Value(nsequence)), ..self }
    }
}


/// A selection candidate: an outpoint and the value behind it.
#[derive(Clone, Copy, PartialEq, Eq, Structural, Debug)]
pub struct Candidate {
    pub outpoint: OutPoint,
    pub value: u64,
}

/// Whether the policy lets automatic selection spend outputs of a keychain.
pub open spec fn policy_admits(p: ChangeSpendPolicy, k: KeychainKind) -> bool {
    match p {
        ChangeSpendPolicy::ChangeAllowed => true,
        ChangeSpendPolicy::OnlyChange => k == KeychainKind::Internal,
        ChangeSpendPolicy::ChangeForbidden => k == KeychainKind::External,
    }
}

/// The row (if any) referencing an outpoint.
pub open spec fn row_of(s: Seq<LocalOutput>, op: OutPoint) -> LocalOutput {
    s[choose|i: int| 0 <= i < s.len() && (#[trigger] s[i]).outpoint == op]
}

/// The outpoint references a known, not yet spent row.
pub open spec fn op_unspent(s: Seq<LocalOutput>, op: OutPoint) -> bool {
    has_op(s, op) && !row_of(s, op).is_spent
}

/// No outpoint repeats.
pub open spec fn distinct_ops(s: Seq<OutPoint>) -> bool {
    forall|i: int, j: int| 0 <= i < j < s.len() ==> s[i] != s[j]
}

/// The explicit inclusion list with duplicates dropped, first occurrence
/// kept.
pub open spec fn dedup_ops(s: Seq<OutPoint>) -> Seq<OutPoint>
    decreases s.len(),
{
    if s.len() == 0 {
        Seq::empty()
    } else {
        let d = dedup_ops(s.drop_last());
        if d.contains(s.last()) {
            d
        } else {
            d.push(s.last())
        }
    }
}

/// Deduplication yields distinct outpoints drawn from the original list.
pub proof fn lemma_dedup_props(s: Seq<OutPoint>)
    ensures
        distinct_ops(dedup_ops(s)),
        forall|op: OutPoint| dedup_ops(s).contains(op) <==> s.contains(op),
    decreases s.len(),
{
    if s.len() > 0 {
        lemma_dedup_props(s.drop_last());
        let d = dedup_ops(s.drop_last());
        assert forall|op: OutPoint| dedup_ops(s).contains(op) implies s.contains(op) by {
            if d.contains(op) {
                let i = choose|i: int| 0 <= i < d.len() && d[i] == op;
                assert(s.drop_last().contains(op));
                let j = choose|j: int| 0 <= j < s.drop_last().len() && s.drop_last()[j] == op;
                assert(s[j] == op);
            } else {
                assert(op == s.last());
                assert(s[s.len() - 1] == op);
            }
        }
        assert forall|op: OutPoint| s.contains(op) implies dedup_ops(s).contains(op) by {
            let j = choose|j: int| 0 <= j < s.len() && s[j] == op;
            if j < s.len() - 1 {
                assert(s.drop_last()[j] == op);
                assert(s.drop_last().contains(op));
                let i = choose|i: int| 0 <= i < d.len() && d[i] == op;
                if d.contains(s.last()) {
                    assert(dedup_ops(s)[i] == op);
                } else {
                    assert(dedup_ops(s)[i] == op);
                }
            } else {
                if d.contains(s.last()) {
                    let i = choose|i: int| 0 <= i < d.len() && d[i] == op;
                    assert(dedup_ops(s)[i] == op);
                } else {
                    assert(dedup_ops(s).last() == op);
                }
            }
        }
    }
}

/// Every explicitly included outpoint references a known, unspent row.
pub open spec fn explicit_ok(s: Seq<LocalOutput>, ops: Seq<OutPoint>) -> bool {
    forall|i: int| 0 <= i < ops.len() ==> op_unspent(s, #[trigger] ops[i])
}

/// Total value behind a list of outpoints.
pub open spec fn ops_value(s: Seq<LocalOutput>, ops: Seq<OutPoint>) -> int
    decreases ops.len(),
{
    if ops.len() == 0 {
        0
    } else {
        ops_value(s, ops.drop_last()) + val_of(s, ops.last())
    }
}

/// Removing a row no listed outpoint references leaves the total
/// unchanged.
proof fn lemma_ops_value_remove(s: Seq<LocalOutput>, j: int, ops: Seq<OutPoint>)
    requires
        unique_outpoints(s),
        0 <= j < s.len(),
        forall|i: int| 0 <= i < ops.len() ==> #[trigger] ops[i] != s[j].outpoint,
    ensures
        ops_value(s.remove(j), ops) == ops_value(s, ops),
    decreases ops.len(),
{
    if ops.len() > 0 {
        lemma_ops_value_remove(s, j, ops.drop_last());
        lemma_val_of_remove(s, j, ops.last());
    }
}

/// Distinct outpoints drawing on rows with unique outpoints can never sum
/// to more than the rows hold in total.
pub proof fn lemma_ops_value_bound(s: Seq<LocalOutput>, ops: Seq<OutPoint>)
    requires
        unique_outpoints(s),
        distinct_ops(ops),
    ensures
        0 <= ops_value(s, ops),
        ops_value(s, ops) <= sum_values(s),
    decreases ops.len(),
{
    crate::types::lemma_sum_values_nonneg(s);
    if ops.len() > 0 {
        let rest = ops.drop_last();
        let op = ops.last();
        assert(distinct_ops(rest));
        if has_op(s, op) {
            let j = choose|i: int| 0 <= i < s.len() && (#[trigger] s[i]).outpoint == op;
            assert(val_of(s, op) == s[j].value as int);
            lemma_unique_remove(s, j);
            lemma_sum_values_remove(s, j);
            assert forall|i: int| 0 <= i < rest.len() implies #[trigger] rest[i]
                != s[j].outpoint by {
                assert(ops[i] == rest[i]);
                assert(ops[ops.len() - 1] == op);
            }
            lemma_ops_value_remove(s, j, rest);
            lemma_ops_value_bound(s.remove(j), rest);
        } else {
            lemma_ops_value_bound(s, rest);
            assert(val_of(s, op) == 0);
        }
    }
}

/// A candidate stands for a known, unspent row holding exactly its value.
pub open spec fn cand_row_ok(s: Seq<LocalOutput>, c: Candidate) -> bool {
    &&& has_op(s, c.outpoint)
    &&& val_of(s, c.outpoint) == c.value as int
    &&& !row_of(s, c.outpoint).is_spent
}

/// A row is eligible for automatic selection: unspent, not excluded, not
/// already explicitly included, and admitted by the change policy.
pub open spec fn eligible(o: LocalOutput, b: TxBuilder) -> bool {
    &&& !o.is_spent
    &&& !b.unspendable@.contains(o.outpoint)
    &&& !b.utxos@.contains(o.outpoint)
    &&& policy_admits(b.change_policy, o.keychain)
}

/// The candidates automatic selection may draw on, in output-set order.
pub open spec fn cands_of(s: Seq<LocalOutput>, b: TxBuilder) -> Seq<Candidate>
    decreases s.len(),
{
    if s.len() == 0 {
        Seq::empty()
    } else if eligible(s.last(), b) {
        cands_of(s.drop_last(), b).push(Candidate { outpoint: s.last().outpoint, value: s.last().value })
    } else {
        cands_of(s.drop_last(), b)
    }
}

/// Total value of a candidate list.
pub open spec fn sum_cands(cs: Seq<Candidate>) -> int
    decreases cs.len(),
{
    if cs.len() == 0 {
        0
    } else {
        sum_cands(cs.drop_last()) + cs.last().value
    }
}

/// Candidate sums are never negative.
pub(crate) proof fn lemma_sum_cands_nonneg(cs: Seq<Candidate>)
    ensures
        sum_cands(cs) >= 0,
    decreases cs.len(),
{
    if cs.len() > 0 {
        lemma_sum_cands_nonneg(cs.drop_last());
    }
}

/// A prefix of a candidate list sums to no more than the whole.
pub(crate) proof fn lemma_sum_cands_take_bound(cs: Seq<Candidate>, m: int)
    requires
        0 <= m <= cs.len(),
    ensures
        sum_cands(cs.take(m)) <= sum_cands(cs),
    decreases cs.len() - m,
{
    if m < cs.len() {
        lemma_sum_cands_take_bound(cs, m + 1);
        assert(cs.take(m + 1).drop_last() =~= cs.take(m));
    } else {
        assert(cs.take(m) =~= cs);
    }
}

/// What the candidate list of a well-formed output set guarantees: every
/// candidate stands for an eligible row, candidates never repeat an
/// outpoint, and their total stays within the set's total.
pub proof fn lemma_cands_of_props(s: Seq<LocalOutput>, b: TxBuilder)
    requires
        unique_outpoints(s),
    ensures
        forall|i: int|
            0 <= i < cands_of(s, b).len() ==> cand_row_ok(s, #[trigger] cands_of(s, b)[i])
                && !b.utxos@.contains(cands_of(s, b)[i].outpoint) && !b.unspendable@.contains(
                cands_of(s, b)[i].outpoint,
            ) && policy_admits(b.change_policy, row_of(s, cands_of(s, b)[i].outpoint).keychain),
        distinct_ops(cands_of(s, b).map_values(|c: Candidate| c.outpoint)),
        forall|i: int, j: int|
            0 <= i < j < cands_of(s, b).len() ==> (#[trigger] cands_of(s, b)[i]).outpoint != (
            #[trigger] cands_of(s, b)[j]).outpoint,
        sum_cands(cands_of(s, b)) <= sum_values(s),
        sum_cands(cands_of(s, b)) >= 0,
    decreases s.len(),
{
    lemma_sum_cands_nonneg(cands_of(s, b));
    crate::types::lemma_sum_values_nonneg(s);
    if s.len() == 0 {
    } else {
        let s0 = s.drop_last();
        assert(unique_outpoints(s0)) by {
            assert forall|i: int, j: int|
                0 <= i < j < s0.len() implies (#[trigger] s0[i]).outpoint != (
            #[trigger] s0[j]).outpoint by {
                assert(s[i] == s0[i]);
                assert(s[j] == s0[j]);
            }
        }
        lemma_cands_of_props(s0, b);
        let c0 = cands_of(s0, b);
        // rows of the shorter set keep their values in the longer one
        assert forall|i: int| 0 <= i < c0.len() implies cand_row_ok(s, #[trigger] c0[i])
            && policy_admits(b.change_policy, row_of(s, c0[i].outpoint).keychain) by {
            assert(cand_row_ok(s0, c0[i]));
            assert(policy_admits(b.change_policy, row_of(s0, c0[i].outpoint).keychain));
            let w = choose|k: int| 0 <= k < s0.len() && (#[trigger] s0[k]).outpoint
                == c0[i].outpoint;
            assert(s[w] == s0[w]);
            assert(has_op(s, c0[i].outpoint));
            let w2 = choose|k: int| 0 <= k < s.len() && (#[trigger] s[k]).outpoint
                == c0[i].outpoint;
            if w2 != w {
                assert(false);
            }
            assert(row_of(s, c0[i].outpoint) == s[w2]);
            assert(row_of(s0, c0[i].outpoint) == s0[w]);
        }
        if eligible(s.last(), b) {
            let c = Candidate { outpoint: s.last().outpoint, value: s.last().value };
            assert(cand_row_ok(s, c) && policy_admits(
                b.change_policy,
                row_of(s, c.outpoint).keychain,
            )) by {
                assert(s[s.len() - 1].outpoint == c.outpoint);
                let w2 = choose|k: int| 0 <= k < s.len() && (#[trigger] s[k]).outpoint
                    == c.outpoint;
                if w2 != s.len() - 1 {
                    assert(false);
                }
                assert(row_of(s, c.outpoint) == s[s.len() - 1]);
            }
            assert forall|i: int| 0 <= i < c0.len() implies (#[trigger] c0[i]).outpoint
                != c.outpoint by {
                assert(cand_row_ok(s0, c0[i]));
                let w = choose|k: int| 0 <= k < s0.len() && (#[trigger] s0[k]).outpoint
                    == c0[i].outpoint;
                assert(s[w] == s0[w]);
            }
            assert(cands_of(s, b) == c0.push(c));
            assert(c0.push(c).drop_last() =~= c0);
            assert(sum_cands(cands_of(s, b)) == sum_cands(c0) + c.value);
            assert(sum_values(s) == sum_values(s0) + s.last().value);
            assert forall|i: int, j: int|
                0 <= i < j < cands_of(s, b).len() implies (#[trigger] cands_of(s, b)[i]).outpoint
                != (#[trigger] cands_of(s, b)[j]).outpoint by {
                if j < c0.len() {
                    assert(cands_of(s, b)[i] == c0[i]);
                    assert(cands_of(s, b)[j] == c0[j]);
                } else {
                    assert(cands_of(s, b)[i] == c0[i]);
                    assert(cands_of(s, b)[j] == c);
                }
            }
        }
        assert(sum_values(s) == sum_values(s0) + s.last().value);
        let cs = cands_of(s, b);
        let m = cs.map_values(|c: Candidate| c.outpoint);
        assert forall|i: int, j: int| 0 <= i < j < m.len() implies m[i] != m[j] by {
            assert(m[i] == cs[i].outpoint);
            assert(m[j] == cs[j].outpoint);
        }
    }
}

/// How many candidates greedy top-up takes, starting from value `v` and
/// input count `n`: none once covered, otherwise the next candidate and on.
pub open spec fn sel_count(
    cands: Seq<Candidate>,
    v: int,
    n: int,
    b: TxBuilder,
    target: int,
    n_out: int,
) -> int
    decreases cands.len(),
{
    if v >= target + resolved_fee(b, n, n_out) || cands.len() == 0 {
        0
    } else {
        1 + sel_count(cands.skip(1), v + cands[0].value, n + 1, b, target, n_out)
    }
}

/// The count taken never exceeds what is there.
pub(crate) proof fn lemma_sel_count_range(
    cands: Seq<Candidate>,
    v: int,
    n: int,
    b: TxBuilder,
    target: int,
    n_out: int,
)
    ensures
        0 <= sel_count(cands, v, n, b, target, n_out) <= cands.len(),
    decreases cands.len(),
{
    if !(v >= target + resolved_fee(b, n, n_out)) && cands.len() > 0 {
        lemma_sel_count_range(cands.skip(1), v + cands[0].value, n + 1, b, target, n_out);
    }
}

/// The final value and input count selection arrives at: the explicit
/// inclusions, plus every candidate when draining, plus greedy top-up
/// otherwise (nothing more under manual selection).
pub open spec fn sel_total(b: TxBuilder, w: Wallet) -> (int, int) {
    let ops = dedup_ops(b.utxos@);
    let v0 = ops_value(w.outputs@, ops);
    let n0 = ops.len() as int;
    let target = sum_amounts(b.recipients@);
    let n_out = b.recipients@.len() + 1;
    let cands = cands_of(w.outputs@, b);
    if b.manually_selected_only {
        (v0, n0)
    } else if b.drain_wallet {
        (v0 + sum_cands(cands), n0 + cands.len())
    } else {
        let m = sel_count(cands, v0, n0, b, target, n_out as int);
        (v0 + sum_cands(cands.take(m)), n0 + m)
    }
}

/// Some recipient asks for less than the dust threshold.
pub open spec fn has_dust_recipient(b: TxBuilder) -> bool {
    exists|i: int| 0 <= i < b.recipients@.len() && (#[trigger] b.recipients@[i]).amount < DUST_LIMIT
}

/// Some owned, unspent output is admitted by the policy.
pub open spec fn policy_has_candidate(s: Seq<LocalOutput>, p: ChangeSpendPolicy) -> bool {
    exists|i: int|
        0 <= i < s.len() && !(#[trigger] s[i]).is_spent && policy_admits(p, s[i].keychain)
}

/// The error `finish` reports, if any, in order of precedence: no
/// recipient and no drain target; a recipient below dust; an unknown or
/// spent explicit inclusion; manual selection with nothing included; a
/// policy that excludes every owned output; funds that cannot cover the
/// recipients plus the resolved fee; a drain residual below dust.
pub open spec fn finish_err(b: TxBuilder, w: Wallet) -> Option<CreateTxError> {
    let target = sum_amounts(b.recipients@);
    let ops = dedup_ops(b.utxos@);
    let n_out = b.recipients@.len() as int + 1;
    let vn = sel_total(b, w);
    if b.recipients@.len() == 0 && b.drain_to is None {
        Some(CreateTxError::NoRecipients)
    } else if has_dust_recipient(b) {
        Some(CreateTxError::OutputBelowDustLimit)
    } else if !explicit_ok(w.outputs@, ops) {
        Some(CreateTxError::UnknownUtxo)
    } else if b.manually_selected_only && ops.len() == 0 {
        Some(CreateTxError::NoUtxosSelected)
    } else if !b.manually_selected_only && !(b.change_policy is ChangeAllowed)
        && !policy_has_candidate(w.outputs@, b.change_policy) {
        Some(CreateTxError::ChangePolicyDescRequired)
    } else if vn.0 < target + resolved_fee(b, vn.1, n_out) {
        Some(CreateTxError::InsufficientFunds)
    } else if b.drain_to is Some && vn.0 - target - resolved_fee(b, vn.1, n_out) < DUST_LIMIT {
        Some(CreateTxError::OutputBelowDustLimit)
    } else {
        None
    }
}

/// Everything `finish` promises of a built transaction: the explicit
/// inclusions lead the input list and under manual selection are all of
/// it; inputs are distinct, known, unspent and all carry the sequence the
/// replacement intent calls for; the recipients appear in order, followed
/// by at most one spare-value output; input value equals output value plus
/// fee; the fee never falls below the resolved fee, equals it exactly
/// whenever a spare output exists, and exceeds it by less than the dust
/// threshold otherwise; the spare output pays the drain script when one
/// was given and a fresh change script otherwise.
pub open spec fn finish_ok(b: TxBuilder, w: Wallet, t: UnsignedTx) -> bool {
    let nrec = b.recipients@.len() as int;
    let ops = dedup_ops(b.utxos@);
    let vn = sel_total(b, w);
    &&& finish_err(b, w) is None
    &&& t.inputs@.len() == vn.1
    &&& ops.len() <= t.inputs@.len()
    &&& forall|i: int| 0 <= i < ops.len() ==> (#[trigger] t.inputs@[i]).previous_output == ops[i]
    &&& (b.manually_selected_only ==> t.inputs@.len() == ops.len())
    &&& forall|i: int|
        ops.len() <= i < t.inputs@.len() ==> (#[trigger] t.inputs@[i]).previous_output
            == cands_of(w.outputs@, b)[i - ops.len()].outpoint
    &&& distinct_inputs(t.inputs@)
    &&& forall|i: int|
        0 <= i < t.inputs@.len() ==> op_unspent(w.outputs@, (#[trigger] t.inputs@[i]).previous_output)
    &&& forall|i: int|
        0 <= i < t.inputs@.len() ==> (#[trigger] t.inputs@[i]).sequence == sequence_of(b.rbf)
    &&& (t.outputs@.len() == nrec || t.outputs@.len() == nrec + 1)
    &&& forall|i: int|
        0 <= i < nrec ==> (#[trigger] t.outputs@[i]).script_pubkey@ == b.recipients@[i].script@
            && t.outputs@[i].value == b.recipients@[i].amount
    &&& sum_input_values(w.outputs@, t.inputs@) == vn.0
    &&& sum_input_values(w.outputs@, t.inputs@) == sum_txout_values(t.outputs@) + t.fee
    &&& t.fee >= resolved_fee(b, vn.1, nrec + 1)
    &&& (t.outputs@.len() == nrec + 1 ==> t.fee == resolved_fee(b, vn.1, nrec + 1))
    &&& (t.outputs@.len() == nrec ==> t.fee < resolved_fee(b, vn.1, nrec + 1) + DUST_LIMIT)
    &&& (t.outputs@.len() == nrec + 1 ==> t.outputs@.last().value >= DUST_LIMIT
        && t.outputs@.last().script_pubkey@ == (match b.drain_to {
        Some(d) => d@,
        None => script_at(w.change_descriptor@, w.next_internal_index as int),
    }))
    &&& (b.drain_to is Some ==> t.outputs@.len() == nrec + 1)
}


/// Cap above which a fee rate can never be covered by any wallet: the fee
/// it resolves to exceeds twice the money supply already for the smallest
/// transaction shape.
pub const RATE_CAP: u64 = 0x0080_0000_0000_0000;

/// The rate the builder's fee intent implies when no absolute fee is set.
pub open spec fn rate_of(b: TxBuilder) -> int {
    (match b.fee_rate {
        Some(fr) => fr.sat_per_kwu,
        None => DEFAULT_FEE_RATE,
    }) as int
}

/// Whether a list of outpoints contains one.
fn contains_op(v: &Vec<OutPoint>, op: OutPoint) -> (r: bool)
    ensures
        r == v@.contains(op),
{
    let mut i: usize = 0;
    while i < v.len()
        invariant
            0 <= i <= v@.len(),
            forall|k: int| 0 <= k < i ==> v@[k] != op,
        decreases v@.len() - i,
    {
        if v[i] == op {
            return true;
        }
        i += 1;
    }
    false
}

/// Whether the policy admits a keychain.
fn policy_admits_exec(p: ChangeSpendPolicy, k: KeychainKind) -> (r: bool)
    ensures
        r == policy_admits(p, k),
{
    match p {
        ChangeSpendPolicy::ChangeAllowed => true,
        ChangeSpendPolicy::OnlyChange => matches!(k, KeychainKind::Internal),
        ChangeSpendPolicy::ChangeForbidden => matches!(k, KeychainKind::External),
    }
}

/// Whether any owned, unspent output is admitted by the policy.
fn policy_candidate_exists(w: &Wallet, p: ChangeSpendPolicy) -> (r: bool)
    ensures
        r == policy_has_candidate(w.outputs@, p),
{
    let mut i: usize = 0;
    while i < w.outputs.len()
        invariant
            0 <= i <= w.outputs@.len(),
            forall|k: int|
                0 <= k < i ==> !(!(#[trigger] w.outputs@[k]).is_spent && policy_admits(
                    p,
                    w.outputs@[k].keychain,
                )),
        decreases w.outputs@.len() - i,
    {
        if !w.outputs[i].is_spent && policy_admits_exec(p, w.outputs[i].keychain) {
            return true;
        }
        i += 1;
    }
    false
}

/// Whether value `v` with `n_in` inputs covers the target plus the
/// resolved fee for `n_out` outputs.
fn covered_exec(b: &TxBuilder, v: u64, n_in: usize, target: u128, n_rec: usize) -> (r: bool)
    requires
        v <= 2 * MAX_MONEY,
    ensures
        r == (v as int >= target as int + resolved_fee(*b, n_in as int, n_rec as int + 1)),
{
    proof {
        lemma_resolved_fee_nonneg(*b, n_in as int, n_rec as int + 1);
    }
    if target > 0x1000_0000_0000_0000_0000_0000_0000u128 {
        return false;
    }
    match b.fee_absolute {
        Some(a) => (v as u128) >= target + (a as u128),
        None => {
            let rate: u64 = match b.fee_rate {
                Some(fr) => fr.sat_per_kwu,
                None => DEFAULT_FEE_RATE,
            };
            if rate > RATE_CAP {
                proof {
                    let wt = weight_units(n_in as int, n_rec as int + 1);
                    assert(wt >= 164);
                    assert((rate as int) * wt >= (RATE_CAP + 1) * 164) by (nonlinear_arith)
                        requires
                            rate as int >= RATE_CAP + 1,
                            wt >= 164,
                    ;
                    assert(resolved_fee(*b, n_in as int, n_rec as int + 1) > 2 * MAX_MONEY);
                }
                false
            } else {
                let wt: u128 = (WEIGHT_BASE as u128) + (WEIGHT_PER_INPUT as u128) * (n_in as u128)
                    + (WEIGHT_PER_OUTPUT as u128) * ((n_rec as u128) + 1);
                proof {
                    assert(wt as int == weight_units(n_in as int, n_rec as int + 1));
                    assert(wt < 0x200_0000_0000_0000_0000u128);
                    assert((rate as int) * (wt as int) <= 0x0080_0000_0000_0000i128 * (
                    0x200_0000_0000_0000_0000i128 - 1)) by (nonlinear_arith)
                        requires
                            0 <= rate as int <= 0x0080_0000_0000_0000i128,
                            0 <= wt as int <= 0x200_0000_0000_0000_0000i128 - 1,
                    ;
                }
                let fee: u128 = ((rate as u128) * wt + 999) / 1000;
                (v as u128) >= target + fee
            }
        },
    }
}

/// The resolved fee as a number, valid whenever it is known to be
/// coverable.
fn fee_value_exec(b: &TxBuilder, n_in: usize, n_rec: usize) -> (r: u64)
    requires
        resolved_fee(*b, n_in as int, n_rec as int + 1) <= 2 * MAX_MONEY,
    ensures
        r as int == resolved_fee(*b, n_in as int, n_rec as int + 1),
{
    match b.fee_absolute {
        Some(a) => a,
        None => {
            let rate: u64 = match b.fee_rate {
                Some(fr) => fr.sat_per_kwu,
                None => DEFAULT_FEE_RATE,
            };
            if rate > RATE_CAP {
                proof {
                    let wt = weight_units(n_in as int, n_rec as int + 1);
                    assert(wt >= 164);
                    assert((rate as int) * wt >= (RATE_CAP + 1) * 164) by (nonlinear_arith)
                        requires
                            rate as int >= RATE_CAP + 1,
                            wt >= 164,
                    ;
                    assert(false);
                }
                0
            } else {
                let wt: u128 = (WEIGHT_BASE as u128) + (WEIGHT_PER_INPUT as u128) * (n_in as u128)
                    + (WEIGHT_PER_OUTPUT as u128) * ((n_rec as u128) + 1);
                proof {
                    assert(wt as int == weight_units(n_in as int, n_rec as int + 1));
                    assert(wt < 0x200_0000_0000_0000_0000u128);
                    assert((rate as int) * (wt as int) <= 0x0080_0000_0000_0000i128 * (
                    0x200_0000_0000_0000_0000i128 - 1)) by (nonlinear_arith)
                        requires
                            0 <= rate as int <= 0x0080_0000_0000_0000i128,
                            0 <= wt as int <= 0x200_0000_0000_0000_0000i128 - 1,
                    ;
                }
                let fee: u128 = ((rate as u128) * wt + 999) / 1000;
                fee as u64
            }
        },
    }
}

/// Inputs standing for candidates consume exactly the candidates' total.
pub(crate) proof fn lemma_inputs_sum_from_cands(outs: Seq<LocalOutput>, cs: Seq<Candidate>, ins: Seq<TxIn>)
    requires
        ins.len() == cs.len(),
        forall|i: int|
            0 <= i < ins.len() ==> (#[trigger] ins[i]).previous_output == cs[i].outpoint,
        forall|i: int|
            0 <= i < cs.len() ==> val_of(outs, (#[trigger] cs[i]).outpoint) == cs[i].value as int,
    ensures
        sum_input_values(outs, ins) == sum_cands(cs),
    decreases ins.len(),
{
    if ins.len() > 0 {
        assert forall|i: int|
            0 <= i < ins.drop_last().len() implies (#[trigger] ins.drop_last()[i]).previous_output
            == cs.drop_last()[i].outpoint by {
            assert(ins[i] == ins.drop_last()[i]);
            assert(cs[i] == cs.drop_last()[i]);
        }
        assert forall|i: int|
            0 <= i < cs.drop_last().len() implies val_of(
            outs,
            (#[trigger] cs.drop_last()[i]).outpoint,
        ) == cs.drop_last()[i].value as int by {
            assert(cs[i] == cs.drop_last()[i]);
        }
        lemma_inputs_sum_from_cands(outs, cs.drop_last(), ins.drop_last());
        assert(ins.last().previous_output == cs.last().outpoint);
    }
}


impl TxBuilder {
    /// Build an unsigned transaction against a borrowed wallet: recipients
    /// become outputs; the explicit inclusions and, unless selection is
    /// manual, greedily topped-up eligible outputs become inputs; the fee
    /// intent is resolved; spare value becomes a drain or change output or,
    /// below the dust threshold, extra fee; replacement intent sets every
    /// input's sequence. Reads the wallet only: selection never mutates
    /// state.
    #[verifier::rlimit(100)]
    pub fn finish(&self, wallet: &Wallet) -> (r: Result<UnsignedTx, CreateTxError>)
        requires
            wallet.wf(),
            wallet.next_internal_index < 0x8000_0000u32,
        ensures
            r is Err <==> finish_err(*self, *wallet) is Some,
            r matches Err(e) ==> finish_err(*self, *wallet) == Some(e),
            r matches Ok(t) ==> finish_ok(*self, *wallet, t),
    {
        let ghost outsv = wallet.outputs@;
        let nrec = self.recipients.len();
        let has_drain = match &self.drain_to {
            Some(_) => true,
            None => false,
        };
        if nrec == 0 && !has_drain {
            return Err(CreateTxError::NoRecipients);
        }
        // Recipients below the dust threshold are rejected outright.
        let mut ri: usize = 0;
        while ri < nrec
            invariant
                nrec == self.recipients@.len(),
                !(self.recipients@.len() == 0 && self.drain_to is None),
                0 <= ri <= nrec,
                forall|k: int| 0 <= k < ri ==> (#[trigger] self.recipients@[k]).amount >= DUST_LIMIT,
            decreases nrec - ri,
        {
            if self.recipients[ri].amount < DUST_LIMIT {
                return Err(CreateTxError::OutputBelowDustLimit);
            }
            ri += 1;
        }
        assert(!has_dust_recipient(*self));
        // Deduplicate the explicit inclusion list, first occurrence kept.
        let mut ops: Vec<OutPoint> = Vec::new();
        let mut ui: usize = 0;
        while ui < self.utxos.len()
            invariant
                0 <= ui <= self.utxos@.len(),
                ops@ == dedup_ops(self.utxos@.take(ui as int)),
            decreases self.utxos@.len() - ui,
        {
            proof {
                assert(self.utxos@.take(ui + 1).drop_last() =~= self.utxos@.take(ui as int));
                assert(self.utxos@.take(ui + 1).last() == self.utxos@[ui as int]);
            }
            if !contains_op(&ops, self.utxos[ui]) {
                ops.push(self.utxos[ui]);
            }
            ui += 1;
        }
        proof {
            assert(self.utxos@.take(self.utxos@.len() as int) =~= self.utxos@);
            lemma_dedup_props(self.utxos@);
        }
        let ghost opsv = dedup_ops(self.utxos@);
        // Resolve every explicit inclusion to a known, unspent row.
        let mut sel: Vec<Candidate> = Vec::new();
        let mut v: u64 = 0;
        let mut oi: usize = 0;
        while oi < ops.len()
            invariant
                wallet.wf(),
                outsv == wallet.outputs@,
                !(self.recipients@.len() == 0 && self.drain_to is None),
                !has_dust_recipient(*self),
                ops@ == opsv,
                opsv == dedup_ops(self.utxos@),
                distinct_ops(opsv),
                0 <= oi <= opsv.len(),
                sel@.len() == oi,
                forall|k: int|
                    0 <= k < oi ==> (#[trigger] sel@[k]).outpoint == opsv[k] && cand_row_ok(
                        outsv,
                        sel@[k],
                    ),
                explicit_ok(outsv, opsv.take(oi as int)),
                v as int == ops_value(outsv, opsv.take(oi as int)),
                v <= MAX_MONEY,
            decreases opsv.len() - oi,
        {
            let op = ops[oi];
            proof {
                assert(opsv.take(oi + 1).drop_last() =~= opsv.take(oi as int));
                assert(opsv.take(oi + 1).last() == opsv[oi as int]);
                assert(distinct_ops(opsv.take(oi + 1))) by {
                    assert forall|x: int, y: int|
                        0 <= x < y < opsv.take(oi + 1).len() implies (#[trigger] opsv.take(
                        oi + 1,
                    )[x]) != (#[trigger] opsv.take(oi + 1)[y]) by {
                        assert(opsv.take(oi + 1)[x] == opsv[x]);
                        assert(opsv.take(oi + 1)[y] == opsv[y]);
                    }
                }
                lemma_ops_value_bound(outsv, opsv.take(oi + 1));
            }
            match find_output_index(&wallet.outputs, op) {
                Some(j) => {
                    proof {
                        let c = choose|k: int|
                            0 <= k < outsv.len() && (#[trigger] outsv[k]).outpoint == op;
                        assert(outsv[j as int].outpoint == op);
                        if c != j as int {
                            assert(false);
                        }
                        assert(row_of(outsv, op) == outsv[j as int]);
                    }
                    if wallet.outputs[j].is_spent {
                        proof {
                            assert(!op_unspent(outsv, opsv[oi as int]));
                        }
                        return Err(CreateTxError::UnknownUtxo);
                    }
                    sel.push(Candidate { outpoint: op, value: wallet.outputs[j].value });
                    v = v + wallet.outputs[j].value;
                },
                None => {
                    proof {
                        assert(!op_unspent(outsv, opsv[oi as int]));
                    }
                    return Err(CreateTxError::UnknownUtxo);
                },
            }
            oi += 1;
        }
        proof {
            assert(opsv.take(opsv.len() as int) =~= opsv);
        }
        if self.manually_selected_only && ops.len() == 0 {
            return Err(CreateTxError::NoUtxosSelected);
        }
        let policy_matters = !self.manually_selected_only && !matches!(
            self.change_policy,
            ChangeSpendPolicy::ChangeAllowed,
        );
        if policy_matters && !policy_candidate_exists(wallet, self.change_policy) {
            return Err(CreateTxError::ChangePolicyDescRequired);
        }
        // The recipient total, the amount the inputs must cover besides fee.
        let mut target: u128 = 0;
        let mut ti: usize = 0;
        while ti < nrec
            invariant
                nrec == self.recipients@.len(),
                0 <= ti <= nrec,
                target as int == sum_amounts(self.recipients@.take(ti as int)),
                target <= 0xFFFF_FFFF_FFFF_FFFFu128 * (ti as u128),
            decreases nrec - ti,
        {
            proof {
                assert(self.recipients@.take(ti + 1).drop_last() =~= self.recipients@.take(
                    ti as int,
                ));
                assert(self.recipients@.take(ti + 1).last() == self.recipients@[ti as int]);
            }
            target = target + (self.recipients[ti].amount as u128);
            ti += 1;
        }
        proof {
            assert(self.recipients@.take(nrec as int) =~= self.recipients@);
        }
        let ghost candsv = cands_of(outsv, *self);
        let n0 = sel.len();
        let ghost v0 = v as int;
        proof {
            lemma_cands_of_props(outsv, *self);
        }
        if !self.manually_selected_only {
            // Gather the eligible candidates in output-set order.
            let mut cands: Vec<Candidate> = Vec::new();
            let mut ci: usize = 0;
            while ci < wallet.outputs.len()
                invariant
                    outsv == wallet.outputs@,
                    0 <= ci <= outsv.len(),
                    cands@ == cands_of(outsv.take(ci as int), *self),
                decreases outsv.len() - ci,
            {
                proof {
                    assert(outsv.take(ci + 1).drop_last() =~= outsv.take(ci as int));
                    assert(outsv.take(ci + 1).last() == outsv[ci as int]);
                }
                let o = &wallet.outputs[ci];
                if !o.is_spent && !contains_op(&self.unspendable, o.outpoint) && !contains_op(
                    &self.utxos,
                    o.outpoint,
                ) && policy_admits_exec(self.change_policy, o.keychain) {
                    cands.push(Candidate { outpoint: o.outpoint, value: o.value });
                }
                ci += 1;
            }
            proof {
                assert(outsv.take(outsv.len() as int) =~= outsv);
                assert(cands@ == candsv);
            }
            if self.drain_wallet {
                // Drain: select every candidate.
                let mut m: usize = 0;
                while m < cands.len()
                    invariant
                        cands@ == candsv,
                        outsv == wallet.outputs@,
                        0 <= m <= candsv.len(),
                        sel@.len() == n0 + m,
                        forall|k: int| 0 <= k < m ==> sel@[n0 + k] == candsv[k],
                        v as int == v0 + sum_cands(candsv.take(m as int)),
                        v0 + sum_cands(candsv) <= 2 * MAX_MONEY,
                        v0 <= MAX_MONEY,
                        forall|k: int|
                            0 <= k < n0 ==> (#[trigger] sel@[k]).outpoint == opsv[k] && cand_row_ok(
                                outsv,
                                sel@[k],
                            ),
                    decreases candsv.len() - m,
                {
                    proof {
                        assert(candsv.take(m + 1).drop_last() =~= candsv.take(m as int));
                        assert(candsv.take(m + 1).last() == candsv[m as int]);
                        lemma_sum_cands_take_bound(candsv, m + 1);
                        lemma_sum_cands_nonneg(candsv.take(m as int));
                    }
                    sel.push(cands[m]);
                    v = v + cands[m].value;
                    m += 1;
                }
                proof {
                    assert(candsv.take(candsv.len() as int) =~= candsv);
                }
            } else {
                // Greedy top-up until the target plus fee is covered.
                proof {
                    assert(candsv.skip(0) =~= candsv);
                    assert(candsv.take(0) =~= Seq::<Candidate>::empty());
                }
                let mut m: usize = 0;
                while m < cands.len() && !covered_exec(self, v, sel.len(), target, nrec)
                    invariant
                        cands@ == candsv,
                        outsv == wallet.outputs@,
                        nrec == self.recipients@.len(),
                        target as int == sum_amounts(self.recipients@),
                        0 <= m <= candsv.len(),
                        sel@.len() == n0 + m,
                        forall|k: int| 0 <= k < m ==> sel@[n0 + k] == candsv[k],
                        v as int == v0 + sum_cands(candsv.take(m as int)),
                        v0 + sum_cands(candsv) <= 2 * MAX_MONEY,
                        v0 <= MAX_MONEY,
                        v <= 2 * MAX_MONEY,
                        forall|k: int|
                            0 <= k < n0 ==> (#[trigger] sel@[k]).outpoint == opsv[k] && cand_row_ok(
                                outsv,
                                sel@[k],
                            ),
                        sel_count(candsv, v0, n0 as int, *self, target as int, nrec as int + 1)
                            == m + sel_count(
                            candsv.skip(m as int),
                            v as int,
                            n0 + m,
                            *self,
                            target as int,
                            nrec as int + 1,
                        ),
                    decreases candsv.len() - m,
                {
                    proof {
                        assert(candsv.skip(m as int).len() > 0);
                        assert(candsv.skip(m as int)[0] == candsv[m as int]);
                        assert(candsv.skip(m as int).skip(1) =~= candsv.skip(m + 1));
                        assert(candsv.take(m + 1).drop_last() =~= candsv.take(m as int));
                        assert(candsv.take(m + 1).last() == candsv[m as int]);
                        lemma_sum_cands_take_bound(candsv, m + 1);
                        lemma_sum_cands_nonneg(candsv.take(m as int));
                    }
                    sel.push(cands[m]);
                    v = v + cands[m].value;
                    m += 1;
                }
                proof {
                    if m == candsv.len() {
                        assert(candsv.skip(m as int) =~= Seq::<Candidate>::empty());
                    }
                    assert(sel@.len() == n0 + sel_count(
                        candsv,
                        v0,
                        n0 as int,
                        *self,
                        target as int,
                        nrec as int + 1,
                    ));
                    assert(v as int == v0 + sum_cands(candsv.take(sel_count(
                        candsv,
                        v0,
                        n0 as int,
                        *self,
                        target as int,
                        nrec as int + 1,
                    ))));
                }
            }
        }
        let n = sel.len();
        proof {
            if self.manually_selected_only {
                assert(candsv.take(0) =~= Seq::<Candidate>::empty());
            }
            assert((v as int, n as int) == sel_total(*self, *wallet));
        }
        if !covered_exec(self, v, n, target, nrec) {
            return Err(CreateTxError::InsufficientFunds);
        }
        proof {
            lemma_resolved_fee_nonneg(*self, n as int, nrec as int + 1);
        }
        let fee_with_spare = fee_value_exec(self, n, nrec);
        let target64 = target as u64;
        let spare = v - target64 - fee_with_spare;
        // Spare routing: drain script, change script, or extra fee.
        let mut spare_out: Option<TxOut> = None;
        let mut fee: u64 = fee_with_spare;
        match &self.drain_to {
            Some(d) => {
                if spare < DUST_LIMIT {
                    return Err(CreateTxError::OutputBelowDustLimit);
                }
                spare_out = Some(TxOut { script_pubkey: copy_bytes(d), value: spare });
            },
            None => {
                if spare >= DUST_LIMIT {
                    let script = derive_script(
                        &wallet.change_descriptor,
                        wallet.next_internal_index,
                    );
                    spare_out = Some(TxOut { script_pubkey: script, value: spare });
                } else {
                    fee = fee_with_spare + spare;
                }
            },
        }
        // Outputs: the recipients in order, then the spare output if any.
        let mut outputs: Vec<TxOut> = Vec::new();
        let mut bi: usize = 0;
        while bi < nrec
            invariant
                nrec == self.recipients@.len(),
                0 <= bi <= nrec,
                outputs@.len() == bi,
                forall|k: int|
                    0 <= k < bi ==> (#[trigger] outputs@[k]).script_pubkey@
                        == self.recipients@[k].script@ && outputs@[k].value
                        == self.recipients@[k].amount,
                sum_txout_values(outputs@) == sum_amounts(self.recipients@.take(bi as int)),
            decreases nrec - bi,
        {
            proof {
                assert(self.recipients@.take(bi + 1).drop_last() =~= self.recipients@.take(
                    bi as int,
                ));
                assert(self.recipients@.take(bi + 1).last() == self.recipients@[bi as int]);
            }
            let o = TxOut {
                script_pubkey: copy_bytes(&self.recipients[bi].script),
                value: self.recipients[bi].amount,
            };
            let ghost before = outputs@;
            outputs.push(o);
            proof {
                assert(outputs@.drop_last() =~= before);
            }
            bi += 1;
        }
        proof {
            assert(self.recipients@.take(nrec as int) =~= self.recipients@);
        }
        let ghost rec_outs = outputs@;
        let ghost gspare = spare_out;
        match spare_out {
            Some(o) => {
                let ghost before = outputs@;
                outputs.push(o);
                proof {
                    assert(outputs@.drop_last() =~= before);
                }
            },
            None => {},
        }
        // Inputs: every selected candidate, with the sequence the
        // replacement intent calls for.
        let sequence: u32 = match &self.rbf {
            None => SEQUENCE_FINAL,
            Some(RbfValue::Default) => SEQUENCE_RBF,
            Some(RbfValue::Value(nseq)) => *nseq,
        };
        let mut inputs: Vec<TxIn> = Vec::new();
        let mut ii: usize = 0;
        while ii < sel.len()
            invariant
                0 <= ii <= sel@.len(),
                inputs@.len() == ii,
                forall|k: int|
                    0 <= k < ii ==> (#[trigger] inputs@[k]).previous_output == sel@[k].outpoint
                        && inputs@[k].sequence == sequence,
            decreases sel@.len() - ii,
        {
            inputs.push(TxIn { previous_output: sel[ii].outpoint, sequence });
            ii += 1;
        }
        let t = UnsignedTx { inputs, outputs, fee };
        proof {
            // every selected candidate stands for a known, unspent row
            assert forall|k: int| 0 <= k < sel@.len() implies cand_row_ok(
                outsv,
                #[trigger] sel@[k],
            ) by {
                if k >= n0 {
                    assert(sel@[k] == candsv[k - n0]);
                }
            }
            // the selected outpoints never repeat
            assert forall|i: int, j: int|
                0 <= i < j < sel@.len() implies (#[trigger] sel@[i]).outpoint != (
            #[trigger] sel@[j]).outpoint by {
                if i < n0 && j < n0 {
                    assert(sel@[i].outpoint == opsv[i]);
                    assert(sel@[j].outpoint == opsv[j]);
                } else if i < n0 && j >= n0 {
                    assert(sel@[j] == candsv[j - n0]);
                    assert(!self.utxos@.contains(candsv[j - n0].outpoint));
                    assert(sel@[i].outpoint == opsv[i]);
                    assert(self.utxos@.contains(opsv[i]));
                } else {
                    assert(sel@[i] == candsv[i - n0]);
                    assert(sel@[j] == candsv[j - n0]);
                }
            }
            assert(distinct_inputs(t.inputs@));
            assert forall|i2: int|
                opsv.len() <= i2 < t.inputs@.len() implies (
            #[trigger] t.inputs@[i2]).previous_output == candsv[i2 - opsv.len()].outpoint by {
                assert(sel@[n0 + (i2 - n0)] == candsv[i2 - n0]);
                assert(t.inputs@[i2].previous_output == sel@[i2].outpoint);
            }
            assert forall|k: int| 0 <= k < sel@.len() implies val_of(
                outsv,
                (#[trigger] sel@[k]).outpoint,
            ) == sel@[k].value as int by {
                assert(cand_row_ok(outsv, sel@[k]));
            }
            lemma_inputs_sum_from_cands(outsv, sel@, t.inputs@);
            // the selected total is the explicit part plus the top-up part
            assert(sum_cands(sel@) == v as int) by {
                lemma_sum_cands_split(sel@, n0 as int, outsv, opsv, candsv, v0);
            }
            // output total: recipients plus the spare output if present
            match gspare {
                Some(o) => {
                    assert(sum_txout_values(t.outputs@) == sum_amounts(self.recipients@)
                        + o.value);
                },
                None => {
                    assert(t.outputs@ == rec_outs);
                },
            }
            assert forall|k: int| 0 <= k < sel@.len() implies op_unspent(
                outsv,
                (#[trigger] t.inputs@[k]).previous_output,
            ) by {
                assert(cand_row_ok(outsv, sel@[k]));
            }
        }
        Ok(t)
    }
}

/// A selection made of an explicit part whose values are the rows' and a
/// candidate prefix sums to the explicit total plus the prefix total.
proof fn lemma_sum_cands_split(
    sel: Seq<Candidate>,
    n0: int,
    outs: Seq<LocalOutput>,
    ops: Seq<OutPoint>,
    cands: Seq<Candidate>,
    v0: int,
)
    requires
        0 <= n0 <= sel.len(),
        sel.len() - n0 <= cands.len(),
        n0 == ops.len(),
        forall|k: int|
            0 <= k < n0 ==> (#[trigger] sel[k]).outpoint == ops[k] && val_of(
                outs,
                sel[k].outpoint,
            ) == sel[k].value as int,
        forall|k: int| n0 <= k < sel.len() ==> sel[k] == cands[k - n0],
        v0 == ops_value(outs, ops),
    ensures
        sum_cands(sel) == v0 + sum_cands(cands.take(sel.len() - n0)),
    decreases sel.len(),
{
    if sel.len() == n0 {
        assert(cands.take(0) =~= Seq::<Candidate>::empty());
        lemma_ops_sum_as_cands(sel, outs, ops);
    } else {
        let pre = sel.drop_last();
        assert forall|k: int| n0 <= k < pre.len() implies pre[k] == cands[k - n0] by {
            assert(sel[k] == pre[k]);
        }
        assert forall|k: int|
            0 <= k < n0 implies (#[trigger] pre[k]).outpoint == ops[k] && val_of(
            outs,
            pre[k].outpoint,
        ) == pre[k].value as int by {
            assert(sel[k] == pre[k]);
        }
        lemma_sum_cands_split(pre, n0, outs, ops, cands, v0);
        assert(cands.take(sel.len() - n0).drop_last() =~= cands.take(pre.len() - n0));
        assert(cands.take(sel.len() - n0).last() == cands[sel.len() - n0 - 1]);
        assert(sel.last() == cands[sel.len() - 1 - n0]);
    }
}

/// A selection consisting of the explicit inclusions sums to their value.
proof fn lemma_ops_sum_as_cands(sel: Seq<Candidate>, outs: Seq<LocalOutput>, ops: Seq<OutPoint>)
    requires
        sel.len() == ops.len(),
        forall|k: int|
            0 <= k < sel.len() ==> (#[trigger] sel[k]).outpoint == ops[k] && val_of(
                outs,
                sel[k].outpoint,
            ) == sel[k].value as int,
    ensures
        sum_cands(sel) == ops_value(outs, ops),
    decreases sel.len(),
{
    if sel.len() > 0 {
        let pre = sel.drop_last();
        assert forall|k: int|
            0 <= k < pre.len() implies (#[trigger] pre[k]).outpoint == ops.drop_last()[k]
            && val_of(outs, pre[k].outpoint) == pre[k].value as int by {
            assert(sel[k] == pre[k]);
            assert(ops[k] == ops.drop_last()[k]);
        }
        lemma_ops_sum_as_cands(pre, outs, ops.drop_last());
        assert(sel.last().outpoint == ops.last());
    }
}

} // verus!
