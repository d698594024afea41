//! Fee bumping: build a replacement for an already-broadcast transaction
//! at a strictly higher fee, reusing the original's inputs and outputs and
//! taking the increment out of the original's change output.

use vstd::prelude::*;
use vstd::string::StringSliceAdditionalSpecFns;
use vstd::utf8::encode_utf8;

use crate::errors::CreateTxError;
use crate::types::{
    bytes_eq, copy_bytes, ctx_eqv, sum_txout_values, tx_eqv, txout_eqv, CanonicalTx, FeeRate,
    Transaction, TxIn, TxOut, DUST_LIMIT, MAX_MONEY, SEQUENCE_RBF, SEQUENCE_RBF_THRESHOLD,
};
use crate::tx_builder::{
    cand_row_ok, lemma_inputs_sum_from_cands, lemma_sum_cands_nonneg, lemma_sum_cands_take_bound,
    row_of, sum_cands, Candidate, RbfValue, UnsignedTx, RATE_CAP, WEIGHT_BASE, WEIGHT_PER_INPUT,
    WEIGHT_PER_OUTPUT,
};
use crate::types::{LocalOutput, OutPoint};
use crate::wallet::{
    distinct_inputs, has_op, has_txid, inputs_known, lemma_input_sum_bound, sum_input_values,
    txid_of_hex, tx_wf, val_of, valid_hex, Wallet,
};

verus! {

/// Intent to replace one transaction: its identifier in hexadecimal form,
/// the target fee rate, and optional replacement signaling for the new
/// transaction.
#[derive(Clone, Debug)]
pub struct BumpFeeTxBuilder {
    pub txid: String,
    pub fee_rate: FeeRate,
    pub rbf: Option<RbfValue>,
}

/// The fee a rate resolves to for a transaction shape, rounded up.
pub open spec fn rate_fee(rate: int, n_in: int, n_out: int) -> int {
    (rate * (WEIGHT_BASE + WEIGHT_PER_INPUT * n_in + WEIGHT_PER_OUTPUT * n_out) + 999) / 1000
}

/// The stored transaction with the given identifier.
pub open spec fn tx_by_id(txs: Seq<CanonicalTx>, id: crate::types::Txid) -> Transaction {
    txs[choose|i: int| 0 <= i < txs.len() && (#[trigger] txs[i]).transaction.txid == id].transaction
}

/// Some input signals replaceability.
pub open spec fn has_replaceable(ins: Seq<TxIn>) -> bool {
    exists|i: int| 0 <= i < ins.len() && (#[trigger] ins[i]).sequence < SEQUENCE_RBF_THRESHOLD
}

/// A script revealed on the internal (change) keychain.
pub open spec fn owns_internal(w: Wallet, s: Seq<u8>) -> bool {
    exists|i: int|
        0 <= i < w.internal_scripts@.len() && (#[trigger] w.internal_scripts@[i])@ == s
}

/// Index of the first output paying to an internal script, or the length
/// when there is none.
pub open spec fn first_change(w: Wallet, outs: Seq<TxOut>, from: int) -> int
    decreases outs.len() - from,
    when 0 <= from <= outs.len()
{
    if from >= outs.len() {
        outs.len() as int
    } else if owns_internal(w, outs[from].script_pubkey@) {
        from
    } else {
        first_change(w, outs, from + 1)
    }
}

/// The first-change index lies between `from` and the length, nothing
/// before it is a change output, and it is one where it is in range.
pub proof fn lemma_first_change_props(w: Wallet, outs: Seq<TxOut>, from: int)
    requires
        0 <= from <= outs.len(),
    ensures
        from <= first_change(w, outs, from) <= outs.len(),
        forall|k: int|
            from <= k < first_change(w, outs, from) ==> !owns_internal(
                w,
                (#[trigger] outs[k]).script_pubkey@,
            ),
        first_change(w, outs, from) < outs.len() ==> owns_internal(
            w,
            outs[first_change(w, outs, from)].script_pubkey@,
        ),
    decreases outs.len() - from,
{
    if from < outs.len() && !owns_internal(w, outs[from].script_pubkey@) {
        lemma_first_change_props(w, outs, from + 1);
    }
}

/// The original fee of a stored transaction, assuming its inputs are known.
pub open spec fn orig_fee_of(w: Wallet, tx: Transaction) -> int {
    sum_input_values(w.outputs@, tx.inputs@) - sum_txout_values(tx.outputs@)
}

/// Some input of the original consumes this outpoint.
pub open spec fn ins_contain(ins: Seq<TxIn>, op: OutPoint) -> bool {
    exists|i: int| 0 <= i < ins.len() && (#[trigger] ins[i]).previous_output == op
}

/// A row the replacement may add: unspent and not already consumed by the
/// original (the original's own inputs are re-spent, not re-selected).
pub open spec fn bump_eligible(o: LocalOutput, ins: Seq<TxIn>) -> bool {
    !o.is_spent && !ins_contain(ins, o.outpoint)
}

/// The rows a replacement may draw additional inputs from, in output-set
/// order.
pub open spec fn bump_cands(s: Seq<LocalOutput>, ins: Seq<TxIn>) -> Seq<Candidate>
    decreases s.len(),
{
    if s.len() == 0 {
        Seq::empty()
    } else if bump_eligible(s.last(), ins) {
        bump_cands(s.drop_last(), ins).push(
            Candidate { outpoint: s.last().outpoint, value: s.last().value },
        )
    } else {
        bump_cands(s.drop_last(), ins)
    }
}

/// How many candidates the replacement's greedy top-up takes, starting
/// from value `v` and input count `n`: none once the outputs plus the
/// rate's fee are covered, otherwise the next candidate and on.
pub open spec fn bump_sel_count(
    cands: Seq<Candidate>,
    v: int,
    n: int,
    rate: int,
    need: int,
    n_out: int,
) -> int
    decreases cands.len(),
{
    if v >= need + rate_fee(rate, n, n_out) || cands.len() == 0 {
        0
    } else {
        1 + bump_sel_count(cands.skip(1), v + cands[0].value, n + 1, rate, need, n_out)
    }
}

/// The replacement's final input value and count under greedy top-up:
/// the original's inputs plus candidates until covered.
pub open spec fn bump_sel_total(w: Wallet, tx: Transaction, rate: int) -> (int, int) {
    let cands = bump_cands(w.outputs@, tx.inputs@);
    let v0 = sum_input_values(w.outputs@, tx.inputs@);
    let n0 = tx.inputs@.len() as int;
    let need = sum_txout_values(tx.outputs@);
    let m = bump_sel_count(cands, v0, n0, rate, need, tx.outputs@.len() as int);
    (v0 + sum_cands(cands.take(m)), n0 + m)
}

/// Whether the original's first change output alone can absorb the whole
/// raise and stay at or above dust.
pub open spec fn change_absorbable(w: Wallet, tx: Transaction, target: int) -> bool {
    let j = first_change(w, tx.outputs@, 0);
    j < tx.outputs@.len() && tx.outputs@[j].value >= target - orig_fee_of(w, tx) + DUST_LIMIT
}

/// A longer shape never resolves to a smaller rate fee.
pub proof fn lemma_rate_fee_mono(rate: int, n1: int, n2: int, n_out: int)
    requires
        0 <= rate,
        0 <= n1 <= n2,
        0 <= n_out,
    ensures
        rate_fee(rate, n1, n_out) <= rate_fee(rate, n2, n_out),
{
    let w1 = WEIGHT_BASE + WEIGHT_PER_INPUT * n1 + WEIGHT_PER_OUTPUT * n_out;
    let w2 = WEIGHT_BASE + WEIGHT_PER_INPUT * n2 + WEIGHT_PER_OUTPUT * n_out;
    assert(rate * w1 <= rate * w2) by (nonlinear_arith)
        requires
            0 <= rate,
            w1 <= w2,
    ;
    vstd::arithmetic::div_mod::lemma_div_is_ordered(rate * w1 + 999, rate * w2 + 999, 1000);
}

/// What the replacement's candidate list guarantees: every candidate
/// stands for an unspent row the original does not consume, none repeats
/// an outpoint, and their total stays within the set's total.
pub proof fn lemma_bump_cands_props(s: Seq<LocalOutput>, ins: Seq<TxIn>)
    requires
        crate::wallet::unique_outpoints(s),
    ensures
        forall|i: int|
            0 <= i < bump_cands(s, ins).len() ==> cand_row_ok(s, #[trigger] bump_cands(s, ins)[i])
                && !ins_contain(ins, bump_cands(s, ins)[i].outpoint),
        forall|i: int, j: int|
            0 <= i < j < bump_cands(s, ins).len() ==> (#[trigger] bump_cands(s, ins)[i]).outpoint
                != (#[trigger] bump_cands(s, ins)[j]).outpoint,
        sum_cands(bump_cands(s, ins)) <= crate::types::sum_values(s),
        sum_cands(bump_cands(s, ins)) >= 0,
    decreases s.len(),
{
    lemma_sum_cands_nonneg(bump_cands(s, ins));
    crate::types::lemma_sum_values_nonneg(s);
    if s.len() == 0 {
    } else {
        let s0 = s.drop_last();
        assert(crate::wallet::unique_outpoints(s0)) by {
            assert forall|i: int, j: int|
                0 <= i < j < s0.len() implies (#[trigger] s0[i]).outpoint != (
            #[trigger] s0[j]).outpoint by {
                assert(s[i] == s0[i]);
                assert(s[j] == s0[j]);
            }
        }
        lemma_bump_cands_props(s0, ins);
        let c0 = bump_cands(s0, ins);
        assert forall|i: int| 0 <= i < c0.len() implies cand_row_ok(s, #[trigger] c0[i]) by {
            assert(cand_row_ok(s0, c0[i]));
            let w = choose|k: int|
                0 <= k < s0.len() && (#[trigger] s0[k]).outpoint == c0[i].outpoint;
            assert(s[w] == s0[w]);
            assert(has_op(s, c0[i].outpoint));
            let w2 = choose|k: int| 0 <= k < s.len() && (#[trigger] s[k]).outpoint
                == c0[i].outpoint;
            if w2 != w {
                assert(false);
            }
        }
        if bump_eligible(s.last(), ins) {
            let c = Candidate { outpoint: s.last().outpoint, value: s.last().value };
            assert(cand_row_ok(s, c)) by {
                assert(s[s.len() - 1].outpoint == c.outpoint);
                let w2 = choose|k: int| 0 <= k < s.len() && (#[trigger] s[k]).outpoint
                    == c.outpoint;
                if w2 != s.len() - 1 {
                    assert(false);
                }
            }
            assert forall|i: int| 0 <= i < c0.len() implies (#[trigger] c0[i]).outpoint
                != c.outpoint by {
                assert(cand_row_ok(s0, c0[i]));
                let w = choose|k: int|
                    0 <= k < s0.len() && (#[trigger] s0[k]).outpoint == c0[i].outpoint;
                assert(s[w] == s0[w]);
            }
            assert(bump_cands(s, ins) == c0.push(c));
            assert(c0.push(c).drop_last() =~= c0);
            assert(sum_cands(bump_cands(s, ins)) == sum_cands(c0) + c.value);
            assert(crate::types::sum_values(s) == crate::types::sum_values(s0) + s.last().value);
            assert forall|i: int, j: int|
                0 <= i < j < bump_cands(s, ins).len() implies (
            #[trigger] bump_cands(s, ins)[i]).outpoint != (
            #[trigger] bump_cands(s, ins)[j]).outpoint by {
                if j < c0.len() {
                    assert(bump_cands(s, ins)[i] == c0[i]);
                    assert(bump_cands(s, ins)[j] == c0[j]);
                } else {
                    assert(bump_cands(s, ins)[i] == c0[i]);
                    assert(bump_cands(s, ins)[j] == c);
                }
            }
        } else {
            assert(crate::types::sum_values(s) == crate::types::sum_values(s0) + s.last().value);
        }
    }
}

/// Input sums distribute over concatenation.
proof fn lemma_input_sum_append(outs: Seq<LocalOutput>, a: Seq<TxIn>, b: Seq<TxIn>)
    ensures
        sum_input_values(outs, a + b) == sum_input_values(outs, a) + sum_input_values(outs, b),
    decreases b.len(),
{
    if b.len() == 0 {
        assert(a + b =~= a);
    } else {
        assert((a + b).drop_last() =~= a + b.drop_last());
        lemma_input_sum_append(outs, a, b.drop_last());
        assert((a + b).last() == b.last());
    }
}

/// The error a fee bump reports, if any, in order of precedence: an
/// identifier that is not sixty-four hexadecimal digits; a transaction the
/// wallet does not know, or one with no replaceable input; a transaction
/// whose fee cannot be established against the output set (malformed,
/// unknown inputs, or inputs worth less than outputs); a target rate whose
/// resolved fee does not exceed the original's; and, when neither the
/// original's change output can absorb the raise nor greedy top-up over
/// the wallet's remaining unspent outputs can cover the outputs plus the
/// target fee, insufficient funds.
pub open spec fn bump_err(bu: BumpFeeTxBuilder, w: Wallet) -> Option<CreateTxError> {
    if !valid_hex(encode_utf8(bu.txid@)) {
        Some(CreateTxError::UnknownUtxo)
    } else {
        let id = txid_of_hex(encode_utf8(bu.txid@));
        if !has_txid(w.txs@, id) {
            Some(CreateTxError::TransactionNotFound)
        } else {
            let tx = tx_by_id(w.txs@, id);
            if !has_replaceable(tx.inputs@) {
                Some(CreateTxError::TransactionNotFound)
            } else if !tx_wf(tx) || !inputs_known(w.outputs@, tx.inputs@) || orig_fee_of(w, tx)
                < 0 {
                Some(CreateTxError::UnknownUtxo)
            } else {
                let rate = bu.fee_rate.sat_per_kwu as int;
                let n_out = tx.outputs@.len() as int;
                let target = rate_fee(rate, tx.inputs@.len() as int, n_out);
                if target <= orig_fee_of(w, tx) {
                    Some(CreateTxError::FeeRateTooLow)
                } else if change_absorbable(w, tx, target) {
                    None
                } else {
                    let vn = bump_sel_total(w, tx, rate);
                    if vn.0 < sum_txout_values(tx.outputs@) + rate_fee(rate, vn.1, n_out) {
                        Some(CreateTxError::InsufficientFunds)
                    } else {
                        None
                    }
                }
            }
        }
    }
}

/// The sequence the replacement's inputs carry: replaceable by default.
pub open spec fn bump_sequence(rbf: Option<RbfValue>) -> u32 {
    match rbf {
        None => SEQUENCE_RBF,
        Some(RbfValue::Default) => SEQUENCE_RBF,
        Some(RbfValue::Value(n)) => n,
    }
}

/// Everything a successful bump promises. Always: the original's inputs
/// lead the replacement's input list in order, every input carries the
/// replacement sequence, inputs never repeat an outpoint, value is
/// conserved, and the fee strictly exceeds the original's and never falls
/// below the rate's resolved fee for the final shape. When the original's
/// change output absorbs the raise: the inputs are exactly the original's
/// and only that output shrinks, by exactly the raise, staying at or above
/// dust. Otherwise: the outputs are reused unchanged and the inputs beyond
/// the original's are the replacement candidates in order, greedily topped
/// up, with all spare value going to fee.
pub open spec fn bump_ok(bu: BumpFeeTxBuilder, w: Wallet, t: UnsignedTx) -> bool {
    let id = txid_of_hex(encode_utf8(bu.txid@));
    let tx = tx_by_id(w.txs@, id);
    let rate = bu.fee_rate.sat_per_kwu as int;
    let n_out = tx.outputs@.len() as int;
    let target = rate_fee(rate, tx.inputs@.len() as int, n_out);
    let j = first_change(w, tx.outputs@, 0);
    &&& bump_err(bu, w) is None
    &&& tx.inputs@.len() <= t.inputs@.len()
    &&& forall|i: int|
        0 <= i < tx.inputs@.len() ==> (#[trigger] t.inputs@[i]).previous_output
            == tx.inputs@[i].previous_output
    &&& forall|i: int|
        0 <= i < t.inputs@.len() ==> (#[trigger] t.inputs@[i]).sequence == bump_sequence(bu.rbf)
    &&& distinct_inputs(t.inputs@)
    &&& t.outputs@.len() == tx.outputs@.len()
    &&& sum_input_values(w.outputs@, t.inputs@) == sum_txout_values(t.outputs@) + t.fee
    &&& t.fee > orig_fee_of(w, tx)
    &&& t.fee >= rate_fee(rate, t.inputs@.len() as int, n_out)
    &&& if change_absorbable(w, tx, target) {
        &&& t.inputs@.len() == tx.inputs@.len()
        &&& forall|i: int|
            0 <= i < t.outputs@.len() && i != j ==> txout_eqv(
                #[trigger] t.outputs@[i],
                tx.outputs@[i],
            )
        &&& t.outputs@[j].script_pubkey@ == tx.outputs@[j].script_pubkey@
        &&& t.outputs@[j].value == tx.outputs@[j].value - (target - orig_fee_of(w, tx))
        &&& t.outputs@[j].value >= DUST_LIMIT
        &&& t.fee == target
    } else {
        &&& t.inputs@.len() == bump_sel_total(w, tx, rate).1
        &&& forall|i: int|
            0 <= i < t.outputs@.len() ==> txout_eqv(#[trigger] t.outputs@[i], tx.outputs@[i])
        &&& forall|i: int|
            tx.inputs@.len() <= i < t.inputs@.len() ==> (#[trigger] t.inputs@[i]).previous_output
                == bump_cands(w.outputs@, tx.inputs@)[i - tx.inputs@.len()].outpoint
    }
}

/// Replacing one output's value moves the total by the difference.
proof fn lemma_sum_txout_update(s: Seq<TxOut>, j: int, o: TxOut)
    requires
        0 <= j < s.len(),
        o.script_pubkey@ == s[j].script_pubkey@,
    ensures
        sum_txout_values(s.update(j, o)) == sum_txout_values(s) - s[j].value + o.value,
    decreases s.len(),
{
    if j == s.len() - 1 {
        assert(s.update(j, o).drop_last() =~= s.drop_last());
        assert(s.update(j, o).last() == o);
    } else {
        assert(s.update(j, o).drop_last() =~= s.drop_last().update(j, o));
        lemma_sum_txout_update(s.drop_last(), j, o);
        assert(s.update(j, o).last() == s.last());
    }
}

/// Row-wise equal transaction outputs sum alike.
proof fn lemma_sum_txout_eqv(a: Seq<TxOut>, b: Seq<TxOut>)
    requires
        a.len() == b.len(),
        forall|i: int| 0 <= i < a.len() ==> txout_eqv(#[trigger] a[i], b[i]),
    ensures
        sum_txout_values(a) == sum_txout_values(b),
    decreases a.len(),
{
    if a.len() > 0 {
        assert(txout_eqv(a[a.len() - 1], b[a.len() - 1]));
        lemma_sum_txout_eqv(a.drop_last(), b.drop_last());
    }
}

/// Inputs with equal outpoints consume equal values.
proof fn lemma_sum_inputs_same_ops(outs: Seq<crate::types::LocalOutput>, a: Seq<TxIn>, b: Seq<TxIn>)
    requires
        a.len() == b.len(),
        forall|i: int|
            0 <= i < a.len() ==> (#[trigger] a[i]).previous_output == b[i].previous_output,
    ensures
        sum_input_values(outs, a) == sum_input_values(outs, b),
    decreases a.len(),
{
    if a.len() > 0 {
        assert forall|i: int|
            0 <= i < a.drop_last().len() implies (#[trigger] a.drop_last()[i]).previous_output
            == b.drop_last()[i].previous_output by {
            assert(a[i] == a.drop_last()[i]);
            assert(b[i] == b.drop_last()[i]);
        }
        lemma_sum_inputs_same_ops(outs, a.drop_last(), b.drop_last());
        assert(a.last().previous_output == b.last().previous_output);
    }
}

/// The rate's resolved fee for a shape, when it is at most twice the
/// money supply; nothing otherwise.
fn rate_fee_capped(rate: u64, n_in: usize, n_out: usize) -> (r: Option<u64>)
    requires
        1 <= n_in,
    ensures
        match r {
            Some(f) => f as int == rate_fee(rate as int, n_in as int, n_out as int) && f <= 2
                * MAX_MONEY,
            None => rate_fee(rate as int, n_in as int, n_out as int) > 2 * MAX_MONEY,
        },
{
    if rate > RATE_CAP {
        proof {
            let wt = WEIGHT_BASE + WEIGHT_PER_INPUT * (n_in as int) + WEIGHT_PER_OUTPUT * (
            n_out as int);
            assert(wt >= 312);
            assert((rate as int) * wt >= (RATE_CAP + 1) * 312) by (nonlinear_arith)
                requires
                    rate as int >= RATE_CAP + 1,
                    wt >= 312,
            ;
        }
        None
    } else {
        let wt: u128 = (WEIGHT_BASE as u128) + (WEIGHT_PER_INPUT as u128) * (n_in as u128) + (
        WEIGHT_PER_OUTPUT as u128) * (n_out as u128);
        proof {
            assert(wt as int == WEIGHT_BASE + WEIGHT_PER_INPUT * (n_in as int)
                + WEIGHT_PER_OUTPUT * (n_out as int));
            assert(wt < 0x200_0000_0000_0000_0000u128);
            assert((rate as int) * (wt as int) <= 0x0080_0000_0000_0000i128 * (
            0x200_0000_0000_0000_0000i128 - 1)) by (nonlinear_arith)
                requires
                    0 <= rate as int <= 0x0080_0000_0000_0000i128,
                    0 <= wt as int <= 0x200_0000_0000_0000_0000i128 - 1,
            ;
        }
        let fee: u128 = ((rate as u128) * wt + 999) / 1000;
        if fee > (2 * MAX_MONEY) as u128 {
            None
        } else {
            Some(fee as u64)
        }
    }
}

/// No two inputs repeat an outpoint.
fn txins_distinct_check(v: &Vec<TxIn>) -> (r: bool)
    ensures
        r == distinct_inputs(v@),
{
    let mut i: usize = 0;
    while i < v.len()
        invariant
            0 <= i <= v@.len(),
            forall|x: int, y: int|
                0 <= x < y < i ==> (#[trigger] v@[x]).previous_output != (
                #[trigger] v@[y]).previous_output,
        decreases v@.len() - i,
    {
        let mut j: usize = 0;
        while j < i
            invariant
                0 <= j <= i < v@.len(),
                forall|x: int|
                    0 <= x < j ==> (#[trigger] v@[x]).previous_output
                        != v@[i as int].previous_output,
            decreases i - j,
        {
            if v[j].previous_output == v[i].previous_output {
                return false;
            }
            j += 1;
        }
        i += 1;
    }
    true
}

/// The outputs' total stays within the money supply.
fn txouts_within_supply(v: &Vec<TxOut>) -> (r: bool)
    ensures
        r == (sum_txout_values(v@) <= MAX_MONEY),
{
    let mut acc: u128 = 0;
    let mut i: usize = 0;
    while i < v.len()
        invariant
            0 <= i <= v@.len(),
            acc as int == sum_txout_values(v@.take(i as int)),
            acc <= MAX_MONEY as u128,
        decreases v@.len() - i,
    {
        proof {
            assert(v@.take(i + 1).drop_last() =~= v@.take(i as int));
            assert(v@.take(i + 1).last() == v@[i as int]);
        }
        acc = acc + (v[i].value as u128);
        if acc > MAX_MONEY as u128 {
            proof {
                crate::types::lemma_sum_txout_take_bound(v@, i + 1);
            }
            return false;
        }
        i += 1;
    }
    proof {
        assert(v@.take(v@.len() as int) =~= v@);
    }
    true
}

/// One output's value never exceeds the outputs' total.
proof fn lemma_txout_elem_bound(s: Seq<TxOut>, j: int)
    requires
        0 <= j < s.len(),
    ensures
        s[j].value <= sum_txout_values(s),
    decreases s.len(),
{
    crate::types::lemma_sum_txout_nonneg(s.drop_last());
    if j < s.len() - 1 {
        lemma_txout_elem_bound(s.drop_last(), j);
    }
}

/// Whether any input in the list consumes this outpoint.
fn contains_input_op(v: &Vec<TxIn>, op: OutPoint) -> (r: bool)
    ensures
        r == ins_contain(v@, op),
{
    let mut i: usize = 0;
    while i < v.len()
        invariant
            0 <= i <= v@.len(),
            forall|k: int| 0 <= k < i ==> (#[trigger] v@[k]).previous_output != op,
        decreases v@.len() - i,
    {
        if v[i].previous_output == op {
            return true;
        }
        i += 1;
    }
    false
}

/// Whether value `v` with `n_in` inputs covers `need` plus the rate's
/// resolved fee for the shape.
fn bump_covered_exec(rate: u64, v: u64, n_in: usize, n_out: usize, need: u64) -> (r: bool)
    requires
        1 <= n_in,
        v <= 2 * MAX_MONEY,
        need <= MAX_MONEY,
    ensures
        r == (v as int >= need + rate_fee(rate as int, n_in as int, n_out as int)),
{
    if rate > RATE_CAP {
        proof {
            let wt = WEIGHT_BASE + WEIGHT_PER_INPUT * (n_in as int) + WEIGHT_PER_OUTPUT * (
            n_out as int);
            assert(wt >= 312);
            assert((rate as int) * wt >= (RATE_CAP + 1) * 312) by (nonlinear_arith)
                requires
                    rate as int >= RATE_CAP + 1,
                    wt >= 312,
            ;
        }
        false
    } else {
        let wt: u128 = (WEIGHT_BASE as u128) + (WEIGHT_PER_INPUT as u128) * (n_in as u128) + (
        WEIGHT_PER_OUTPUT as u128) * (n_out as u128);
        proof {
            assert(wt as int == WEIGHT_BASE + WEIGHT_PER_INPUT * (n_in as int)
                + WEIGHT_PER_OUTPUT * (n_out as int));
            assert(wt < 0x200_0000_0000_0000_0000u128);
            assert((rate as int) * (wt as int) <= 0x0080_0000_0000_0000i128 * (
            0x200_0000_0000_0000_0000i128 - 1)) by (nonlinear_arith)
                requires
                    0 <= rate as int <= 0x0080_0000_0000_0000i128,
                    0 <= wt as int <= 0x200_0000_0000_0000_0000i128 - 1,
            ;
        }
        let fee: u128 = ((rate as u128) * wt + 999) / 1000;
        (v as u128) >= (need as u128) + fee
    }
}

/// Whether a script was revealed on the internal keychain.
fn owns_internal_exec(w: &Wallet, script: &Vec<u8>) -> (r: bool)
    ensures
        r == owns_internal(*w, script@),
{
    let mut i: usize = 0;
    while i < w.internal_scripts.len()
        invariant
            0 <= i <= w.internal_scripts@.len(),
            forall|k: int|
                0 <= k < i ==> (#[trigger] w.internal_scripts@[k])@ != script@,
        decreases w.internal_scripts@.len() - i,
    {
        if bytes_eq(&w.internal_scripts[i], script) {
            return true;
        }
        i += 1;
    }
    false
}

impl BumpFeeTxBuilder {
    /// Intent to bump the transaction with this identifier to this rate.
    pub fn new(txid: String, fee_rate: FeeRate) -> (r: BumpFeeTxBuilder)
        ensures
            r.txid@ == txid@,
            r.fee_rate == fee_rate,
            r.rbf is None,
    {
        BumpFeeTxBuilder { txid, fee_rate, rbf: None }
    }

    /// Signal replaceability with the library-defined sequence.
    pub fn enable_rbf(self) -> (r: BumpFeeTxBuilder)
        ensures
            r == (BumpFeeTxBuilder { rbf: Some(RbfValue::Default), ..self }),
    {
        BumpFeeTxBuilder { rbf: Some(RbfValue::Default), ..self }
    }

    /// Signal replaceability with an explicit sequence value.
    pub fn enable_rbf_with_sequence(self, nsequence: u32) -> (r: BumpFeeTxBuilder)
        ensures
            r == (BumpFeeTxBuilder { rbf: Some(RbfValue::Value(nsequence)), ..self }),
    {
        BumpFeeTxBuilder { rbf: Some(RbfValue::Value(nsequence)), ..self }
    }
}


impl BumpFeeTxBuilder {
    /// Build the replacement: resolve the original by id, require a
    /// replaceable input and an establishable original fee, resolve the
    /// target fee from the rate, and take the increase out of the first
    /// change output. Reads the wallet only.
    #[verifier::rlimit(100)]
    pub fn finish(&self, wallet: &Wallet) -> (r: Result<UnsignedTx, CreateTxError>)
        requires
            wallet.wf(),
        ensures
            r is Err <==> bump_err(*self, *wallet) is Some,
            r matches Err(e) ==> bump_err(*self, *wallet) == Some(e),
            r matches Ok(t) ==> bump_ok(*self, *wallet, t),
    {
        let ghost idg = txid_of_hex(encode_utf8(self.txid@));
        let c = match wallet.get_tx(self.txid.as_str()) {
            Err(_) => {
                return Err(CreateTxError::UnknownUtxo);
            },
            Ok(None) => {
                return Err(CreateTxError::TransactionNotFound);
            },
            Ok(Some(c)) => c,
        };
        let ghost stored = tx_by_id(wallet.txs@, idg);
        proof {
            let i = choose|i: int|
                0 <= i < wallet.txs@.len() && (#[trigger] wallet.txs@[i]).transaction.txid == idg
                    && ctx_eqv(c, wallet.txs@[i]);
            let i2 = choose|i: int|
                0 <= i < wallet.txs@.len() && (#[trigger] wallet.txs@[i]).transaction.txid == idg;
            if i != i2 {
                assert(false);
            }
            assert(tx_eqv(c.transaction, stored));
        }
        let tx = &c.transaction;
        // The original must signal replaceability on some input.
        let mut found: bool = false;
        let mut ri: usize = 0;
        while ri < tx.inputs.len()
            invariant
                tx == &c.transaction,
                0 <= ri <= tx.inputs@.len(),
                found == exists|k: int|
                    0 <= k < ri && (#[trigger] tx.inputs@[k]).sequence < SEQUENCE_RBF_THRESHOLD,
            decreases tx.inputs@.len() - ri,
        {
            if tx.inputs[ri].sequence < SEQUENCE_RBF_THRESHOLD {
                found = true;
            }
            ri += 1;
        }
        if !found {
            proof {
                assert(!has_replaceable(stored.inputs@));
            }
            return Err(CreateTxError::TransactionNotFound);
        }
        proof {
            assert(has_replaceable(stored.inputs@));
            lemma_sum_txout_eqv(tx.outputs@, stored.outputs@);
        }
        // The original fee must be establishable against the output set.
        if tx.weight < 1 {
            return Err(CreateTxError::UnknownUtxo);
        }
        if !txins_distinct_check(&tx.inputs) {
            return Err(CreateTxError::UnknownUtxo);
        }
        if !txouts_within_supply(&tx.outputs) {
            return Err(CreateTxError::UnknownUtxo);
        }
        let orig_fee = match wallet.calculate_fee(tx) {
            Ok(f) => f,
            Err(_) => {
                return Err(CreateTxError::UnknownUtxo);
            },
        };
        proof {
            crate::wallet::lemma_input_sum_bound(wallet.outputs@, stored.inputs@);
            crate::types::lemma_sum_txout_nonneg(stored.outputs@);
        }
        // The outputs' total, used by both paths below.
        let mut outsum: u64 = 0;
        let mut osi: usize = 0;
        while osi < tx.outputs.len()
            invariant
                tx == &c.transaction,
                sum_txout_values(tx.outputs@) <= MAX_MONEY,
                0 <= osi <= tx.outputs@.len(),
                outsum as int == sum_txout_values(tx.outputs@.take(osi as int)),
                outsum <= MAX_MONEY,
            decreases tx.outputs@.len() - osi,
        {
            proof {
                assert(tx.outputs@.take(osi + 1).drop_last() =~= tx.outputs@.take(osi as int));
                assert(tx.outputs@.take(osi + 1).last() == tx.outputs@[osi as int]);
                crate::types::lemma_sum_txout_take_bound(tx.outputs@, osi + 1);
                crate::types::lemma_sum_txout_nonneg(tx.outputs@.take(osi + 1));
            }
            outsum = outsum + tx.outputs[osi].value;
            osi += 1;
        }
        proof {
            assert(tx.outputs@.take(tx.outputs@.len() as int) =~= tx.outputs@);
        }
        // Resolve the target fee; it must exceed the original fee.
        let n_in = tx.inputs.len();
        let n_out = tx.outputs.len();
        let rate = self.fee_rate.sat_per_kwu;
        let ghost rateg = rate as int;
        let ghost target_spec = rate_fee(rateg, stored.inputs@.len() as int, stored.outputs@.len() as int);
        let target_opt = rate_fee_capped(rate, n_in, n_out);
        match target_opt {
            Some(f) => {
                if f <= orig_fee {
                    return Err(CreateTxError::FeeRateTooLow);
                }
            },
            None => {
                // a fee beyond twice the money supply certainly exceeds
                // the original's, which the money supply bounds
            },
        }
        // Find the first change output.
        let mut j: usize = 0;
        while j < tx.outputs.len() && !owns_internal_exec(wallet, &tx.outputs[j].script_pubkey)
            invariant
                tx == &c.transaction,
                tx_eqv(c.transaction, stored),
                0 <= j <= tx.outputs@.len(),
                forall|k: int|
                    0 <= k < j ==> !owns_internal(
                        *wallet,
                        (#[trigger] stored.outputs@[k]).script_pubkey@,
                    ),
            decreases tx.outputs@.len() - j,
        {
            proof {
                assert(txout_eqv(tx.outputs@[j as int], stored.outputs@[j as int]));
            }
            j += 1;
        }
        proof {
            lemma_first_change_props(*wallet, stored.outputs@, 0);
            assert(j as int == first_change(*wallet, stored.outputs@, 0)) by {
                let fc = first_change(*wallet, stored.outputs@, 0);
                if (j as int) < tx.outputs@.len() {
                    assert(txout_eqv(tx.outputs@[j as int], stored.outputs@[j as int]));
                    assert(owns_internal(*wallet, stored.outputs@[j as int].script_pubkey@));
                }
                if (j as int) < fc {
                    assert(owns_internal(*wallet, stored.outputs@[j as int].script_pubkey@));
                }
                if fc < j as int {
                    assert(!owns_internal(*wallet, stored.outputs@[fc].script_pubkey@));
                }
            }
        }
        // Can the change output alone absorb the raise?
        let absorbable: bool = if j < tx.outputs.len() {
            proof {
                assert(txout_eqv(tx.outputs@[j as int], stored.outputs@[j as int]));
            }
            match target_opt {
                Some(f) => tx.outputs[j].value >= (f - orig_fee) + DUST_LIMIT,
                None => {
                    proof {
                        lemma_txout_elem_bound(stored.outputs@, j as int);
                    }
                    false
                },
            }
        } else {
            false
        };
        proof {
            assert(absorbable == change_absorbable(*wallet, stored, target_spec));
        }
        // Inputs: the original's, re-signaled; the top-up path appends.
        let sequence: u32 = match &self.rbf {
            None => SEQUENCE_RBF,
            Some(RbfValue::Default) => SEQUENCE_RBF,
            Some(RbfValue::Value(nseq)) => *nseq,
        };
        let mut inputs: Vec<TxIn> = Vec::new();
        let mut ii: usize = 0;
        while ii < tx.inputs.len()
            invariant
                tx == &c.transaction,
                0 <= ii <= tx.inputs@.len(),
                inputs@.len() == ii,
                forall|k: int|
                    0 <= k < ii ==> (#[trigger] inputs@[k]).previous_output
                        == tx.inputs@[k].previous_output && inputs@[k].sequence == sequence,
            decreases tx.inputs@.len() - ii,
        {
            inputs.push(TxIn { previous_output: tx.inputs[ii].previous_output, sequence });
            ii += 1;
        }
        if absorbable {
            // Reduce the change output by exactly the raise.
            let target: u64 = match target_opt {
                Some(f) => f,
                None => {
                    proof {
                        assert(false);
                    }
                    0
                },
            };
            let delta = target - orig_fee;
            let mut outputs: Vec<TxOut> = Vec::new();
            let mut oi: usize = 0;
            while oi < tx.outputs.len()
                invariant
                    tx == &c.transaction,
                    j < tx.outputs@.len(),
                    tx.outputs@[j as int].value >= delta + DUST_LIMIT,
                    0 <= oi <= tx.outputs@.len(),
                    outputs@.len() == oi,
                    forall|k: int|
                        0 <= k < oi && k != j ==> txout_eqv(#[trigger] outputs@[k], tx.outputs@[k]),
                    oi > j ==> outputs@[j as int].script_pubkey@
                        == tx.outputs@[j as int].script_pubkey@ && outputs@[j as int].value
                        == tx.outputs@[j as int].value - delta,
                decreases tx.outputs@.len() - oi,
            {
                if oi == j {
                    outputs.push(
                        TxOut {
                            script_pubkey: copy_bytes(&tx.outputs[oi].script_pubkey),
                            value: tx.outputs[oi].value - delta,
                        },
                    );
                } else {
                    outputs.push(
                        TxOut {
                            script_pubkey: copy_bytes(&tx.outputs[oi].script_pubkey),
                            value: tx.outputs[oi].value,
                        },
                    );
                }
                oi += 1;
            }
            let t = UnsignedTx { inputs, outputs, fee: target };
            proof {
                lemma_sum_inputs_same_ops(wallet.outputs@, t.inputs@, stored.inputs@);
                let reduced = TxOut {
                    script_pubkey: t.outputs@[j as int].script_pubkey,
                    value: (stored.outputs@[j as int].value - delta) as u64,
                };
                assert forall|k: int| 0 <= k < t.outputs@.len() implies txout_eqv(
                    #[trigger] t.outputs@[k],
                    stored.outputs@.update(j as int, reduced)[k],
                ) by {
                    if k != j as int {
                        assert(txout_eqv(t.outputs@[k], c.transaction.outputs@[k]));
                        assert(txout_eqv(c.transaction.outputs@[k], stored.outputs@[k]));
                    }
                }
                lemma_sum_txout_eqv(t.outputs@, stored.outputs@.update(j as int, reduced));
                assert(reduced.script_pubkey@ == stored.outputs@[j as int].script_pubkey@);
                lemma_sum_txout_update(stored.outputs@, j as int, reduced);
                assert forall|x: int, y: int|
                    0 <= x < y < t.inputs@.len() implies (#[trigger] t.inputs@[x]).previous_output
                    != (#[trigger] t.inputs@[y]).previous_output by {
                    assert(t.inputs@[x].previous_output == stored.inputs@[x].previous_output);
                    assert(t.inputs@[y].previous_output == stored.inputs@[y].previous_output);
                }
            }
            return Ok(t);
        }
        // Top-up: keep every output, add eligible unspent outputs until
        // the outputs plus the target fee are covered.
        let ghost candsv = bump_cands(wallet.outputs@, stored.inputs@);
        let mut cands: Vec<Candidate> = Vec::new();
        let mut ci: usize = 0;
        proof {
            assert(tx.inputs@ == stored.inputs@);
        }
        while ci < wallet.outputs.len()
            invariant
                tx == &c.transaction,
                tx.inputs@ == stored.inputs@,
                candsv == bump_cands(wallet.outputs@, stored.inputs@),
                0 <= ci <= wallet.outputs@.len(),
                cands@ == bump_cands(wallet.outputs@.take(ci as int), stored.inputs@),
            decreases wallet.outputs@.len() - ci,
        {
            proof {
                assert(wallet.outputs@.take(ci + 1).drop_last() =~= wallet.outputs@.take(
                    ci as int,
                ));
                assert(wallet.outputs@.take(ci + 1).last() == wallet.outputs@[ci as int]);
            }
            let o = &wallet.outputs[ci];
            if !o.is_spent && !contains_input_op(&tx.inputs, o.outpoint) {
                cands.push(Candidate { outpoint: o.outpoint, value: o.value });
            }
            ci += 1;
        }
        proof {
            assert(wallet.outputs@.take(wallet.outputs@.len() as int) =~= wallet.outputs@);
            assert(cands@ == candsv);
            lemma_bump_cands_props(wallet.outputs@, stored.inputs@);
        }
        let mut v: u64 = outsum + orig_fee;
        let ghost v0 = v as int;
        proof {
            assert(v0 == sum_input_values(wallet.outputs@, stored.inputs@));
            assert(candsv.skip(0) =~= candsv);
            assert(candsv.take(0) =~= Seq::<Candidate>::empty());
        }
        let mut m: usize = 0;
        while m < cands.len() && !bump_covered_exec(rate, v, inputs.len(), n_out, outsum)
            invariant
                cands@ == candsv,
                rateg == rate as int,
                1 <= stored.inputs@.len(),
                n_out == stored.outputs@.len(),
                outsum as int == sum_txout_values(stored.outputs@),
                outsum <= MAX_MONEY,
                v0 <= MAX_MONEY,
                0 <= v0,
                sum_cands(candsv) <= MAX_MONEY,
                0 <= m <= candsv.len(),
                inputs@.len() == stored.inputs@.len() + m,
                forall|k: int|
                    0 <= k < stored.inputs@.len() ==> (#[trigger] inputs@[k]).previous_output
                        == stored.inputs@[k].previous_output && inputs@[k].sequence == sequence,
                forall|k: int|
                    0 <= k < m ==> (#[trigger] inputs@[stored.inputs@.len() + k]).previous_output
                        == candsv[k].outpoint && inputs@[stored.inputs@.len() + k].sequence
                        == sequence,
                v as int == v0 + sum_cands(candsv.take(m as int)),
                v <= 2 * MAX_MONEY,
                bump_sel_count(candsv, v0, stored.inputs@.len() as int, rateg, outsum as int, n_out as int)
                    == m + bump_sel_count(
                    candsv.skip(m as int),
                    v as int,
                    stored.inputs@.len() + m,
                    rateg,
                    outsum as int,
                    n_out as int,
                ),
            decreases candsv.len() - m,
        {
            proof {
                assert(candsv.skip(m as int).len() > 0);
                assert(candsv.skip(m as int)[0] == candsv[m as int]);
                assert(candsv.skip(m as int).skip(1) =~= candsv.skip(m + 1));
                assert(candsv.take(m + 1).drop_last() =~= candsv.take(m as int));
                assert(candsv.take(m + 1).last() == candsv[m as int]);
                lemma_sum_cands_take_bound(candsv, m + 1);
                lemma_sum_cands_nonneg(candsv.take(m as int));
            }
            inputs.push(TxIn { previous_output: cands[m].outpoint, sequence });
            v = v + cands[m].value;
            m += 1;
        }
        proof {
            if m == candsv.len() {
                assert(candsv.skip(m as int) =~= Seq::<Candidate>::empty());
            }
            assert(m as int == bump_sel_count(
                candsv,
                v0,
                stored.inputs@.len() as int,
                rateg,
                outsum as int,
                n_out as int,
            ));
        }
        if !bump_covered_exec(rate, v, inputs.len(), n_out, outsum) {
            proof {
                assert(bump_sel_total(*wallet, stored, rateg) == (v as int, stored.inputs@.len() + m as int));
            }
            return Err(CreateTxError::InsufficientFunds);
        }
        let fee = v - outsum;
        let mut outputs: Vec<TxOut> = Vec::new();
        let mut oi: usize = 0;
        while oi < tx.outputs.len()
            invariant
                tx == &c.transaction,
                0 <= oi <= tx.outputs@.len(),
                outputs@.len() == oi,
                forall|k: int|
                    0 <= k < oi ==> txout_eqv(#[trigger] outputs@[k], tx.outputs@[k]),
            decreases tx.outputs@.len() - oi,
        {
            outputs.push(
                TxOut {
                    script_pubkey: copy_bytes(&tx.outputs[oi].script_pubkey),
                    value: tx.outputs[oi].value,
                },
            );
            oi += 1;
        }
        let t = UnsignedTx { inputs, outputs, fee };
        proof {
            let n0 = stored.inputs@.len() as int;
            assert(sequence == bump_sequence(self.rbf));
            assert forall|i2: int| 0 <= i2 < t.inputs@.len() implies (
            #[trigger] t.inputs@[i2]).sequence == sequence by {
                if i2 >= n0 {
                    let k = i2 - n0;
                    assert(t.inputs@[stored.inputs@.len() + k].sequence == sequence);
                } else {
                    assert(t.inputs@[i2].sequence == sequence);
                }
            }
            // conservation: prefix consumes what the original did, the
            // suffix consumes the selected candidates
            let pre = t.inputs@.take(n0);
            let suf = t.inputs@.skip(n0);
            assert(t.inputs@ =~= pre + suf);
            lemma_input_sum_append(wallet.outputs@, pre, suf);
            assert forall|k: int| 0 <= k < pre.len() implies (#[trigger] pre[k]).previous_output
                == stored.inputs@[k].previous_output by {
                assert(pre[k] == t.inputs@[k]);
            }
            lemma_sum_inputs_same_ops(wallet.outputs@, pre, stored.inputs@);
            assert forall|k: int| 0 <= k < suf.len() implies (#[trigger] suf[k]).previous_output
                == candsv.take(m as int)[k].outpoint by {
                assert(suf[k] == t.inputs@[n0 + k]);
                assert(candsv.take(m as int)[k] == candsv[k]);
            }
            assert forall|k: int|
                0 <= k < candsv.take(m as int).len() implies val_of(
                wallet.outputs@,
                (#[trigger] candsv.take(m as int)[k]).outpoint,
            ) == candsv.take(m as int)[k].value as int by {
                assert(candsv.take(m as int)[k] == candsv[k]);
                assert(cand_row_ok(wallet.outputs@, candsv[k]));
            }
            lemma_inputs_sum_from_cands(wallet.outputs@, candsv.take(m as int), suf);
            lemma_sum_txout_eqv(t.outputs@, stored.outputs@);
            // fee floor and strict increase
            lemma_rate_fee_mono(rateg, n0, n0 + m as int, n_out as int);
            assert(rate_fee(rateg, n0, n_out as int) > orig_fee as int) by {
                if rate_fee(rateg, n0, n_out as int) <= orig_fee as int {
                    match target_opt {
                        Some(f) => {
                            assert(false);
                        },
                        None => {
                            assert(false);
                        },
                    }
                }
            }
            // inputs never repeat an outpoint
            assert forall|x: int, y: int|
                0 <= x < y < t.inputs@.len() implies (#[trigger] t.inputs@[x]).previous_output
                != (#[trigger] t.inputs@[y]).previous_output by {
                if x < n0 && y < n0 {
                    assert(t.inputs@[x].previous_output == stored.inputs@[x].previous_output);
                    assert(t.inputs@[y].previous_output == stored.inputs@[y].previous_output);
                } else if x < n0 && y >= n0 {
                    assert(t.inputs@[x].previous_output == stored.inputs@[x].previous_output);
                    assert(t.inputs@[y].previous_output == candsv[y - n0].outpoint);
                    assert(!ins_contain(stored.inputs@, candsv[y - n0].outpoint));
                } else {
                    assert(t.inputs@[x].previous_output == candsv[x - n0].outpoint);
                    assert(t.inputs@[y].previous_output == candsv[y - n0].outpoint);
                }
            }
            assert(bump_sel_total(*wallet, stored, rateg) == (v as int, n0 + m as int));
        }
        Ok(t)
    }
}


} // verus!
