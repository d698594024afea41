//! The engine's cross-cutting guarantees, stated and proved once: address
//! indices climb without gaps, feasible builds succeed with the exact fee,
//! short manual selections fail, persisted state survives a round trip,
//! and independent manual builds never contend for an input.

use vstd::prelude::*;

use crate::errors::CreateTxError;
use crate::store::ChangeSet;
use crate::tx_builder::{
    cands_of, dedup_ops, explicit_ok, finish_err, finish_ok, has_dust_recipient,
    lemma_cands_of_props, lemma_sel_count_range, ops_value, policy_admits, resolved_fee, row_of,
    sel_count, sel_total, weight_units, TxBuilder, UnsignedTx,
};
use crate::types::{
    ctxs_eqv, out_eqv, outs_eqv, sum_amounts, AddressInfo, KeychainKind, DUST_LIMIT,
};
use crate::wallet::{cs_matches, loaded_from, Wallet};

verus! {

/// One reveal call's effect on a keychain, as the wallet contract states
/// it: the call returns the current high-water index and raises it by one.
pub open spec fn reveal_step(pre: Wallet, post: Wallet, k: KeychainKind, info: AddressInfo) -> bool {
    info.index == pre.next_index(k) && post.next_index(k) as int == pre.next_index(k) as int + 1
}

/// After j reveal steps the high-water index has risen by exactly j.
proof fn lemma_reveal_chain(ws: Seq<Wallet>, infos: Seq<AddressInfo>, k: KeychainKind, j: int)
    requires
        ws.len() == infos.len() + 1,
        forall|i: int|
            0 <= i < infos.len() ==> reveal_step(ws[i], ws[i + 1], k, #[trigger] infos[i]),
        0 <= j <= infos.len(),
    ensures
        ws[j].next_index(k) as int == ws[0].next_index(k) as int + j,
    decreases j,
{
    if j > 0 {
        lemma_reveal_chain(ws, infos, k, j - 1);
        assert(reveal_step(ws[j - 1], ws[j], k, infos[j - 1]));
    }
}

/// Revealing addresses repeatedly on one keychain yields strictly
/// increasing derivation indices with no gaps: the j-th call returns the
/// starting index plus j, so no index repeats and none is skipped.
pub proof fn lemma_reveal_indices(ws: Seq<Wallet>, infos: Seq<AddressInfo>, k: KeychainKind)
    requires
        ws.len() == infos.len() + 1,
        forall|i: int|
            0 <= i < infos.len() ==> reveal_step(ws[i], ws[i + 1], k, #[trigger] infos[i]),
    ensures
        forall|j: int|
            0 <= j < infos.len() ==> (#[trigger] infos[j]).index as int == ws[0].next_index(
                k,
            ) as int + j,
        forall|i: int, j: int|
            0 <= i < j < infos.len() ==> (#[trigger] infos[i]).index < (#[trigger] infos[j]).index,
{
    assert forall|j: int| 0 <= j < infos.len() implies (#[trigger] infos[j]).index as int
        == ws[0].next_index(k) as int + j by {
        lemma_reveal_chain(ws, infos, k, j);
        assert(reveal_step(ws[j], ws[j + 1], k, infos[j]));
    }
}

/// A build whose recipients, inclusions and policy pass the structural
/// checks, whose fee intent is an absolute fee, and whose selected funds
/// reach the recipients' total plus that fee, succeeds; and a successful
/// build with an absolute fee and a spare-value output pays exactly that
/// fee.
pub proof fn lemma_feasible_absolute_build_succeeds(b: TxBuilder, w: Wallet, fee: u64)
    requires
        b.fee_absolute == Some(fee),
        b.drain_to is None,
        b.recipients@.len() > 0,
        !has_dust_recipient(b),
        explicit_ok(w.outputs@, dedup_ops(b.utxos@)),
        !(b.manually_selected_only && dedup_ops(b.utxos@).len() == 0),
        b.manually_selected_only || b.change_policy is ChangeAllowed
            || crate::tx_builder::policy_has_candidate(w.outputs@, b.change_policy),
        sel_total(b, w).0 >= sum_amounts(b.recipients@) + fee,
    ensures
        finish_err(b, w) is None,
{
    assert(resolved_fee(b, sel_total(b, w).1, b.recipients@.len() as int + 1) == fee);
}

/// A successful build with an absolute fee pays exactly that fee whenever
/// a spare-value output exists, and otherwise overshoots it by less than
/// the dust threshold.
pub proof fn lemma_absolute_fee_exact(b: TxBuilder, w: Wallet, t: UnsignedTx, fee: u64)
    requires
        finish_ok(b, w, t),
        b.fee_absolute == Some(fee),
    ensures
        t.outputs@.len() == b.recipients@.len() + 1 ==> t.fee == fee,
        t.fee >= fee,
        t.fee < fee + DUST_LIMIT,
{
    assert(resolved_fee(b, sel_total(b, w).1, b.recipients@.len() as int + 1) == fee);
}

/// A successful rate-based build never pays below the requested rate: the
/// fee times a thousand covers the rate times the estimated weight.
pub proof fn lemma_rate_floor(b: TxBuilder, w: Wallet, t: UnsignedTx, rate: u64)
    requires
        finish_ok(b, w, t),
        b.fee_absolute is None,
        b.fee_rate == Some(crate::types::FeeRate { sat_per_kwu: rate }),
    ensures
        t.fee * 1000 >= rate * weight_units(sel_total(b, w).1, b.recipients@.len() as int + 1),
{
    let wt = weight_units(sel_total(b, w).1, b.recipients@.len() as int + 1);
    let x = rate * wt;
    let q = (x + 999) / 1000;
    assert(q * 1000 >= x) by (nonlinear_arith)
        requires
            q == (x + 999) / 1000,
    ;
    assert(t.fee >= q);
    assert(t.fee * 1000 >= q * 1000) by (nonlinear_arith)
        requires
            t.fee >= q,
    ;
}

/// Manual selection whose explicit inputs fall short of the recipients'
/// total plus the resolved fee fails with `InsufficientFunds`; with
/// explicit inputs worth exactly that total, the build succeeds with no
/// spare-value output at all.
pub proof fn lemma_manual_short_fails(b: TxBuilder, w: Wallet, fee: u64)
    requires
        b.fee_absolute == Some(fee),
        b.drain_to is None,
        b.manually_selected_only,
        b.recipients@.len() > 0,
        !has_dust_recipient(b),
        explicit_ok(w.outputs@, dedup_ops(b.utxos@)),
        dedup_ops(b.utxos@).len() > 0,
        ops_value(w.outputs@, dedup_ops(b.utxos@)) < sum_amounts(b.recipients@) + fee,
    ensures
        finish_err(b, w) == Some(CreateTxError::InsufficientFunds),
{
    assert(sel_total(b, w).0 == ops_value(w.outputs@, dedup_ops(b.utxos@)));
    assert(resolved_fee(b, sel_total(b, w).1, b.recipients@.len() as int + 1) == fee);
}

/// Exactly covering funds leave nothing spare: the built transaction has
/// no change output and pays exactly the absolute fee.
pub proof fn lemma_exact_cover_no_change(b: TxBuilder, w: Wallet, t: UnsignedTx, fee: u64)
    requires
        finish_ok(b, w, t),
        b.fee_absolute == Some(fee),
        b.drain_to is None,
        sel_total(b, w).0 == sum_amounts(b.recipients@) + fee,
    ensures
        t.outputs@.len() == b.recipients@.len(),
        t.fee == fee,
{
    let nrec = b.recipients@.len() as int;
    assert(resolved_fee(b, sel_total(b, w).1, nrec + 1) == fee);
    if t.outputs@.len() == nrec + 1 {
        assert(crate::types::sum_txout_values(t.outputs@) == sum_amounts(b.recipients@)
            + t.outputs@.last().value) by {
            lemma_rec_prefix_sum(b, t);
        }
        assert(t.outputs@.last().value >= DUST_LIMIT);
        assert(false);
    } else {
        lemma_rec_prefix_sum_full(b, t);
    }
}

/// The first `recipients.len()` outputs of a successful build sum to the
/// recipients' total; with one spare output the total gains its value.
proof fn lemma_rec_prefix_sum(b: TxBuilder, t: UnsignedTx)
    requires
        t.outputs@.len() == b.recipients@.len() + 1,
        forall|i: int|
            0 <= i < b.recipients@.len() ==> (#[trigger] t.outputs@[i]).value
                == b.recipients@[i].amount,
    ensures
        crate::types::sum_txout_values(t.outputs@) == sum_amounts(b.recipients@)
            + t.outputs@.last().value,
{
    lemma_txout_vs_amounts(t.outputs@.drop_last(), b.recipients@);
}

/// With no spare output the totals agree outright.
proof fn lemma_rec_prefix_sum_full(b: TxBuilder, t: UnsignedTx)
    requires
        t.outputs@.len() == b.recipients@.len(),
        forall|i: int|
            0 <= i < b.recipients@.len() ==> (#[trigger] t.outputs@[i]).value
                == b.recipients@[i].amount,
    ensures
        crate::types::sum_txout_values(t.outputs@) == sum_amounts(b.recipients@),
{
    lemma_txout_vs_amounts(t.outputs@, b.recipients@);
}

/// Outputs carrying the recipients' amounts sum to the recipients' total.
proof fn lemma_txout_vs_amounts(outs: Seq<crate::types::TxOut>, recs: Seq<crate::types::ScriptAmount>)
    requires
        outs.len() == recs.len(),
        forall|i: int| 0 <= i < outs.len() ==> (#[trigger] outs[i]).value == recs[i].amount,
    ensures
        crate::types::sum_txout_values(outs) == sum_amounts(recs),
    decreases outs.len(),
{
    if outs.len() > 0 {
        assert forall|i: int|
            0 <= i < outs.drop_last().len() implies (#[trigger] outs.drop_last()[i]).value
            == recs.drop_last()[i].amount by {
            assert(outs[i] == outs.drop_last()[i]);
            assert(recs[i] == recs.drop_last()[i]);
        }
        lemma_txout_vs_amounts(outs.drop_last(), recs.drop_last());
        assert(outs.last().value == recs.last().amount);
    }
}

/// Automatic selection obeys the builder's constraints: every input past
/// the explicit inclusions avoids the exclusion set, never repeats an
/// explicit inclusion, and spends a row whose keychain the change-spend
/// policy admits.
pub proof fn lemma_auto_selection_constraints(b: TxBuilder, w: Wallet, t: UnsignedTx)
    requires
        w.wf(),
        finish_ok(b, w, t),
    ensures
        forall|i: int|
            dedup_ops(b.utxos@).len() <= i < t.inputs@.len() ==> !b.unspendable@.contains(
                (#[trigger] t.inputs@[i]).previous_output,
            ),
        forall|i: int|
            dedup_ops(b.utxos@).len() <= i < t.inputs@.len() ==> !b.utxos@.contains(
                (#[trigger] t.inputs@[i]).previous_output,
            ),
        forall|i: int|
            dedup_ops(b.utxos@).len() <= i < t.inputs@.len() ==> policy_admits(
                b.change_policy,
                row_of(w.outputs@, (#[trigger] t.inputs@[i]).previous_output).keychain,
            ),
{
    lemma_cands_of_props(w.outputs@, b);
    let ops = dedup_ops(b.utxos@);
    let cands = cands_of(w.outputs@, b);
    // the selection never runs past the candidate list
    assert(t.inputs@.len() <= ops.len() + cands.len()) by {
        let target = sum_amounts(b.recipients@);
        let n_out = b.recipients@.len() + 1;
        lemma_sel_count_range(
            cands,
            ops_value(w.outputs@, ops),
            ops.len() as int,
            b,
            target,
            n_out as int,
        );
    }
    assert forall|i: int|
        ops.len() <= i < t.inputs@.len() implies !b.unspendable@.contains(
        (#[trigger] t.inputs@[i]).previous_output,
    ) && !b.utxos@.contains(t.inputs@[i].previous_output) && policy_admits(
        b.change_policy,
        row_of(w.outputs@, t.inputs@[i].previous_output).keychain,
    ) by {
        let k = i - ops.len();
        assert(t.inputs@[i].previous_output == cands_of(w.outputs@, b)[k].outpoint);
        assert(!b.unspendable@.contains(cands_of(w.outputs@, b)[k].outpoint));
    }
}

/// Round trip: the changeset a persist appends, read back by a load,
/// reproduces an equivalent wallet: the same descriptors, the same
/// keychain indices, the same output set and transactions, the same tip.
pub proof fn lemma_persist_load_round_trip(w: Wallet, cs: ChangeSet, v: Wallet)
    requires
        cs_matches(cs, w),
        loaded_from(v, cs),
    ensures
        v.descriptor@ == w.descriptor@,
        v.change_descriptor@ == w.change_descriptor@,
        v.network == w.network,
        v.next_external_index == w.next_external_index,
        v.next_internal_index == w.next_internal_index,
        outs_eqv(v.outputs@, w.outputs@),
        ctxs_eqv(v.txs@, w.txs@),
        v.tip == w.tip,
{
    assert forall|i: int| 0 <= i < v.outputs@.len() implies out_eqv(
        #[trigger] v.outputs@[i],
        w.outputs@[i],
    ) by {
        assert(out_eqv(v.outputs@[i], cs.outputs@[i]));
        assert(out_eqv(cs.outputs@[i], w.outputs@[i]));
    }
    assert forall|i: int| 0 <= i < v.txs@.len() implies crate::types::ctx_eqv(
        #[trigger] v.txs@[i],
        w.txs@[i],
    ) by {
        assert(crate::types::ctx_eqv(v.txs@[i], cs.txs@[i]));
        assert(crate::types::ctx_eqv(cs.txs@[i], w.txs@[i]));
    }
}

/// Two manual builds from one wallet snapshot with disjoint explicit
/// inclusion sets both stand on their own, and their transactions contend
/// for no input: building reads the wallet only, so neither excludes the
/// other, and each spends exactly its own inclusions.
pub proof fn lemma_disjoint_manual_builds(
    b1: TxBuilder,
    b2: TxBuilder,
    w: Wallet,
    t1: UnsignedTx,
    t2: UnsignedTx,
)
    requires
        finish_ok(b1, w, t1),
        finish_ok(b2, w, t2),
        b1.manually_selected_only,
        b2.manually_selected_only,
        forall|op: crate::types::OutPoint|
            dedup_ops(b1.utxos@).contains(op) ==> !dedup_ops(b2.utxos@).contains(op),
    ensures
        forall|i: int, j: int|
            0 <= i < t1.inputs@.len() && 0 <= j < t2.inputs@.len() ==> (
            #[trigger] t1.inputs@[i]).previous_output != (#[trigger] t2.inputs@[j]).previous_output,
{
    let ops1 = dedup_ops(b1.utxos@);
    let ops2 = dedup_ops(b2.utxos@);
    assert forall|i: int, j: int|
        0 <= i < t1.inputs@.len() && 0 <= j < t2.inputs@.len() implies (
    #[trigger] t1.inputs@[i]).previous_output != (#[trigger] t2.inputs@[j]).previous_output by {
        assert(t1.inputs@[i].previous_output == ops1[i]);
        assert(t2.inputs@[j].previous_output == ops2[j]);
        assert(ops1.contains(ops1[i]));
        assert(ops2.contains(ops2[j]));
    }
}

} // verus!
