//! The ledger's global laws, proved over the models that the engine's
//! contracts speak of: value conservation under `spend`, the accounting of
//! reward dispersal, injectivity of the key-derivation preimages, and the
//! impossibility of spending the same output twice.

use vstd::prelude::*;

use crate::crypto::{blake2b_256_of, output_key_material, reward_key_material, spec_reward_key};
use crate::encoding::{le_bytes, lemma_encode_output_injective, lemma_le_bytes_injective,
    lemma_le_bytes_len, lemma_pow256_8, lemma_split_suffix, spec_encode_output, spec_encode_tx};
use crate::ledger::{apply_outputs, disperse_step, remove_inputs, spec_disperse, spec_spend,
    LedgerModel};
use crate::types::{EventModel, InputModel, OutputModel, Transaction, TxModel};
use crate::validate::{all_inputs_resolve, has_dup_inputs, has_dup_outputs, input_values,
    output_values, spec_input_sum, spec_output_sum, spec_validate, sum_from, sum_values};

verus! {

/// Total value held by a UTXO view: the sum of the values of its outputs.
pub open spec fn map_total(m: Map<Seq<u8>, OutputModel>) -> int
    decreases m.dom().len(),
        when m.dom().finite()
    via map_total_decreases
{
    if m.dom().finite() && m.dom().len() > 0 {
        let k = m.dom().choose();
        m[k].value + map_total(m.remove(k))
    } else {
        0
    }
}

#[via_fn]
proof fn map_total_decreases(m: Map<Seq<u8>, OutputModel>) {
    if m.dom().finite() && m.dom().len() > 0 {
        let k = m.dom().choose();
        assert(m.dom().contains(k));
        assert(m.remove(k).dom() =~= m.dom().remove(k));
    }
}

/// Taking one key out of a finite UTXO view takes exactly its value out of
/// the total.
pub proof fn lemma_map_total_remove(m: Map<Seq<u8>, OutputModel>, k: Seq<u8>)
    requires
        m.dom().finite(),
        m.contains_key(k),
    ensures
        map_total(m) == m[k].value + map_total(m.remove(k)),
    decreases m.dom().len(),
{
    let k0 = m.dom().choose();
    assert(m.dom().contains(k));
    assert(m.dom().len() > 0);
    assert(m.dom().contains(k0));
    if k0 == k {
    } else {
        let m1 = m.remove(k0);
        assert(m1.dom() =~= m.dom().remove(k0));
        assert(m1.contains_key(k));
        lemma_map_total_remove(m1, k);
        assert(m.remove(k).dom() =~= m.dom().remove(k));
        lemma_map_total_remove(m.remove(k), k0);
        assert(m.remove(k).remove(k0) =~= m1.remove(k));
    }
}

/// Adding a fresh key to a finite UTXO view adds exactly its value to the
/// total.
pub proof fn lemma_map_total_insert(m: Map<Seq<u8>, OutputModel>, k: Seq<u8>, v: OutputModel)
    requires
        m.dom().finite(),
        !m.contains_key(k),
    ensures
        map_total(m.insert(k, v)) == map_total(m) + v.value,
{
    assert(m.insert(k, v).dom() =~= m.dom().insert(k));
    lemma_map_total_remove(m.insert(k, v), k);
    assert(m.insert(k, v).remove(k) =~= m);
}

/// A suffix sum equals the sum of the dropped-head sequence shifted by one.
proof fn lemma_sum_from_drop_first(s: Seq<u128>, i: int)
    requires
        s.len() > 0,
        0 <= i,
    ensures
        sum_from(s.drop_first(), i) == sum_from(s, i + 1),
    decreases s.len() - i,
{
    if i < s.drop_first().len() {
        lemma_sum_from_drop_first(s, i + 1);
        assert(s.drop_first()[i] == s[i + 1]);
    }
}

/// Consuming a validated transaction's inputs subtracts exactly their total
/// value, and only ever shrinks the key set.
pub proof fn lemma_remove_inputs_total(m: Map<Seq<u8>, OutputModel>, inputs: Seq<InputModel>)
    requires
        m.dom().finite(),
        all_inputs_resolve(inputs, m),
        !has_dup_inputs(inputs),
    ensures
        remove_inputs(m, inputs).dom().finite(),
        map_total(remove_inputs(m, inputs)) == map_total(m) - spec_input_sum(inputs, m),
    decreases inputs.len(),
{
    if inputs.len() == 0 {
        assert(input_values(inputs, m) =~= Seq::<u128>::empty());
    } else {
        let p0 = inputs[0].outpoint;
        let m1 = m.remove(p0);
        assert(m.contains_key(p0));
        lemma_map_total_remove(m, p0);
        assert(m1.dom() =~= m.dom().remove(p0));
        assert(!has_dup_inputs(inputs.drop_first())) by {
            assert(forall|a: int|
                0 <= a < inputs.drop_first().len() ==> inputs.drop_first()[a] == inputs[a + 1]);
        }
        assert(all_inputs_resolve(inputs.drop_first(), m1)) by {
            assert(forall|a: int|
                0 <= a < inputs.drop_first().len() ==> inputs.drop_first()[a] == inputs[a + 1]
                    && inputs[a + 1].outpoint != p0);
        }
        lemma_remove_inputs_total(m1, inputs.drop_first());
        let ivals = input_values(inputs, m);
        assert(ivals[0] == m[p0].value);
        lemma_sum_from_drop_first(ivals, 0);
        assert(ivals.drop_first() =~= input_values(inputs.drop_first(), m1)) by {
            assert(forall|a: int|
                0 <= a < inputs.drop_first().len() ==> inputs.drop_first()[a] == inputs[a + 1]
                    && inputs[a + 1].outpoint != p0);
        }
        assert(sum_values(ivals) == ivals[0] + sum_from(ivals, 1));
    }
}

/// A key resolves after input consumption exactly when it resolved before
/// and is not one of the consumed outpoints.
pub proof fn lemma_remove_inputs_dom(m: Map<Seq<u8>, OutputModel>, inputs: Seq<InputModel>)
    ensures
        forall|k: Seq<u8>|
            #[trigger] remove_inputs(m, inputs).contains_key(k) <==> (m.contains_key(k) && !exists|
                i: int,
            | 0 <= i < inputs.len() && inputs[i].outpoint == k),
    decreases inputs.len(),
{
    if inputs.len() > 0 {
        let p0 = inputs[0].outpoint;
        lemma_remove_inputs_dom(m.remove(p0), inputs.drop_first());
        assert forall|k: Seq<u8>| #[trigger]
            remove_inputs(m, inputs).contains_key(k) <==> (m.contains_key(k) && !exists|i: int|
                0 <= i < inputs.len() && inputs[i].outpoint == k) by {
            assert(remove_inputs(m, inputs) == remove_inputs(m.remove(p0), inputs.drop_first()));
            if remove_inputs(m, inputs).contains_key(k) {
                assert(m.remove(p0).contains_key(k));
                assert forall|i: int| 0 <= i < inputs.len() implies inputs[i].outpoint != k by {
                    if i == 0 {
                        assert(k != p0);
                    } else {
                        assert(inputs.drop_first()[i - 1] == inputs[i]);
                        assert(inputs.drop_first()[i - 1].outpoint != k);
                    }
                }
            }
            if m.contains_key(k) && !exists|i: int| 0 <= i < inputs.len() && inputs[i].outpoint
                == k {
                assert(inputs[0].outpoint != p0 || k != p0);
                assert(k != p0);
                assert(m.remove(p0).contains_key(k));
                assert(forall|i: int|
                    0 <= i < inputs.drop_first().len() ==> inputs.drop_first()[i] == inputs[i
                        + 1]);
                assert(!exists|i: int|
                    0 <= i < inputs.drop_first().len() && inputs.drop_first()[i].outpoint == k);
            }
        }
    }
}

/// Every transaction value meets the length bound that the conservation and
/// double-spend laws assume of a bare model: a vector's length fits the
/// machine word, which fits the 64-bit output index.
pub proof fn lemma_tx_model_bounds(t: &Transaction)
    ensures
        t@.inputs.len() <= u64::MAX,
        t@.outputs.len() <= u64::MAX,
{
    vstd::std_specs::vec::axiom_spec_len(&t.inputs);
    vstd::std_specs::vec::axiom_spec_len(&t.outputs);
    assert(t@.inputs.len() == t.inputs@.len());
    assert(t@.outputs.len() == t.outputs@.len());
}

/// The storage key of the output at position `i` of transaction `t`.
pub open spec fn spend_output_key(t: TxModel, i: int) -> Seq<u8> {
    blake2b_256_of(output_key_material(spec_encode_tx(t), i as u64))
}

/// The key derived for the output `i` positions after `index`.
pub open spec fn indexed_output_key(enc: Seq<u8>, index: u64, i: int) -> Seq<u8> {
    blake2b_256_of(output_key_material(enc, (index + i) as u64))
}

/// Emitting outputs under fresh, pairwise-distinct keys adds exactly their
/// total value.
pub proof fn lemma_apply_outputs_total(
    m: Map<Seq<u8>, OutputModel>,
    enc: Seq<u8>,
    outputs: Seq<OutputModel>,
    index: u64,
)
    requires
        m.dom().finite(),
        index + outputs.len() <= u64::MAX,
        forall|i: int|
            0 <= i < outputs.len() ==> !m.contains_key(#[trigger] indexed_output_key(enc, index, i)),
        forall|i: int, j: int|
            0 <= i < j < outputs.len() ==> #[trigger] indexed_output_key(enc, index, i)
                != #[trigger] indexed_output_key(enc, index, j),
    ensures
        apply_outputs(m, enc, outputs, index).dom().finite(),
        map_total(apply_outputs(m, enc, outputs, index)) == map_total(m) + spec_output_sum(
            outputs,
        ),
    decreases outputs.len(),
{
    if outputs.len() == 0 {
        assert(output_values(outputs) =~= Seq::<u128>::empty());
    } else {
        let key0 = blake2b_256_of(output_key_material(enc, index));
        assert(key0 == indexed_output_key(enc, index, 0));
        assert(!m.contains_key(key0));
        let m1 = m.insert(key0, outputs[0]);
        lemma_map_total_insert(m, key0, outputs[0]);
        assert(m1.dom() =~= m.dom().insert(key0));
        assert forall|i: int| 0 <= i < outputs.drop_first().len() implies !m1.contains_key(
            #[trigger] indexed_output_key(enc, (index + 1) as u64, i),
        ) by {
            assert(indexed_output_key(enc, (index + 1) as u64, i) == indexed_output_key(
                enc,
                index,
                i + 1,
            ));
            assert(indexed_output_key(enc, index, i + 1) != indexed_output_key(enc, index, 0));
            assert(!m.contains_key(indexed_output_key(enc, index, i + 1)));
        }
        assert forall|i: int, j: int|
            0 <= i < j < outputs.drop_first().len() implies #[trigger] indexed_output_key(
            enc,
            (index + 1) as u64,
            i,
        ) != #[trigger] indexed_output_key(enc, (index + 1) as u64, j) by {
            assert(indexed_output_key(enc, (index + 1) as u64, i) == indexed_output_key(
                enc,
                index,
                i + 1,
            ));
            assert(indexed_output_key(enc, (index + 1) as u64, j) == indexed_output_key(
                enc,
                index,
                j + 1,
            ));
            assert(indexed_output_key(enc, index, i + 1) != indexed_output_key(enc, index, j + 1));
        }
        lemma_apply_outputs_total(m1, enc, outputs.drop_first(), (index + 1) as u64);
        let ovals = output_values(outputs);
        assert(ovals[0] == outputs[0].value);
        lemma_sum_from_drop_first(ovals, 0);
        assert(ovals.drop_first() =~= output_values(outputs.drop_first()));
        assert(sum_values(ovals) == ovals[0] + sum_from(ovals, 1));
    }
}

/// A key resolves after output emission exactly when it resolved before or
/// is one of the derived keys.
pub proof fn lemma_apply_outputs_dom(
    m: Map<Seq<u8>, OutputModel>,
    enc: Seq<u8>,
    outputs: Seq<OutputModel>,
    index: u64,
)
    requires
        index + outputs.len() <= u64::MAX,
    ensures
        forall|k: Seq<u8>|
            #[trigger] apply_outputs(m, enc, outputs, index).contains_key(k) <==> (m.contains_key(
                k,
            ) || exists|i: int|
                0 <= i < outputs.len() && k == #[trigger] indexed_output_key(enc, index, i)),
    decreases outputs.len(),
{
    if outputs.len() > 0 {
        let key0 = blake2b_256_of(output_key_material(enc, index));
        let m1 = m.insert(key0, outputs[0]);
        lemma_apply_outputs_dom(m1, enc, outputs.drop_first(), (index + 1) as u64);
        assert forall|k: Seq<u8>| #[trigger]
            apply_outputs(m, enc, outputs, index).contains_key(k) <==> (m.contains_key(k) || exists|
                i: int,
            | 0 <= i < outputs.len() && k == #[trigger] indexed_output_key(enc, index, i)) by {
            assert(apply_outputs(m, enc, outputs, index) == apply_outputs(
                m1,
                enc,
                outputs.drop_first(),
                (index + 1) as u64,
            ));
            assert(forall|i: int|
                #[trigger] indexed_output_key(enc, (index + 1) as u64, i) == indexed_output_key(
                    enc,
                    index,
                    i + 1,
                ));
            if apply_outputs(m, enc, outputs, index).contains_key(k) {
                if m1.contains_key(k) && !m.contains_key(k) {
                    assert(k == key0);
                    assert(k == indexed_output_key(enc, index, 0));
                } else if !m1.contains_key(k) {
                    let i = choose|i: int|
                        0 <= i < outputs.drop_first().len() && k == #[trigger] indexed_output_key(
                            enc,
                            (index + 1) as u64,
                            i,
                        );
                    assert(k == indexed_output_key(enc, index, i + 1));
                }
            }
            if m.contains_key(k) {
                assert(m1.contains_key(k));
            }
            if exists|i: int| 0 <= i < outputs.len() && k == #[trigger] indexed_output_key(
                enc,
                index,
                i,
            ) {
                let i = choose|i: int|
                    0 <= i < outputs.len() && k == #[trigger] indexed_output_key(enc, index, i);
                if i == 0 {
                    assert(key0 == indexed_output_key(enc, index, 0));
                    assert(m1.contains_key(k));
                } else {
                    assert(k == indexed_output_key(enc, (index + 1) as u64, i - 1));
                }
            }
        }
    }
}

/// Value conservation under spending: when the derived output keys collide
/// with nothing — neither with surviving keys nor among themselves — a
/// successful spend changes the combined worth of the UTXO set and the
/// reward pool by exactly nothing: the fee moves from the set to the pool.
/// The freshness premises are exactly collision-freedom of the hash on the
/// keys involved, which nothing can prove of a sound model of a hash; the
/// length premise holds of every transaction value (`lemma_tx_model_bounds`).
pub proof fn lemma_spend_conservation(l: LedgerModel, t: TxModel)
    requires
        l.utxos.dom().finite(),
        t.outputs.len() <= u64::MAX,
        spec_spend(l, t) is Ok,
        forall|i: int|
            0 <= i < t.outputs.len() ==> !remove_inputs(l.utxos, t.inputs).contains_key(
                #[trigger] spend_output_key(t, i),
            ),
        forall|i: int, j: int|
            0 <= i < j < t.outputs.len() ==> spend_output_key(t, i) != spend_output_key(t, j),
    ensures
        map_total(spec_spend(l, t)->Ok_0.utxos) + spec_spend(l, t)->Ok_0.reward == map_total(
            l.utxos,
        ) + l.reward,
{
    let fee = spec_validate(t, l.utxos)->Ok_0;
    let rm = remove_inputs(l.utxos, t.inputs);
    let enc = spec_encode_tx(t);
    lemma_remove_inputs_total(l.utxos, t.inputs);
    assert forall|i: int| 0 <= i < t.outputs.len() implies !rm.contains_key(
        #[trigger] indexed_output_key(enc, 0, i),
    ) by {
        assert(spend_output_key(t, i) == indexed_output_key(enc, 0, i));
    }
    assert forall|i: int, j: int|
        0 <= i < j < t.outputs.len() implies #[trigger] indexed_output_key(enc, 0, i)
        != #[trigger] indexed_output_key(enc, 0, j) by {
        assert(spend_output_key(t, i) == indexed_output_key(enc, 0, i));
        assert(spend_output_key(t, j) == indexed_output_key(enc, 0, j));
    }
    lemma_apply_outputs_total(rm, enc, t.outputs, 0);
    assert(spec_spend(l, t)->Ok_0.utxos == apply_outputs(rm, enc, t.outputs, 0));
    assert(spec_spend(l, t)->Ok_0.reward == l.reward + fee);
    assert(spec_validate(t, l.utxos) is Ok);
    let isum = spec_input_sum(t.inputs, l.utxos);
    let osum = spec_output_sum(t.outputs);
    assert(isum <= u128::MAX);
    assert(isum >= osum);
    assert(spec_validate(t, l.utxos)->Ok_0 == (isum - osum) as u128);
    crate::validate::lemma_sum_from_nonneg(output_values(t.outputs), 0);
    assert(osum >= 0);
    assert(((isum - osum) as u128) as int == isum - osum);
    assert(fee == isum - osum);
}

/// Output-key preimages are injective: two equal key materials come from
/// the same transaction encoding and the same position, so distinct
/// positions (or transactions) give distinct keys whenever the hash does
/// not collide.
pub proof fn lemma_output_key_material_injective(enc1: Seq<u8>, i1: u64, enc2: Seq<u8>, i2: u64)
    requires
        output_key_material(enc1, i1) == output_key_material(enc2, i2),
    ensures
        enc1 == enc2,
        i1 == i2,
{
    lemma_le_bytes_len(i1 as nat, 8);
    lemma_le_bytes_len(i2 as nat, 8);
    lemma_split_suffix(enc1, le_bytes(i1 as nat, 8), enc2, le_bytes(i2 as nat, 8));
    lemma_pow256_8();
    lemma_le_bytes_injective(i1 as nat, i2 as nat, 8);
}

/// Two outputs serialize alike exactly when they are the same output, so
/// the duplicate-output rule, stated over output equality, decides exactly
/// the distinctness of the serialized outputs.
pub proof fn lemma_dup_outputs_by_encoding(outputs: Seq<OutputModel>)
    ensures
        has_dup_outputs(outputs) <==> exists|i: int, j: int|
            0 <= i < j < outputs.len() && #[trigger] spec_encode_output(outputs[i])
                == #[trigger] spec_encode_output(outputs[j]),
{
    if has_dup_outputs(outputs) {
        let (i, j) = choose|i: int, j: int|
            0 <= i < j < outputs.len() && outputs[i] == outputs[j];
        assert(spec_encode_output(outputs[i]) == spec_encode_output(outputs[j]));
    }
    if exists|i: int, j: int|
        0 <= i < j < outputs.len() && #[trigger] spec_encode_output(outputs[i])
            == #[trigger] spec_encode_output(outputs[j]) {
        let (i, j) = choose|i: int, j: int|
            0 <= i < j < outputs.len() && #[trigger] spec_encode_output(outputs[i])
                == #[trigger] spec_encode_output(outputs[j]);
        lemma_encode_output_injective(outputs[i], outputs[j]);
        assert(outputs[i] == outputs[j]);
    }
}

/// Reward-key preimages are injective over the reward output and the block
/// number, so rewards differ across blocks and across authorities whenever
/// the hash does not collide.
pub proof fn lemma_reward_key_material_injective(o1: OutputModel, b1: u64, o2: OutputModel, b2: u64)
    requires
        reward_key_material(o1, b1) == reward_key_material(o2, b2),
    ensures
        o1 == o2,
        b1 == b2,
{
    lemma_le_bytes_len(b1 as nat, 8);
    lemma_le_bytes_len(b2 as nat, 8);
    lemma_split_suffix(
        spec_encode_output(o1),
        le_bytes(b1 as nat, 8),
        spec_encode_output(o2),
        le_bytes(b2 as nat, 8),
    );
    lemma_pow256_8();
    lemma_le_bytes_injective(b1 as nat, b2 as nat, 8);
    lemma_encode_output_injective(o1, o2);
}

/// The reward key an authority's share is stored under.
pub open spec fn disperse_key(a: Seq<u8>, share: u128, block_number: u64) -> Seq<u8> {
    spec_reward_key(OutputModel { value: share, pubkey: a }, block_number)
}

/// Reward dispersal without collisions mints exactly `share` for each
/// authority and records each payment in order.
pub proof fn lemma_disperse_total(
    m: Map<Seq<u8>, OutputModel>,
    events: Seq<EventModel>,
    auths: Seq<Seq<u8>>,
    share: u128,
    block_number: u64,
)
    requires
        m.dom().finite(),
        forall|i: int|
            0 <= i < auths.len() ==> !m.contains_key(
                #[trigger] disperse_key(auths[i], share, block_number),
            ),
        forall|i: int, j: int|
            0 <= i < j < auths.len() ==> disperse_key(auths[i], share, block_number)
                != disperse_key(auths[j], share, block_number),
    ensures
        map_total(spec_disperse(m, events, auths, share, block_number).0) == map_total(m) + share
            * auths.len(),
        spec_disperse(m, events, auths, share, block_number).1.len() == events.len() + auths.len(),
        forall|i: int|
            0 <= i < events.len() ==> spec_disperse(m, events, auths, share, block_number).1[i]
                == events[i],
        forall|i: int|
            0 <= i < auths.len() ==> spec_disperse(m, events, auths, share, block_number).1[
                events.len() + i
            ] == EventModel::RewardPaid(auths[i], share),
    decreases auths.len(),
{
    if auths.len() == 0 {
        assert(share * 0 == 0) by (nonlinear_arith);
    } else {
        let a0 = auths[0];
        let key0 = disperse_key(a0, share, block_number);
        let o0 = OutputModel { value: share, pubkey: a0 };
        assert(!m.contains_key(key0));
        let m1 = m.insert(key0, o0);
        let evs1 = events.push(EventModel::RewardPaid(a0, share));
        assert(disperse_step((m, events), a0, share, block_number) == (m1, evs1));
        lemma_map_total_insert(m, key0, o0);
        assert(m1.dom() =~= m.dom().insert(key0));
        assert forall|i: int| 0 <= i < auths.drop_first().len() implies !m1.contains_key(
            #[trigger] disperse_key(auths.drop_first()[i], share, block_number),
        ) by {
            assert(auths.drop_first()[i] == auths[i + 1]);
            assert(disperse_key(auths[i + 1], share, block_number) != key0);
            assert(!m.contains_key(disperse_key(auths[i + 1], share, block_number)));
        }
        assert forall|i: int, j: int| 0 <= i < j < auths.drop_first().len() implies disperse_key(
            auths.drop_first()[i],
            share,
            block_number,
        ) != disperse_key(auths.drop_first()[j], share, block_number) by {
            assert(auths.drop_first()[i] == auths[i + 1]);
            assert(auths.drop_first()[j] == auths[j + 1]);
        }
        lemma_disperse_total(m1, evs1, auths.drop_first(), share, block_number);
        assert forall|i: int| 0 <= i < events.len() implies spec_disperse(
            m,
            events,
            auths,
            share,
            block_number,
        ).1[i] == events[i] by {
            assert(spec_disperse(m, events, auths, share, block_number).1 == spec_disperse(
                m1,
                evs1,
                auths.drop_first(),
                share,
                block_number,
            ).1);
            assert(spec_disperse(m1, evs1, auths.drop_first(), share, block_number).1[i]
                == evs1[i]);
            assert(evs1[i] == events[i]);
        }
        assert(share * auths.len() == share + share * auths.drop_first().len())
            by (nonlinear_arith)
            requires
                auths.len() > 0,
                auths.drop_first().len() == auths.len() - 1,
        ;
        assert forall|i: int| 0 <= i < auths.len() implies spec_disperse(
            m,
            events,
            auths,
            share,
            block_number,
        ).1[events.len() + i] == EventModel::RewardPaid(auths[i], share) by {
            if i == 0 {
                assert(spec_disperse(m1, evs1, auths.drop_first(), share, block_number).1[
                    evs1.len() - 1
                ] == evs1[evs1.len() - 1]);
                assert(evs1[evs1.len() - 1] == EventModel::RewardPaid(a0, share));
            } else {
                assert(auths.drop_first()[i - 1] == auths[i]);
                assert(spec_disperse(m1, evs1, auths.drop_first(), share, block_number).1[
                    evs1.len() + (i - 1)
                ] == EventModel::RewardPaid(auths[i], share));
            }
        }
    }
}

/// Double spends are impossible: once a transaction is applied, any
/// well-formed transaction that references one of its consumed outpoints is
/// rejected for a missing input — provided the applied transaction's own
/// new keys collide with nothing that was in the set (collision-freedom of
/// the hash; the length premise holds of every transaction value, see
/// `lemma_tx_model_bounds`).
pub proof fn lemma_double_spend(l: LedgerModel, t1: TxModel, t2: TxModel, i1: int, i2: int)
    requires
        t1.outputs.len() <= u64::MAX,
        spec_spend(l, t1) is Ok,
        forall|i: int|
            0 <= i < t1.outputs.len() ==> !l.utxos.contains_key(#[trigger] spend_output_key(t1, i)),
        t2.inputs.len() > 0,
        t2.outputs.len() > 0,
        !crate::validate::has_dup_inputs(t2.inputs),
        !crate::validate::has_dup_outputs(t2.outputs),
        !crate::validate::has_zero_output(t2.outputs),
        0 <= i1 < t1.inputs.len(),
        0 <= i2 < t2.inputs.len(),
        t2.inputs[i2].outpoint == t1.inputs[i1].outpoint,
    ensures
        spec_validate(t2, spec_spend(l, t1)->Ok_0.utxos) is Err,
        spec_validate(t2, spec_spend(l, t1)->Ok_0.utxos)->Err_0 is MissingInput,
{
    let k = t1.inputs[i1].outpoint;
    let rm = remove_inputs(l.utxos, t1.inputs);
    let enc = spec_encode_tx(t1);
    let post = spec_spend(l, t1)->Ok_0.utxos;
    assert(post == apply_outputs(rm, enc, t1.outputs, 0));
    assert(l.utxos.contains_key(k));
    lemma_remove_inputs_dom(l.utxos, t1.inputs);
    assert(!rm.contains_key(k));
    lemma_apply_outputs_dom(rm, enc, t1.outputs, 0);
    assert(!post.contains_key(k)) by {
        if post.contains_key(k) {
            let i = choose|i: int|
                0 <= i < t1.outputs.len() && k == #[trigger] indexed_output_key(enc, 0, i);
            assert(spend_output_key(t1, i) == indexed_output_key(enc, 0, i));
            assert(!l.utxos.contains_key(k));
        }
    }
    assert(!all_inputs_resolve(t2.inputs, post));
}

} // verus!
