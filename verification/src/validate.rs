//! The validator: a pure predicate deciding whether a transaction is
//! admissible against a UTXO view, with the rules evaluated in a fixed order
//! so the reported error is deterministic. An admissible transaction's fee is
//! the surplus of its inputs over its outputs.

use vstd::prelude::*;

use crate::crypto::{spec_sig_ok, sr25519_verify};
use crate::encoding::{signing_image, spec_signing_image};
use crate::store::{key_eq, UtxoStore};
use crate::types::{Error, ErrorModel, InputModel, OutputModel, Transaction, TransactionOutput,
    TxModel};

verus! {

/// Two inputs reference the same outpoint.
pub open spec fn has_dup_inputs(inputs: Seq<InputModel>) -> bool {
    exists|i: int, j: int|
        0 <= i < j < inputs.len() && inputs[i].outpoint == inputs[j].outpoint
}

/// Two outputs are equal, so their canonical serializations coincide.
pub open spec fn has_dup_outputs(outputs: Seq<OutputModel>) -> bool {
    exists|i: int, j: int| 0 <= i < j < outputs.len() && outputs[i] == outputs[j]
}

/// Some output carries the value zero.
pub open spec fn has_zero_output(outputs: Seq<OutputModel>) -> bool {
    exists|i: int| 0 <= i < outputs.len() && outputs[i].value == 0
}

/// Every outpoint resolves in the UTXO view.
pub open spec fn all_inputs_resolve(inputs: Seq<InputModel>, m: Map<Seq<u8>, OutputModel>) -> bool {
    forall|i: int| 0 <= i < inputs.len() ==> m.contains_key(inputs[i].outpoint)
}

/// The first position at or after `i` whose outpoint does not resolve;
/// the length if all do.
pub open spec fn first_unresolved_from(
    inputs: Seq<InputModel>,
    m: Map<Seq<u8>, OutputModel>,
    i: int,
) -> int
    decreases inputs.len() - i,
{
    if i < 0 || i >= inputs.len() {
        i
    } else if !m.contains_key(inputs[i].outpoint) {
        i
    } else {
        first_unresolved_from(inputs, m, i + 1)
    }
}

/// Every input's signature verifies over the signing image.
pub open spec fn all_sigs_valid(t: TxModel, m: Map<Seq<u8>, OutputModel>) -> bool {
    forall|i: int| 0 <= i < t.inputs.len() ==> spec_sig_ok(t, m, i)
}

/// The first position at or after `i` whose signature does not verify;
/// the length if all do.
pub open spec fn first_bad_sig_from(t: TxModel, m: Map<Seq<u8>, OutputModel>, i: int) -> int
    decreases t.inputs.len() - i,
{
    if i < 0 || i >= t.inputs.len() {
        i
    } else if !spec_sig_ok(t, m, i) {
        i
    } else {
        first_bad_sig_from(t, m, i + 1)
    }
}

/// Sum, as an unbounded integer, of the values from position `i` on.
pub open spec fn sum_from(s: Seq<u128>, i: int) -> int
    decreases s.len() - i,
{
    if i < 0 || i >= s.len() {
        0
    } else {
        s[i] + sum_from(s, i + 1)
    }
}

/// Sum, as an unbounded integer, of a sequence of values.
pub open spec fn sum_values(s: Seq<u128>) -> int {
    sum_from(s, 0)
}

/// The values of the outputs that the inputs reference, in input order.
pub open spec fn input_values(inputs: Seq<InputModel>, m: Map<Seq<u8>, OutputModel>) -> Seq<u128> {
    Seq::new(inputs.len(), |i: int| m[inputs[i].outpoint].value)
}

/// The values of the outputs, in order.
pub open spec fn output_values(outputs: Seq<OutputModel>) -> Seq<u128> {
    Seq::new(outputs.len(), |i: int| outputs[i].value)
}

/// Total value consumed by the transaction's inputs.
pub open spec fn spec_input_sum(inputs: Seq<InputModel>, m: Map<Seq<u8>, OutputModel>) -> int {
    sum_values(input_values(inputs, m))
}

/// Total value carried by the transaction's outputs.
pub open spec fn spec_output_sum(outputs: Seq<OutputModel>) -> int {
    sum_values(output_values(outputs))
}

/// What the validator decides for `t` against the UTXO view `m`: the first
/// rule broken, in the fixed evaluation order, or the fee. A signing image
/// beyond the signature transcript's 32-bit length counter is rejected as an
/// overflow before any signature is examined.
pub open spec fn spec_validate(t: TxModel, m: Map<Seq<u8>, OutputModel>) -> Result<u128, ErrorModel> {
    if t.inputs.len() == 0 || t.outputs.len() == 0 {
        Err(ErrorModel::Empty)
    } else if has_dup_inputs(t.inputs) {
        Err(ErrorModel::DuplicateInput)
    } else if has_dup_outputs(t.outputs) {
        Err(ErrorModel::DuplicateOutput)
    } else if has_zero_output(t.outputs) {
        Err(ErrorModel::ZeroOutputValue)
    } else if !all_inputs_resolve(t.inputs, m) {
        Err(ErrorModel::MissingInput(t.inputs[first_unresolved_from(t.inputs, m, 0)].outpoint))
    } else if spec_signing_image(t).len() > u32::MAX {
        Err(ErrorModel::Overflow)
    } else if !all_sigs_valid(t, m) {
        Err(ErrorModel::InvalidSignature(first_bad_sig_from(t, m, 0)))
    } else if spec_input_sum(t.inputs, m) > u128::MAX || spec_output_sum(t.outputs) > u128::MAX {
        Err(ErrorModel::Overflow)
    } else if spec_input_sum(t.inputs, m) < spec_output_sum(t.outputs) {
        Err(ErrorModel::NegativeFee)
    } else {
        Ok((spec_input_sum(t.inputs, m) - spec_output_sum(t.outputs)) as u128)
    }
}

/// If everything before `j` resolves and `j` does not (or is the length),
/// then `j` is the first unresolved position.
pub proof fn lemma_first_unresolved(
    inputs: Seq<InputModel>,
    m: Map<Seq<u8>, OutputModel>,
    i: int,
    j: int,
)
    requires
        0 <= i <= j <= inputs.len(),
        forall|k: int| i <= k < j ==> m.contains_key(inputs[k].outpoint),
        j == inputs.len() || !m.contains_key(inputs[j].outpoint),
    ensures
        first_unresolved_from(inputs, m, i) == j,
    decreases j - i,
{
    if i < j {
        lemma_first_unresolved(inputs, m, i + 1, j);
    }
}

/// If every signature before `j` verifies and `j`'s does not (or is the
/// length), then `j` is the first bad position.
pub proof fn lemma_first_bad_sig(t: TxModel, m: Map<Seq<u8>, OutputModel>, i: int, j: int)
    requires
        0 <= i <= j <= t.inputs.len(),
        forall|k: int| i <= k < j ==> spec_sig_ok(t, m, k),
        j == t.inputs.len() || !spec_sig_ok(t, m, j),
    ensures
        first_bad_sig_from(t, m, i) == j,
    decreases j - i,
{
    if i < j {
        lemma_first_bad_sig(t, m, i + 1, j);
    }
}

/// A suffix sum of unsigned values is non-negative.
pub proof fn lemma_sum_from_nonneg(s: Seq<u128>, i: int)
    ensures
        sum_from(s, i) >= 0,
    decreases s.len() - i,
{
    if 0 <= i < s.len() {
        lemma_sum_from_nonneg(s, i + 1);
    }
}

/// Compares two outputs for equality.
pub fn output_eq(a: &TransactionOutput, b: &TransactionOutput) -> (r: bool)
    ensures
        r == (a@ == b@),
{
    if a.value == b.value && key_eq(&a.pubkey, &b.pubkey) {
        proof {
            assert(a@ =~= b@);
        }
        true
    } else {
        false
    }
}

/// Decides whether `transaction` is admissible against the store, and with
/// what fee; the error reported is for the first rule broken.
pub fn validate_transaction(transaction: &Transaction, store: &UtxoStore) -> (r: Result<
    u128,
    Error,
>)
    requires
        store.wf(),
    ensures
        r is Ok <==> spec_validate(transaction@, store@) is Ok,
        r is Ok ==> r->Ok_0 == spec_validate(transaction@, store@)->Ok_0,
        r is Err ==> r->Err_0@ == spec_validate(transaction@, store@)->Err_0,
{
    let ghost t = transaction@;
    let ghost m = store@;
    let n_in = transaction.inputs.len();
    let n_out = transaction.outputs.len();
    proof {
        assert(t.inputs.len() == n_in && t.outputs.len() == n_out);
    }

    if n_in == 0 || n_out == 0 {
        return Err(Error::Empty);
    }

    let mut i: usize = 0;
    while i < n_in
        invariant
            t == transaction@,
            m == store@,
            n_in == t.inputs.len(),
            t.inputs.len() > 0,
            t.outputs.len() > 0,
            i <= n_in,
            forall|a: int, b: int|
                0 <= a < b < t.inputs.len() && a < i ==> t.inputs[a].outpoint
                    != t.inputs[b].outpoint,
        decreases n_in - i,
    {
        let mut j: usize = i + 1;
        while j < n_in
            invariant
                t == transaction@,
                m == store@,
                n_in == t.inputs.len(),
                t.inputs.len() > 0,
                t.outputs.len() > 0,
                i < j,
                j <= n_in,
                i < n_in,
                forall|b: int| i < b < j ==> t.inputs[i as int].outpoint != t.inputs[b].outpoint,
            decreases n_in - j,
        {
            if key_eq(&transaction.inputs[i].outpoint, &transaction.inputs[j].outpoint) {
                proof {
                    assert(t.inputs[i as int].outpoint == t.inputs[j as int].outpoint);
                    assert(has_dup_inputs(t.inputs));
                }
                return Err(Error::DuplicateInput);
            }
            j = j + 1;
        }
        i = i + 1;
    }
    proof {
        assert(!has_dup_inputs(t.inputs));
    }

    let mut i: usize = 0;
    while i < n_out
        invariant
            t == transaction@,
            m == store@,
            n_out == t.outputs.len(),
            t.inputs.len() > 0,
            t.outputs.len() > 0,
            !has_dup_inputs(t.inputs),
            i <= n_out,
            forall|a: int, b: int|
                0 <= a < b < t.outputs.len() && a < i ==> t.outputs[a] != t.outputs[b],
        decreases n_out - i,
    {
        let mut j: usize = i + 1;
        while j < n_out
            invariant
                t == transaction@,
                m == store@,
                n_out == t.outputs.len(),
                t.inputs.len() > 0,
                t.outputs.len() > 0,
                !has_dup_inputs(t.inputs),
                i < j,
                j <= n_out,
                i < n_out,
                forall|b: int| i < b < j ==> t.outputs[i as int] != t.outputs[b],
            decreases n_out - j,
        {
            if output_eq(&transaction.outputs[i], &transaction.outputs[j]) {
                proof {
                    assert(t.outputs[i as int] == t.outputs[j as int]);
                    assert(has_dup_outputs(t.outputs));
                }
                return Err(Error::DuplicateOutput);
            }
            j = j + 1;
        }
        i = i + 1;
    }
    proof {
        assert(!has_dup_outputs(t.outputs));
    }

    let mut k: usize = 0;
    while k < n_out
        invariant
            t == transaction@,
            m == store@,
            n_out == t.outputs.len(),
            t.inputs.len() > 0,
            t.outputs.len() > 0,
            !has_dup_inputs(t.inputs),
            !has_dup_outputs(t.outputs),
            k <= n_out,
            forall|a: int| 0 <= a < k ==> t.outputs[a].value != 0,
        decreases n_out - k,
    {
        if transaction.outputs[k].value == 0 {
            proof {
                assert(t.outputs[k as int].value == 0);
            }
            return Err(Error::ZeroOutputValue);
        }
        k = k + 1;
    }
    proof {
        assert(!has_zero_output(t.outputs));
    }

    let mut k: usize = 0;
    while k < n_in
        invariant
            t == transaction@,
            m == store@,
            store.wf(),
            n_in == t.inputs.len(),
            t.inputs.len() > 0,
            t.outputs.len() > 0,
            !has_dup_inputs(t.inputs),
            !has_dup_outputs(t.outputs),
            !has_zero_output(t.outputs),
            k <= n_in,
            forall|a: int| 0 <= a < k ==> m.contains_key(t.inputs[a].outpoint),
        decreases n_in - k,
    {
        if !store.contains(&transaction.inputs[k].outpoint) {
            proof {
                assert(!m.contains_key(t.inputs[k as int].outpoint));
                lemma_first_unresolved(t.inputs, m, 0, k as int);
            }
            return Err(Error::MissingInput(transaction.inputs[k].outpoint));
        }
        k = k + 1;
    }
    proof {
        assert(all_inputs_resolve(t.inputs, m));
    }

    let image = signing_image(transaction);
    if image.len() as u64 > u32::MAX as u64 {
        return Err(Error::Overflow);
    }
    proof {
        assert(spec_signing_image(t).len() <= u32::MAX);
    }
    let mut k: usize = 0;
    while k < n_in
        invariant
            t == transaction@,
            m == store@,
            store.wf(),
            t.inputs.len() > 0,
            t.outputs.len() > 0,
            !has_dup_inputs(t.inputs),
            !has_dup_outputs(t.outputs),
            !has_zero_output(t.outputs),
            all_inputs_resolve(t.inputs, m),
            image@ == spec_signing_image(t),
            spec_signing_image(t).len() <= u32::MAX,
            n_in == t.inputs.len(),
            k <= n_in,
            forall|a: int| 0 <= a < k ==> spec_sig_ok(t, m, a),
        decreases n_in - k,
    {
        let referenced = match store.get(&transaction.inputs[k].outpoint) {
            Some(o) => o,
            None => {
                proof {
                    assert(m.contains_key(t.inputs[k as int].outpoint));
                }
                vstd::pervasive::unreached()
            },
        };
        proof {
            assert(referenced@ == m[t.inputs[k as int].outpoint]);
        }
        if !sr25519_verify(&referenced.pubkey, &image, &transaction.inputs[k].sigscript) {
            proof {
                assert(!spec_sig_ok(t, m, k as int));
                lemma_first_bad_sig(t, m, 0, k as int);
            }
            return Err(Error::InvalidSignature(k));
        }
        proof {
            assert(spec_sig_ok(t, m, k as int));
        }
        k = k + 1;
    }
    proof {
        assert(all_sigs_valid(t, m));
    }

    let ghost ivals = input_values(t.inputs, m);
    let mut input_sum: u128 = 0;
    let mut k: usize = 0;
    while k < n_in
        invariant
            t == transaction@,
            m == store@,
            store.wf(),
            t.inputs.len() > 0,
            t.outputs.len() > 0,
            !has_dup_inputs(t.inputs),
            !has_dup_outputs(t.outputs),
            !has_zero_output(t.outputs),
            all_inputs_resolve(t.inputs, m),
            spec_signing_image(t).len() <= u32::MAX,
            all_sigs_valid(t, m),
            ivals == input_values(t.inputs, m),
            n_in == t.inputs.len(),
            k <= n_in,
            input_sum as int + sum_from(ivals, k as int) == spec_input_sum(t.inputs, m),
        decreases n_in - k,
    {
        let referenced = match store.get(&transaction.inputs[k].outpoint) {
            Some(o) => o,
            None => {
                proof {
                    assert(m.contains_key(t.inputs[k as int].outpoint));
                }
                vstd::pervasive::unreached()
            },
        };
        let v = referenced.value;
        proof {
            assert(ivals[k as int] == v);
        }
        if v > u128::MAX - input_sum {
            proof {
                lemma_sum_from_nonneg(ivals, k as int + 1);
                assert(spec_input_sum(t.inputs, m) > u128::MAX);
            }
            return Err(Error::Overflow);
        }
        input_sum = input_sum + v;
        k = k + 1;
    }
    proof {
        assert(input_sum as int == spec_input_sum(t.inputs, m));
    }

    let ghost ovals = output_values(t.outputs);
    let mut output_sum: u128 = 0;
    let mut k: usize = 0;
    while k < n_out
        invariant
            t == transaction@,
            m == store@,
            t.inputs.len() > 0,
            t.outputs.len() > 0,
            !has_dup_inputs(t.inputs),
            !has_dup_outputs(t.outputs),
            !has_zero_output(t.outputs),
            all_inputs_resolve(t.inputs, m),
            spec_signing_image(t).len() <= u32::MAX,
            all_sigs_valid(t, m),
            input_sum as int == spec_input_sum(t.inputs, m),
            ovals == output_values(t.outputs),
            n_out == t.outputs.len(),
            k <= n_out,
            output_sum as int + sum_from(ovals, k as int) == spec_output_sum(t.outputs),
        decreases n_out - k,
    {
        let v = transaction.outputs[k].value;
        proof {
            assert(ovals[k as int] == v);
        }
        if v > u128::MAX - output_sum {
            proof {
                lemma_sum_from_nonneg(ovals, k as int + 1);
                assert(spec_output_sum(t.outputs) > u128::MAX);
            }
            return Err(Error::Overflow);
        }
        output_sum = output_sum + v;
        k = k + 1;
    }
    proof {
        assert(output_sum as int == spec_output_sum(t.outputs));
    }

    if input_sum < output_sum {
        return Err(Error::NegativeFee);
    }
    Ok(input_sum - output_sum)
}

} // verus!
