//! Canonical, byte-stable serialization of the value objects: fixed-width
//! little-endian integers, raw fixed-size identifiers, and sequences prefixed
//! with a compact base-128 varint length. The signing image of a transaction
//! is its encoding with every sigscript zeroed.

use vstd::prelude::*;

use crate::types::{InputModel, OutputModel, Transaction, TransactionInput, TransactionOutput,
    TxModel};

verus! {

/// The little-endian bytes of `n`, truncated or zero-padded to width `len`.
pub open spec fn le_bytes(n: nat, len: nat) -> Seq<u8>
    decreases len,
{
    if len == 0 {
        Seq::empty()
    } else {
        seq![(n % 256) as u8] + le_bytes(n / 256, (len - 1) as nat)
    }
}

/// Compact length prefix: base-128 varint, least-significant group first,
/// high bit of a byte set when more bytes follow.
pub open spec fn varint(n: nat) -> Seq<u8>
    decreases n,
{
    if n < 128 {
        seq![n as u8]
    } else {
        seq![(n % 128 + 128) as u8] + varint(n / 128)
    }
}

/// A run of zero bytes, the placeholder for a sigscript in the signing image.
pub open spec fn zero_bytes(len: nat) -> Seq<u8> {
    Seq::new(len, |i: int| 0u8)
}

/// Encoding of one input: outpoint bytes, then sigscript bytes.
pub open spec fn spec_encode_input(i: InputModel) -> Seq<u8> {
    i.outpoint + i.sigscript
}

/// Encoding of one output: 16 value bytes little-endian, then the raw pubkey.
pub open spec fn spec_encode_output(o: OutputModel) -> Seq<u8> {
    le_bytes(o.value as nat, 16) + o.pubkey
}

/// Concatenated encodings of a sequence of inputs.
pub open spec fn spec_encode_inputs(s: Seq<InputModel>) -> Seq<u8>
    decreases s.len(),
{
    if s.len() == 0 {
        Seq::empty()
    } else {
        spec_encode_input(s[0]) + spec_encode_inputs(s.drop_first())
    }
}

/// Concatenated encodings of a sequence of outputs.
pub open spec fn spec_encode_outputs(s: Seq<OutputModel>) -> Seq<u8>
    decreases s.len(),
{
    if s.len() == 0 {
        Seq::empty()
    } else {
        spec_encode_output(s[0]) + spec_encode_outputs(s.drop_first())
    }
}

/// Encoding of a transaction: length-prefixed inputs, then length-prefixed
/// outputs.
pub open spec fn spec_encode_tx(t: TxModel) -> Seq<u8> {
    varint(t.inputs.len()) + spec_encode_inputs(t.inputs) + varint(t.outputs.len())
        + spec_encode_outputs(t.outputs)
}

/// The same input with its sigscript replaced by zero bytes.
pub open spec fn zero_sig(i: InputModel) -> InputModel {
    InputModel { outpoint: i.outpoint, sigscript: zero_bytes(i.sigscript.len()) }
}

/// The message that every input's signature is checked against: the
/// transaction's encoding with all sigscripts zeroed.
pub open spec fn spec_signing_image(t: TxModel) -> Seq<u8> {
    spec_encode_tx(
        TxModel { inputs: t.inputs.map_values(|i: InputModel| zero_sig(i)), outputs: t.outputs },
    )
}

/// Appends the fixed-width little-endian bytes of `n`.
pub fn append_le_bytes(out: &mut Vec<u8>, n: u128, width: usize)
    ensures
        final(out)@ == old(out)@ + le_bytes(n as nat, width as nat),
{
    let mut x = n;
    let mut i: usize = 0;
    while i < width
        invariant
            i <= width,
            out@ + le_bytes(x as nat, (width - i) as nat) == old(out)@ + le_bytes(
                n as nat,
                width as nat,
            ),
        decreases width - i,
    {
        let ghost pre = out@;
        let ghost xpre = x as nat;
        out.push((x % 256) as u8);
        x = x / 256;
        i = i + 1;
        proof {
            assert(le_bytes(xpre, (width - i + 1) as nat) == seq![(xpre % 256) as u8] + le_bytes(
                xpre / 256,
                (width - i) as nat,
            ));
            assert(out@ + le_bytes(x as nat, (width - i) as nat) =~= pre + le_bytes(
                xpre,
                (width - i + 1) as nat,
            ));
        }
    }
    proof {
        assert(le_bytes(x as nat, 0) =~= Seq::<u8>::empty());
        assert(out@ =~= out@ + le_bytes(x as nat, 0));
    }
}

/// Appends the compact varint for `n`.
pub fn append_varint(out: &mut Vec<u8>, n: u64)
    ensures
        final(out)@ == old(out)@ + varint(n as nat),
{
    let mut x = n;
    while x >= 128
        invariant
            out@ + varint(x as nat) == old(out)@ + varint(n as nat),
        decreases x,
    {
        let ghost pre = out@;
        let ghost xpre = x as nat;
        out.push((x % 128 + 128) as u8);
        x = x / 128;
        proof {
            assert(varint(xpre) == seq![(xpre % 128 + 128) as u8] + varint(xpre / 128));
            assert(out@ + varint(x as nat) =~= pre + varint(xpre));
        }
    }
    let ghost pre = out@;
    let ghost xpre = x as nat;
    out.push(x as u8);
    proof {
        assert(varint(xpre) == seq![xpre as u8]);
        assert(out@ =~= pre + varint(xpre));
    }
}

/// Appends a 32-byte identifier as raw bytes.
pub fn append_bytes32(out: &mut Vec<u8>, a: &[u8; 32])
    ensures
        final(out)@ == old(out)@ + a@,
{
    let mut i: usize = 0;
    while i < 32
        invariant
            i <= 32,
            out@ == old(out)@ + a@.take(i as int),
        decreases 32 - i,
    {
        out.push(a[i]);
        i = i + 1;
        proof {
            assert(out@ =~= old(out)@ + a@.take(i as int));
        }
    }
    proof {
        assert(a@.take(32) =~= a@);
    }
}

/// Appends a 64-byte signature as raw bytes.
pub fn append_bytes64(out: &mut Vec<u8>, a: &[u8; 64])
    ensures
        final(out)@ == old(out)@ + a@,
{
    let mut i: usize = 0;
    while i < 64
        invariant
            i <= 64,
            out@ == old(out)@ + a@.take(i as int),
        decreases 64 - i,
    {
        out.push(a[i]);
        i = i + 1;
        proof {
            assert(out@ =~= old(out)@ + a@.take(i as int));
        }
    }
    proof {
        assert(a@.take(64) =~= a@);
    }
}

/// Appends `width` zero bytes.
pub fn append_zero_bytes(out: &mut Vec<u8>, width: usize)
    ensures
        final(out)@ == old(out)@ + zero_bytes(width as nat),
{
    let mut i: usize = 0;
    while i < width
        invariant
            i <= width,
            out@ == old(out)@ + zero_bytes(i as nat),
        decreases width - i,
    {
        out.push(0u8);
        i = i + 1;
        proof {
            assert(out@ =~= old(out)@ + zero_bytes(i as nat));
        }
    }
}

/// A sequence of encoded inputs splits across concatenation.
pub proof fn lemma_encode_inputs_snoc(s: Seq<InputModel>, x: InputModel)
    ensures
        spec_encode_inputs(s.push(x)) == spec_encode_inputs(s) + spec_encode_input(x),
    decreases s.len(),
{
    if s.len() == 0 {
        assert(s.push(x)[0] == x);
        assert(s.push(x).drop_first() =~= Seq::<InputModel>::empty());
        assert(spec_encode_inputs(s.push(x)) == spec_encode_input(x) + spec_encode_inputs(
            s.push(x).drop_first(),
        ));
        assert(spec_encode_inputs(s.push(x).drop_first()) == Seq::<u8>::empty());
        assert(spec_encode_inputs(s) == Seq::<u8>::empty());
        assert(spec_encode_inputs(s.push(x)) =~= spec_encode_inputs(s) + spec_encode_input(x));
    } else {
        assert(s.push(x).drop_first() =~= s.drop_first().push(x));
        assert(s.push(x)[0] == s[0]);
        lemma_encode_inputs_snoc(s.drop_first(), x);
        assert(spec_encode_inputs(s.push(x)) == spec_encode_input(s[0]) + (spec_encode_inputs(
            s.drop_first(),
        ) + spec_encode_input(x)));
        assert(spec_encode_inputs(s) == spec_encode_input(s[0]) + spec_encode_inputs(
            s.drop_first(),
        ));
        assert(spec_encode_inputs(s.push(x)) =~= spec_encode_inputs(s) + spec_encode_input(x));
    }
}

/// A sequence of encoded outputs splits across concatenation.
pub proof fn lemma_encode_outputs_snoc(s: Seq<OutputModel>, x: OutputModel)
    ensures
        spec_encode_outputs(s.push(x)) == spec_encode_outputs(s) + spec_encode_output(x),
    decreases s.len(),
{
    if s.len() == 0 {
        assert(s.push(x)[0] == x);
        assert(s.push(x).drop_first() =~= Seq::<OutputModel>::empty());
        assert(spec_encode_outputs(s.push(x)) == spec_encode_output(x) + spec_encode_outputs(
            s.push(x).drop_first(),
        ));
        assert(spec_encode_outputs(s.push(x).drop_first()) == Seq::<u8>::empty());
        assert(spec_encode_outputs(s) == Seq::<u8>::empty());
        assert(spec_encode_outputs(s.push(x)) =~= spec_encode_outputs(s) + spec_encode_output(x));
    } else {
        assert(s.push(x).drop_first() =~= s.drop_first().push(x));
        assert(s.push(x)[0] == s[0]);
        lemma_encode_outputs_snoc(s.drop_first(), x);
        assert(spec_encode_outputs(s.push(x)) == spec_encode_output(s[0]) + (spec_encode_outputs(
            s.drop_first(),
        ) + spec_encode_output(x)));
        assert(spec_encode_outputs(s) == spec_encode_output(s[0]) + spec_encode_outputs(
            s.drop_first(),
        ));
        assert(spec_encode_outputs(s.push(x)) =~= spec_encode_outputs(s) + spec_encode_output(x));
    }
}

/// Appends the encoding of one input.
pub fn append_input(out: &mut Vec<u8>, i: &TransactionInput)
    ensures
        final(out)@ == old(out)@ + spec_encode_input(i@),
{
    append_bytes32(out, &i.outpoint);
    append_bytes64(out, &i.sigscript);
    proof {
        assert(out@ =~= old(out)@ + spec_encode_input(i@));
    }
}

/// Appends the encoding of one input with its sigscript zeroed.
pub fn append_input_zeroed(out: &mut Vec<u8>, i: &TransactionInput)
    ensures
        final(out)@ == old(out)@ + spec_encode_input(zero_sig(i@)),
{
    append_bytes32(out, &i.outpoint);
    append_zero_bytes(out, 64);
    proof {
        assert(i@.sigscript.len() == 64);
        assert(out@ =~= old(out)@ + spec_encode_input(zero_sig(i@)));
    }
}

/// Appends the encoding of one output.
pub fn append_output(out: &mut Vec<u8>, o: &TransactionOutput)
    ensures
        final(out)@ == old(out)@ + spec_encode_output(o@),
{
    append_le_bytes(out, o.value, 16);
    append_bytes32(out, &o.pubkey);
    proof {
        assert(out@ =~= old(out)@ + spec_encode_output(o@));
    }
}

/// Appends the length-prefixed output section of a transaction.
fn append_outputs(out: &mut Vec<u8>, outputs: &Vec<TransactionOutput>)
    ensures
        final(out)@ == old(out)@ + varint(outputs@.len() as nat) + spec_encode_outputs(
            outputs@.map_values(|o: TransactionOutput| o@),
        ),
{
    let ghost m = outputs@.map_values(|o: TransactionOutput| o@);
    append_varint(out, outputs.len() as u64);
    let mut k: usize = 0;
    while k < outputs.len()
        invariant
            k <= outputs.len(),
            m == outputs@.map_values(|o: TransactionOutput| o@),
            out@ == old(out)@ + varint(outputs@.len() as nat) + spec_encode_outputs(
                m.take(k as int),
            ),
        decreases outputs.len() - k,
    {
        append_output(out, &outputs[k]);
        k = k + 1;
        proof {
            assert(m.take(k as int) =~= m.take(k - 1).push(m[k - 1]));
            lemma_encode_outputs_snoc(m.take(k - 1), m[k - 1]);
            assert(out@ =~= old(out)@ + varint(outputs@.len() as nat) + spec_encode_outputs(
                m.take(k as int),
            ));
        }
    }
    proof {
        assert(m.take(outputs@.len() as int) =~= m);
    }
}

/// Canonical encoding of one output on its own, as genesis seeding and
/// reward keying use it.
pub fn encode_output(o: &TransactionOutput) -> (r: Vec<u8>)
    ensures
        r@ == spec_encode_output(o@),
{
    let mut out: Vec<u8> = Vec::new();
    append_output(&mut out, o);
    proof {
        assert(out@ =~= spec_encode_output(o@));
    }
    out
}

/// Canonical encoding of a whole transaction.
pub fn encode_transaction(t: &Transaction) -> (r: Vec<u8>)
    ensures
        r@ == spec_encode_tx(t@),
{
    let ghost mi = t.inputs@.map_values(|i: TransactionInput| i@);
    let mut out: Vec<u8> = Vec::new();
    append_varint(&mut out, t.inputs.len() as u64);
    let mut k: usize = 0;
    while k < t.inputs.len()
        invariant
            k <= t.inputs.len(),
            mi == t.inputs@.map_values(|i: TransactionInput| i@),
            out@ == varint(t.inputs@.len() as nat) + spec_encode_inputs(mi.take(k as int)),
        decreases t.inputs.len() - k,
    {
        append_input(&mut out, &t.inputs[k]);
        k = k + 1;
        proof {
            assert(mi.take(k as int) =~= mi.take(k - 1).push(mi[k - 1]));
            lemma_encode_inputs_snoc(mi.take(k - 1), mi[k - 1]);
            assert(out@ =~= varint(t.inputs@.len() as nat) + spec_encode_inputs(mi.take(k as int)));
        }
    }
    proof {
        assert(mi.take(t.inputs@.len() as int) =~= mi);
    }
    append_outputs(&mut out, &t.outputs);
    proof {
        assert(out@ =~= spec_encode_tx(t@));
    }
    out
}

/// The bytes every input's signature must cover: the transaction's encoding
/// with each sigscript replaced by zero bytes.
pub fn signing_image(t: &Transaction) -> (r: Vec<u8>)
    ensures
        r@ == spec_signing_image(t@),
{
    let ghost mi = t.inputs@.map_values(|i: TransactionInput| i@).map_values(
        |i: InputModel| zero_sig(i),
    );
    let mut out: Vec<u8> = Vec::new();
    append_varint(&mut out, t.inputs.len() as u64);
    let mut k: usize = 0;
    while k < t.inputs.len()
        invariant
            k <= t.inputs.len(),
            mi == t.inputs@.map_values(|i: TransactionInput| i@).map_values(
                |i: InputModel| zero_sig(i),
            ),
            out@ == varint(t.inputs@.len() as nat) + spec_encode_inputs(mi.take(k as int)),
        decreases t.inputs.len() - k,
    {
        append_input_zeroed(&mut out, &t.inputs[k]);
        k = k + 1;
        proof {
            assert(mi[k - 1] == zero_sig(t.inputs@[k - 1]@));
            assert(mi.take(k as int) =~= mi.take(k - 1).push(mi[k - 1]));
            lemma_encode_inputs_snoc(mi.take(k - 1), mi[k - 1]);
            assert(out@ =~= varint(t.inputs@.len() as nat) + spec_encode_inputs(mi.take(k as int)));
        }
    }
    proof {
        assert(mi.take(t.inputs@.len() as int) =~= mi);
    }
    append_outputs(&mut out, &t.outputs);
    proof {
        assert(out@ =~= spec_signing_image(t@));
    }
    out
}

/// 256 to the power `len`: the number of values a `len`-byte field can hold.
pub open spec fn pow256(len: nat) -> nat
    decreases len,
{
    if len == 0 {
        1
    } else {
        256 * pow256((len - 1) as nat)
    }
}

/// A fixed-width little-endian field has exactly its width in bytes.
pub proof fn lemma_le_bytes_len(n: nat, len: nat)
    ensures
        le_bytes(n, len).len() == len,
    decreases len,
{
    if len > 0 {
        lemma_le_bytes_len(n / 256, (len - 1) as nat);
    }
}

/// Fixed-width little-endian encoding is injective below its capacity.
pub proof fn lemma_le_bytes_injective(n1: nat, n2: nat, len: nat)
    requires
        n1 < pow256(len),
        n2 < pow256(len),
        le_bytes(n1, len) == le_bytes(n2, len),
    ensures
        n1 == n2,
    decreases len,
{
    if len == 0 {
        assert(pow256(0) == 1);
    } else {
        assert(le_bytes(n1, len)[0] == (n1 % 256) as u8);
        assert(le_bytes(n2, len)[0] == (n2 % 256) as u8);
        assert(n1 % 256 < 256 && n2 % 256 < 256);
        assert(((n1 % 256) as u8) as nat == n1 % 256);
        assert(((n2 % 256) as u8) as nat == n2 % 256);
        assert(n1 % 256 == n2 % 256);
        assert(le_bytes(n1, len).drop_first() =~= le_bytes(n1 / 256, (len - 1) as nat)) by {
            lemma_le_bytes_len(n1 / 256, (len - 1) as nat);
        }
        assert(le_bytes(n2, len).drop_first() =~= le_bytes(n2 / 256, (len - 1) as nat)) by {
            lemma_le_bytes_len(n2 / 256, (len - 1) as nat);
        }
        assert(n1 / 256 < pow256((len - 1) as nat)) by (nonlinear_arith)
            requires
                n1 < 256 * pow256((len - 1) as nat),
        ;
        assert(n2 / 256 < pow256((len - 1) as nat)) by (nonlinear_arith)
            requires
                n2 < 256 * pow256((len - 1) as nat),
        ;
        lemma_le_bytes_injective(n1 / 256, n2 / 256, (len - 1) as nat);
        assert(n1 == 256 * (n1 / 256) + n1 % 256) by (nonlinear_arith);
        assert(n2 == 256 * (n2 / 256) + n2 % 256) by (nonlinear_arith);
    }
}

/// Splitting a concatenation at a known suffix length is unambiguous.
pub proof fn lemma_split_suffix(a1: Seq<u8>, b1: Seq<u8>, a2: Seq<u8>, b2: Seq<u8>)
    requires
        a1 + b1 == a2 + b2,
        b1.len() == b2.len(),
    ensures
        a1 == a2,
        b1 == b2,
{
    assert((a1 + b1).len() == (a2 + b2).len());
    assert((a1 + b1).len() == a1.len() + b1.len());
    assert((a2 + b2).len() == a2.len() + b2.len());
    assert(a1.len() == a2.len());
    assert forall|i: int| 0 <= i < a1.len() implies a1[i] == a2[i] by {
        assert((a1 + b1)[i] == a1[i]);
        assert((a2 + b2)[i] == a2[i]);
        assert((a1 + b1)[i] == (a2 + b2)[i]);
    }
    assert(a1 =~= a2);
    assert forall|i: int| 0 <= i < b1.len() implies b1[i] == b2[i] by {
        assert((a1 + b1)[i + a1.len()] == b1[i]);
        assert((a2 + b2)[i + a2.len()] == b2[i]);
        assert((a1 + b1)[i + a1.len()] == (a2 + b2)[i + a2.len()]);
    }
    assert(b1 =~= b2);
}

/// Splitting a concatenation at a known prefix length is unambiguous.
pub proof fn lemma_split_prefix(a1: Seq<u8>, b1: Seq<u8>, a2: Seq<u8>, b2: Seq<u8>)
    requires
        a1 + b1 == a2 + b2,
        a1.len() == a2.len(),
    ensures
        a1 == a2,
        b1 == b2,
{
    assert((a1 + b1).len() == (a2 + b2).len());
    assert((a1 + b1).len() == a1.len() + b1.len());
    assert((a2 + b2).len() == a2.len() + b2.len());
    lemma_split_suffix(a1, b1, a2, b2);
}

/// `pow256(16)` is one more than the largest `u128`.
pub proof fn lemma_pow256_16()
    ensures
        pow256(16) == 0x100000000000000000000000000000000nat,
{
    reveal_with_fuel(pow256, 17);
}

/// `pow256(8)` is one more than the largest `u64`.
pub proof fn lemma_pow256_8()
    ensures
        pow256(8) == 0x10000000000000000nat,
{
    reveal_with_fuel(pow256, 9);
}

/// Two outputs with the same encoding are the same output.
pub proof fn lemma_encode_output_injective(o1: OutputModel, o2: OutputModel)
    requires
        spec_encode_output(o1) == spec_encode_output(o2),
    ensures
        o1 == o2,
{
    lemma_le_bytes_len(o1.value as nat, 16);
    lemma_le_bytes_len(o2.value as nat, 16);
    lemma_split_prefix(
        le_bytes(o1.value as nat, 16),
        o1.pubkey,
        le_bytes(o2.value as nat, 16),
        o2.pubkey,
    );
    lemma_pow256_16();
    lemma_le_bytes_injective(o1.value as nat, o2.value as nat, 16);
    assert(o1 =~= o2);
}

} // verus!
