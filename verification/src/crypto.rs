//! The boundary to the cryptographic primitives: BLAKE2b-256 for key
//! derivation and sr25519 for spend authorization. The two calls are trusted;
//! their results are named, and everything built on the names is verified.

use vstd::prelude::*;

use crate::encoding::{append_le_bytes, encode_output, encode_transaction, le_bytes,
    spec_encode_output, spec_encode_tx, spec_signing_image};
use crate::types::{OutputModel, Transaction, TransactionOutput, TxModel};

verus! {

/// The BLAKE2b-256 digest of a byte string; a function of the bytes alone.
pub uninterp spec fn blake2b_256_of(data: Seq<u8>) -> Seq<u8>;

/// Whether `sig` is a valid sr25519 signature by `pubkey` over `msg`;
/// a function of the three byte strings alone.
pub uninterp spec fn sr25519_valid(pubkey: Seq<u8>, msg: Seq<u8>, sig: Seq<u8>) -> bool;

/// Relies on blake2b_simd::Params::hash with the output length set to 32
/// bytes: BLAKE2b-256, deterministic in the input bytes.
#[verifier::external_body]
fn blake2b_256(data: &Vec<u8>) -> (r: [u8; 32])
    ensures
        r@ == blake2b_256_of(data@),
{
    let hash = blake2b_simd::Params::new().hash_length(32).hash(data.as_slice());
    let mut out = [0u8; 32];
    out.copy_from_slice(hash.as_bytes());
    out
}

/// Relies on schnorrkel: PublicKey::from_bytes, Signature::from_bytes and
/// PublicKey::verify_simple with an empty signing context. Malformed key or
/// signature bytes never verify, and the outcome is deterministic in the
/// three byte strings. The verifier's transcript length-prefixes the message
/// with a 32-bit counter and asserts on anything longer, so such messages
/// are excluded here; the validator rejects them before it verifies.
#[verifier::external_body]
pub(crate) fn sr25519_verify(pubkey: &[u8; 32], msg: &Vec<u8>, sig: &[u8; 64]) -> (r: bool)
    requires
        msg@.len() <= u32::MAX,
    ensures
        r == sr25519_valid(pubkey@, msg@, sig@),
{
    match (schnorrkel::PublicKey::from_bytes(pubkey), schnorrkel::Signature::from_bytes(sig)) {
        (Ok(pk), Ok(s)) => pk.verify_simple(b"", msg.as_slice(), &s).is_ok(),
        _ => false,
    }
}

/// The bytes hashed to key the output of a transaction at a position:
/// the transaction's encoding followed by the position, 8 bytes little-endian.
pub open spec fn output_key_material(enc: Seq<u8>, index: u64) -> Seq<u8> {
    enc + le_bytes(index as nat, 8)
}

/// The key under which the output at `index` of transaction `t` is stored.
pub open spec fn spec_output_key(t: TxModel, index: u64) -> Seq<u8> {
    blake2b_256_of(output_key_material(spec_encode_tx(t), index))
}

/// The bytes hashed to key a reward output: the output's encoding followed
/// by the block number, 8 bytes little-endian.
pub open spec fn reward_key_material(o: OutputModel, block_number: u64) -> Seq<u8> {
    spec_encode_output(o) + le_bytes(block_number as nat, 8)
}

/// The key under which a reward output minted at `block_number` is stored.
pub open spec fn spec_reward_key(o: OutputModel, block_number: u64) -> Seq<u8> {
    blake2b_256_of(reward_key_material(o, block_number))
}

/// The key under which a genesis output is stored.
pub open spec fn spec_genesis_key(o: OutputModel) -> Seq<u8> {
    blake2b_256_of(spec_encode_output(o))
}

/// Derives the storage key of the output at `index` of transaction `t`.
pub fn output_key(t: &Transaction, index: u64) -> (r: [u8; 32])
    ensures
        r@ == spec_output_key(t@, index),
{
    let mut data = encode_transaction(t);
    append_le_bytes(&mut data, index as u128, 8);
    blake2b_256(&data)
}

/// Derives the storage key of a reward output minted at `block_number`.
pub fn reward_key(o: &TransactionOutput, block_number: u64) -> (r: [u8; 32])
    ensures
        r@ == spec_reward_key(o@, block_number),
{
    let mut data = encode_output(o);
    append_le_bytes(&mut data, block_number as u128, 8);
    blake2b_256(&data)
}

/// Derives the storage key of a genesis output.
pub fn genesis_key(o: &TransactionOutput) -> (r: [u8; 32])
    ensures
        r@ == spec_genesis_key(o@),
{
    let data = encode_output(o);
    blake2b_256(&data)
}

/// Whether the input at position `i` of `t` carries a valid signature over
/// the signing image, under the public key of the output it references.
pub open spec fn spec_sig_ok(t: TxModel, utxos: Map<Seq<u8>, OutputModel>, i: int) -> bool {
    sr25519_valid(
        utxos[t.inputs[i].outpoint].pubkey,
        spec_signing_image(t),
        t.inputs[i].sigscript,
    )
}

} // verus!
