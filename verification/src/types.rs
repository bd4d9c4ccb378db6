//! The value objects of the ledger: inputs, outputs and transactions,
//! together with their mathematical models and the error and event surface.

use vstd::prelude::*;

verus! {

/// The value carried by an output: an unsigned 128-bit amount.
pub type Value = u128;

/// Reference to one unspent output together with the proof of authority
/// to spend it.
#[derive(Debug, PartialEq, Eq, PartialOrd, Ord, Hash)]
pub struct TransactionInput {
    /// Key of the output to be consumed.
    pub outpoint: [u8; 32],
    /// sr25519 signature over the transaction's signing image.
    pub sigscript: [u8; 64],
}

/// A spendable coin: an amount locked to the owner of a public key.
/// The derived order is total by (value, pubkey).
#[derive(Debug, PartialEq, Eq, PartialOrd, Ord, Hash)]
pub struct TransactionOutput {
    /// Amount carried by this output.
    pub value: Value,
    /// Public key whose owner may spend this output.
    pub pubkey: [u8; 32],
}

/// An atomic spend: consumes existing outputs, creates new ones.
#[derive(Debug, PartialEq, Eq, PartialOrd, Ord, Hash)]
pub struct Transaction {
    /// Outputs consumed, by key, each with its authorizing signature.
    pub inputs: Vec<TransactionInput>,
    /// Outputs created by this transaction, in order.
    pub outputs: Vec<TransactionOutput>,
}

/// Mathematical model of an input.
#[verifier::ext_equal]
pub struct InputModel {
    pub outpoint: Seq<u8>,
    pub sigscript: Seq<u8>,
}

/// Mathematical model of an output.
#[verifier::ext_equal]
pub struct OutputModel {
    pub value: Value,
    pub pubkey: Seq<u8>,
}

/// Mathematical model of a transaction.
#[verifier::ext_equal]
pub struct TxModel {
    pub inputs: Seq<InputModel>,
    pub outputs: Seq<OutputModel>,
}

impl View for TransactionInput {
    type V = InputModel;

    open spec fn view(&self) -> InputModel {
        InputModel { outpoint: self.outpoint@, sigscript: self.sigscript@ }
    }
}

impl View for TransactionOutput {
    type V = OutputModel;

    open spec fn view(&self) -> OutputModel {
        OutputModel { value: self.value, pubkey: self.pubkey@ }
    }
}

impl View for Transaction {
    type V = TxModel;

    open spec fn view(&self) -> TxModel {
        TxModel {
            inputs: self.inputs@.map_values(|i: TransactionInput| i@),
            outputs: self.outputs@.map_values(|o: TransactionOutput| o@),
        }
    }
}

impl Clone for TransactionInput {
    fn clone(&self) -> (r: Self)
        ensures
            r@ == self@,
    {
        TransactionInput { outpoint: self.outpoint, sigscript: self.sigscript }
    }
}

impl Clone for TransactionOutput {
    fn clone(&self) -> (r: Self)
        ensures
            r@ == self@,
    {
        TransactionOutput { value: self.value, pubkey: self.pubkey }
    }
}

impl Clone for Transaction {
    fn clone(&self) -> (r: Self)
        ensures
            r@ == self@,
    {
        let mut inputs: Vec<TransactionInput> = Vec::new();
        let mut i: usize = 0;
        while i < self.inputs.len()
            invariant
                i <= self.inputs.len(),
                inputs@.len() == i as int,
                forall|j: int| 0 <= j < i ==> inputs@[j]@ == self.inputs@[j]@,
            decreases self.inputs.len() - i,
        {
            inputs.push(self.inputs[i].clone());
            i = i + 1;
        }
        let mut outputs: Vec<TransactionOutput> = Vec::new();
        let mut k: usize = 0;
        while k < self.outputs.len()
            invariant
                k <= self.outputs.len(),
                outputs@.len() == k as int,
                forall|j: int| 0 <= j < k ==> outputs@[j]@ == self.outputs@[j]@,
            decreases self.outputs.len() - k,
        {
            outputs.push(self.outputs[k].clone());
            k = k + 1;
        }
        let r = Transaction { inputs, outputs };
        proof {
            assert(r@.inputs =~= self@.inputs);
            assert(r@.outputs =~= self@.outputs);
            assert(r@ =~= self@);
        }
        r
    }
}

/// Why a spend was rejected; the validator reports the first rule broken.
#[derive(Debug, PartialEq, Eq, Clone, Copy)]
pub enum Error {
    /// The transaction has no inputs or no outputs.
    Empty,
    /// Two inputs reference the same outpoint.
    DuplicateInput,
    /// Two outputs are identical, so their serializations coincide.
    DuplicateOutput,
    /// An output carries the value zero.
    ZeroOutputValue,
    /// The named outpoint does not resolve in the UTXO set.
    MissingInput([u8; 32]),
    /// The signature of the input at this position does not verify.
    InvalidSignature(usize),
    /// A 128-bit sum of values, the reward pool, or the signature
    /// transcript's 32-bit message length counter would overflow.
    Overflow,
    /// The outputs are worth more than the inputs.
    NegativeFee,
    /// The output index counter would overflow its 64 bits.
    IndexOverflow,
}

/// Mathematical model of an error.
pub enum ErrorModel {
    Empty,
    DuplicateInput,
    DuplicateOutput,
    ZeroOutputValue,
    MissingInput(Seq<u8>),
    InvalidSignature(int),
    Overflow,
    NegativeFee,
    IndexOverflow,
}

impl View for Error {
    type V = ErrorModel;

    open spec fn view(&self) -> ErrorModel {
        match *self {
            Error::Empty => ErrorModel::Empty,
            Error::DuplicateInput => ErrorModel::DuplicateInput,
            Error::DuplicateOutput => ErrorModel::DuplicateOutput,
            Error::ZeroOutputValue => ErrorModel::ZeroOutputValue,
            Error::MissingInput(k) => ErrorModel::MissingInput(k@),
            Error::InvalidSignature(i) => ErrorModel::InvalidSignature(i as int),
            Error::Overflow => ErrorModel::Overflow,
            Error::NegativeFee => ErrorModel::NegativeFee,
            Error::IndexOverflow => ErrorModel::IndexOverflow,
        }
    }
}

/// What the engine reports to the host's event bus.
#[derive(Debug, PartialEq, Eq)]
pub enum Event {
    /// A spend was validated and applied.
    TransactionApplied(Transaction),
    /// A reward output of the given value was minted for the authority.
    RewardPaid([u8; 32], Value),
    /// A reward was forfeited, for the authority if one is known.
    RewardWasted(Option<[u8; 32]>),
}

impl Clone for Event {
    fn clone(&self) -> (r: Self)
        ensures
            r@ == self@,
    {
        match self {
            Event::TransactionApplied(t) => Event::TransactionApplied(t.clone()),
            Event::RewardPaid(a, v) => Event::RewardPaid(*a, *v),
            Event::RewardWasted(a) => Event::RewardWasted(*a),
        }
    }
}

/// Mathematical model of an event.
pub enum EventModel {
    TransactionApplied(TxModel),
    RewardPaid(Seq<u8>, Value),
    RewardWasted(Option<Seq<u8>>),
}

impl View for Event {
    type V = EventModel;

    open spec fn view(&self) -> EventModel {
        match *self {
            Event::TransactionApplied(ref t) => EventModel::TransactionApplied(t@),
            Event::RewardPaid(a, v) => EventModel::RewardPaid(a@, v),
            Event::RewardWasted(a) => EventModel::RewardWasted(
                match a {
                    Some(p) => Some(p@),
                    None => None,
                },
            ),
        }
    }
}

} // verus!
