//! The ledger engine: the UTXO store and the reward pool, with the three
//! host-facing entry points. `spend` validates a transaction and applies it
//! atomically; `on_finalize` splits the accumulated fees across the block
//! authorities; `genesis_init` seeds the store at bootstrap.

use vstd::prelude::*;

use crate::crypto::{blake2b_256_of, output_key, output_key_material, reward_key, spec_genesis_key,
    spec_reward_key, genesis_key};
use crate::encoding::spec_encode_tx;
use crate::store::UtxoStore;
use crate::types::{Error, ErrorModel, Event, EventModel, InputModel, OutputModel, Transaction,
    TransactionOutput, TxModel};
use crate::validate::{spec_validate, validate_transaction};

verus! {

/// The UTXO view after the transaction's inputs are consumed, in order.
pub open spec fn remove_inputs(
    m: Map<Seq<u8>, OutputModel>,
    inputs: Seq<InputModel>,
) -> Map<Seq<u8>, OutputModel>
    decreases inputs.len(),
{
    if inputs.len() == 0 {
        m
    } else {
        remove_inputs(m.remove(inputs[0].outpoint), inputs.drop_first())
    }
}

/// The UTXO view after the outputs are inserted, keyed by the transaction's
/// encoding and their position, counting from `index`.
pub open spec fn apply_outputs(
    m: Map<Seq<u8>, OutputModel>,
    enc: Seq<u8>,
    outputs: Seq<OutputModel>,
    index: u64,
) -> Map<Seq<u8>, OutputModel>
    decreases outputs.len(),
{
    if outputs.len() == 0 {
        m
    } else {
        apply_outputs(
            m.insert(blake2b_256_of(output_key_material(enc, index)), outputs[0]),
            enc,
            outputs.drop_first(),
            ((index + 1) as u64),
        )
    }
}

/// The UTXO view after genesis outputs are inserted under their keys.
pub open spec fn seed_outputs(
    m: Map<Seq<u8>, OutputModel>,
    outputs: Seq<OutputModel>,
) -> Map<Seq<u8>, OutputModel>
    decreases outputs.len(),
{
    if outputs.len() == 0 {
        m
    } else {
        seed_outputs(m.insert(spec_genesis_key(outputs[0]), outputs[0]), outputs.drop_first())
    }
}

/// One step of reward dispersal: pay one authority, or record the forfeit
/// when its reward key is already taken.
pub open spec fn disperse_step(
    st: (Map<Seq<u8>, OutputModel>, Seq<EventModel>),
    a: Seq<u8>,
    share: u128,
    block_number: u64,
) -> (Map<Seq<u8>, OutputModel>, Seq<EventModel>) {
    let o = OutputModel { value: share, pubkey: a };
    let key = spec_reward_key(o, block_number);
    if st.0.contains_key(key) {
        (st.0, st.1.push(EventModel::RewardWasted(Some(a))))
    } else {
        (st.0.insert(key, o), st.1.push(EventModel::RewardPaid(a, share)))
    }
}

/// The UTXO view and event log after every authority is processed in order.
pub open spec fn spec_disperse(
    m: Map<Seq<u8>, OutputModel>,
    events: Seq<EventModel>,
    auths: Seq<Seq<u8>>,
    share: u128,
    block_number: u64,
) -> (Map<Seq<u8>, OutputModel>, Seq<EventModel>)
    decreases auths.len(),
{
    if auths.len() == 0 {
        (m, events)
    } else {
        let st = disperse_step((m, events), auths[0], share, block_number);
        spec_disperse(st.0, st.1, auths.drop_first(), share, block_number)
    }
}

/// The authority keys as byte strings, in order.
pub open spec fn auth_views(s: Seq<[u8; 32]>) -> Seq<Seq<u8>> {
    s.map_values(|a: [u8; 32]| a@)
}

/// Consuming one more input removes exactly its outpoint.
pub proof fn lemma_remove_inputs_snoc(
    m: Map<Seq<u8>, OutputModel>,
    s: Seq<InputModel>,
    x: InputModel,
)
    ensures
        remove_inputs(m, s.push(x)) == remove_inputs(m, s).remove(x.outpoint),
    decreases s.len(),
{
    reveal_with_fuel(remove_inputs, 3);
    if s.len() == 0 {
        assert(s.push(x)[0] == x);
        assert(s.push(x).drop_first() =~= Seq::<InputModel>::empty());
    } else {
        assert(s.push(x)[0] == s[0]);
        assert(s.push(x).drop_first() =~= s.drop_first().push(x));
        lemma_remove_inputs_snoc(m.remove(s[0].outpoint), s.drop_first(), x);
    }
}

/// Emitting one more output inserts exactly its key, at the next position.
pub proof fn lemma_apply_outputs_snoc(
    m: Map<Seq<u8>, OutputModel>,
    enc: Seq<u8>,
    s: Seq<OutputModel>,
    x: OutputModel,
    index: u64,
)
    requires
        index + s.len() <= u64::MAX,
    ensures
        apply_outputs(m, enc, s.push(x), index) == apply_outputs(m, enc, s, index).insert(
            blake2b_256_of(output_key_material(enc, (index + s.len()) as u64)),
            x,
        ),
    decreases s.len(),
{
    reveal_with_fuel(apply_outputs, 3);
    if s.len() == 0 {
        assert(s.push(x)[0] == x);
        assert(s.push(x).drop_first() =~= Seq::<OutputModel>::empty());
    } else {
        assert(s.push(x)[0] == s[0]);
        assert(s.push(x).drop_first() =~= s.drop_first().push(x));
        lemma_apply_outputs_snoc(
            m.insert(blake2b_256_of(output_key_material(enc, index)), s[0]),
            enc,
            s.drop_first(),
            x,
            (index + 1) as u64,
        );
    }
}

/// Seeding one more genesis output inserts exactly its key.
pub proof fn lemma_seed_outputs_snoc(
    m: Map<Seq<u8>, OutputModel>,
    s: Seq<OutputModel>,
    x: OutputModel,
)
    ensures
        seed_outputs(m, s.push(x)) == seed_outputs(m, s).insert(spec_genesis_key(x), x),
    decreases s.len(),
{
    reveal_with_fuel(seed_outputs, 3);
    if s.len() == 0 {
        assert(s.push(x)[0] == x);
        assert(s.push(x).drop_first() =~= Seq::<OutputModel>::empty());
    } else {
        assert(s.push(x)[0] == s[0]);
        assert(s.push(x).drop_first() =~= s.drop_first().push(x));
        lemma_seed_outputs_snoc(m.insert(spec_genesis_key(s[0]), s[0]), s.drop_first(), x);
    }
}

/// Paying one more authority appends one step.
pub proof fn lemma_disperse_snoc(
    m: Map<Seq<u8>, OutputModel>,
    events: Seq<EventModel>,
    s: Seq<Seq<u8>>,
    x: Seq<u8>,
    share: u128,
    block_number: u64,
)
    ensures
        spec_disperse(m, events, s.push(x), share, block_number).0 == disperse_step(
            spec_disperse(m, events, s, share, block_number),
            x,
            share,
            block_number,
        ).0,
        spec_disperse(m, events, s.push(x), share, block_number).1 == disperse_step(
            spec_disperse(m, events, s, share, block_number),
            x,
            share,
            block_number,
        ).1,
    decreases s.len(),
{
    reveal_with_fuel(spec_disperse, 3);
    if s.len() == 0 {
        assert(s.push(x)[0] == x);
        assert(s.push(x).drop_first() =~= Seq::<Seq<u8>>::empty());
    } else {
        assert(s.push(x)[0] == s[0]);
        assert(s.push(x).drop_first() =~= s.drop_first().push(x));
        let st = disperse_step((m, events), s[0], share, block_number);
        lemma_disperse_snoc(st.0, st.1, s.drop_first(), x, share, block_number);
    }
}

/// Mathematical model of the whole ledger: the UTXO mapping, the reward
/// pool, and the events emitted so far.
#[verifier::ext_equal]
pub struct LedgerModel {
    pub utxos: Map<Seq<u8>, OutputModel>,
    pub reward: u128,
    pub events: Seq<EventModel>,
}

/// What a spend does to the ledger: the validator's error, an overflow of
/// the reward pool, or the new ledger.
pub open spec fn spec_spend(l: LedgerModel, t: TxModel) -> Result<LedgerModel, ErrorModel> {
    match spec_validate(t, l.utxos) {
        Err(e) => Err(e),
        Ok(fee) => if l.reward + fee > u128::MAX {
            Err(ErrorModel::Overflow)
        } else {
            Ok(
                LedgerModel {
                    utxos: apply_outputs(
                        remove_inputs(l.utxos, t.inputs),
                        spec_encode_tx(t),
                        t.outputs,
                        0,
                    ),
                    reward: (l.reward + fee) as u128,
                    events: l.events.push(EventModel::TransactionApplied(t)),
                },
            )
        },
    }
}

/// The ledger: UTXO store, reward pool and event log.
pub struct Ledger {
    store: UtxoStore,
    reward_total: u128,
    events: Vec<Event>,
}

impl View for Ledger {
    type V = LedgerModel;

    closed spec fn view(&self) -> LedgerModel {
        LedgerModel {
            utxos: self.store@,
            reward: self.reward_total,
            events: self.events@.map_values(|e: Event| e@),
        }
    }
}

impl Ledger {
    /// The ledger's internal invariant.
    pub closed spec fn wf(&self) -> bool {
        self.store.wf()
    }

    /// A fresh ledger: no outputs, empty pool, no events.
    pub fn new() -> (r: Ledger)
        ensures
            r.wf(),
            r@.utxos == Map::<Seq<u8>, OutputModel>::empty(),
            r@.reward == 0,
            r@.events == Seq::<EventModel>::empty(),
    {
        let r = Ledger { store: UtxoStore::new(), reward_total: 0, events: Vec::new() };
        proof {
            assert(r@.events =~= Seq::<EventModel>::empty());
        }
        r
    }

    /// The set of keys the ledger holds is always finite.
    pub proof fn lemma_utxos_finite(&self)
        ensures
            self@.utxos.dom().finite(),
    {
        self.store.lemma_finite();
    }

    /// The fees accrued in this block and not yet dispersed.
    pub fn reward_total(&self) -> (r: u128)
        ensures
            r == self@.reward,
    {
        self.reward_total
    }

    /// The output stored under `key`, if any.
    pub fn utxo(&self, key: &[u8; 32]) -> (r: Option<TransactionOutput>)
        requires
            self.wf(),
        ensures
            match r {
                Some(o) => self@.utxos.contains_key(key@) && o@ == self@.utxos[key@],
                None => !self@.utxos.contains_key(key@),
            },
    {
        self.store.get(key)
    }

    /// Whether `key` resolves to an unspent output.
    pub fn contains_utxo(&self, key: &[u8; 32]) -> (r: bool)
        ensures
            r == self@.utxos.contains_key(key@),
    {
        self.store.contains(key)
    }

    /// How many events the engine has emitted.
    pub fn event_count(&self) -> (r: usize)
        ensures
            r == self@.events.len(),
    {
        self.events.len()
    }

    /// The event at position `i`, oldest first.
    pub fn event_at(&self, i: usize) -> (r: Event)
        requires
            i < self@.events.len(),
        ensures
            r@ == self@.events[i as int],
    {
        self.events[i].clone()
    }

    /// Decides whether `transaction` would be admissible now, and with what
    /// fee, without touching any state.
    pub fn validate(&self, transaction: &Transaction) -> (r: Result<u128, Error>)
        requires
            self.wf(),
        ensures
            r is Ok <==> spec_validate(transaction@, self@.utxos) is Ok,
            r is Ok ==> r->Ok_0 == spec_validate(transaction@, self@.utxos)->Ok_0,
            r is Err ==> r->Err_0@ == spec_validate(transaction@, self@.utxos)->Err_0,
    {
        validate_transaction(transaction, &self.store)
    }

    /// Seeds the store with the genesis outputs, keyed by their encodings.
    pub fn genesis_init(&mut self, outputs: &Vec<TransactionOutput>)
        requires
            old(self).wf(),
        ensures
            final(self).wf(),
            final(self)@.utxos == seed_outputs(
                old(self)@.utxos,
                outputs@.map_values(|o: TransactionOutput| o@),
            ),
            final(self)@.reward == old(self)@.reward,
            final(self)@.events == old(self)@.events,
    {
        let ghost m0 = self.store@;
        let ghost outs = outputs@.map_values(|o: TransactionOutput| o@);
        let mut i: usize = 0;
        while i < outputs.len()
            invariant
                self.store.wf(),
                outs == outputs@.map_values(|o: TransactionOutput| o@),
                i <= outputs@.len(),
                outs.len() == outputs@.len(),
                self.store@ == seed_outputs(m0, outs.take(i as int)),
                self.reward_total == old(self).reward_total,
                self.events@ == old(self).events@,
            decreases outputs@.len() - i,
        {
            let key = genesis_key(&outputs[i]);
            let out = outputs[i].clone();
            self.store.insert(key, out);
            i = i + 1;
            proof {
                assert(outs.take(i as int) =~= outs.take(i - 1).push(outs[i - 1]));
                lemma_seed_outputs_snoc(m0, outs.take(i - 1), outs[i - 1]);
            }
        }
        proof {
            assert(outs.take(outputs@.len() as int) =~= outs);
        }
    }

    /// Validates `transaction` and, when it is admissible, applies it
    /// atomically: the fee joins the pool, the inputs leave the store, the
    /// outputs enter it under their derived keys, and the success event is
    /// emitted. A rejected transaction leaves the ledger untouched.
    pub fn spend(&mut self, transaction: &Transaction) -> (r: Result<(), Error>)
        requires
            old(self).wf(),
        ensures
            final(self).wf(),
            r is Ok <==> spec_spend(old(self)@, transaction@) is Ok,
            r is Ok ==> final(self)@ == spec_spend(old(self)@, transaction@)->Ok_0,
            r is Err ==> *final(self) == *old(self),
            r is Err ==> r->Err_0@ == spec_spend(old(self)@, transaction@)->Err_0,
    {
        let ghost t = transaction@;
        let fee = match validate_transaction(transaction, &self.store) {
            Ok(f) => f,
            Err(e) => {
                return Err(e);
            },
        };
        if fee > u128::MAX - self.reward_total {
            return Err(Error::Overflow);
        }
        let new_total = self.reward_total + fee;

        let ghost m0 = self.store@;
        let mut i: usize = 0;
        while i < transaction.inputs.len()
            invariant
                self.store.wf(),
                t == transaction@,
                i <= t.inputs.len(),
                t.inputs.len() == transaction.inputs@.len(),
                self.store@ == remove_inputs(m0, t.inputs.take(i as int)),
                self.reward_total == old(self).reward_total,
                self.events@ == old(self).events@,
            decreases transaction.inputs@.len() - i,
        {
            self.store.remove(&transaction.inputs[i].outpoint);
            i = i + 1;
            proof {
                assert(t.inputs.take(i as int) =~= t.inputs.take(i - 1).push(t.inputs[i - 1]));
                lemma_remove_inputs_snoc(m0, t.inputs.take(i - 1), t.inputs[i - 1]);
            }
        }
        proof {
            assert(t.inputs.take(t.inputs.len() as int) =~= t.inputs);
        }

        let ghost m1 = self.store@;
        let mut k: usize = 0;
        while k < transaction.outputs.len()
            invariant
                self.store.wf(),
                t == transaction@,
                k <= t.outputs.len(),
                t.outputs.len() == transaction.outputs@.len(),
                self.store@ == apply_outputs(m1, spec_encode_tx(t), t.outputs.take(k as int), 0),
                self.reward_total == old(self).reward_total,
                self.events@ == old(self).events@,
            decreases transaction.outputs@.len() - k,
        {
            let key = output_key(transaction, k as u64);
            let out = transaction.outputs[k].clone();
            self.store.insert(key, out);
            k = k + 1;
            proof {
                assert(t.outputs.take(k as int) =~= t.outputs.take(k - 1).push(t.outputs[k - 1]));
                lemma_apply_outputs_snoc(
                    m1,
                    spec_encode_tx(t),
                    t.outputs.take(k - 1),
                    t.outputs[k - 1],
                    0,
                );
                assert(t.outputs.take(k - 1).len() == k - 1);
            }
        }
        proof {
            assert(t.outputs.take(t.outputs.len() as int) =~= t.outputs);
        }

        self.reward_total = new_total;
        self.events.push(Event::TransactionApplied(transaction.clone()));
        proof {
            assert(self@.events =~= old(self)@.events.push(EventModel::TransactionApplied(t)));
            assert(self@ =~= spec_spend(old(self)@, t)->Ok_0);
        }
        Ok(())
    }

    /// Splits the pool across the authorities: each receives the integer
    /// share, the remainder stays pooled. With no authorities, or a share of
    /// zero, everything carries forward untouched. A reward whose key is
    /// already taken is forfeited and recorded.
    pub fn on_finalize(&mut self, block_number: u64, authorities: &Vec<[u8; 32]>)
        requires
            old(self).wf(),
        ensures
            final(self).wf(),
            authorities@.len() == 0 ==> *final(self) == *old(self),
            authorities@.len() > 0 && old(self)@.reward / (authorities@.len() as u128) == 0
                ==> *final(self) == *old(self),
            authorities@.len() > 0 && old(self)@.reward / (authorities@.len() as u128) > 0 ==> {
                final(self)@.reward == old(self)@.reward % (authorities@.len() as u128)
            },
            authorities@.len() > 0 && old(self)@.reward / (authorities@.len() as u128) > 0 ==> {
                final(self)@.utxos == spec_disperse(
                    old(self)@.utxos,
                    old(self)@.events,
                    auth_views(authorities@),
                    old(self)@.reward / (authorities@.len() as u128),
                    block_number,
                ).0
            },
            authorities@.len() > 0 && old(self)@.reward / (authorities@.len() as u128) > 0 ==> {
                final(self)@.events == spec_disperse(
                    old(self)@.utxos,
                    old(self)@.events,
                    auth_views(authorities@),
                    old(self)@.reward / (authorities@.len() as u128),
                    block_number,
                ).1
            },
    {
        let n = authorities.len();
        if n == 0 {
            return ;
        }
        let pool = self.reward_total;
        let share = pool / (n as u128);
        if share == 0 {
            return ;
        }
        let remainder = pool % (n as u128);
        self.reward_total = remainder;

        let ghost auths = auth_views(authorities@);
        let ghost m0 = self.store@;
        let ghost evs0 = old(self)@.events;
        let mut i: usize = 0;
        while i < n
            invariant
                self.store.wf(),
                auths == auth_views(authorities@),
                n == authorities@.len(),
                auths.len() == n,
                i <= n,
                share > 0,
                self.store@ == spec_disperse(m0, evs0, auths.take(i as int), share, block_number).0,
                self.events@.map_values(|e: Event| e@) == spec_disperse(
                    m0,
                    evs0,
                    auths.take(i as int),
                    share,
                    block_number,
                ).1,
                self.reward_total == remainder,
            decreases n - i,
        {
            let out = TransactionOutput { value: share, pubkey: authorities[i] };
            let key = reward_key(&out, block_number);
            let ghost st = spec_disperse(m0, evs0, auths.take(i as int), share, block_number);
            if self.store.contains(&key) {
                self.events.push(Event::RewardWasted(Some(authorities[i])));
            } else {
                self.store.insert(key, out);
                self.events.push(Event::RewardPaid(authorities[i], share));
            }
            i = i + 1;
            proof {
                assert(auths.take(i as int) =~= auths.take(i - 1).push(auths[i - 1]));
                lemma_disperse_snoc(m0, evs0, auths.take(i - 1), auths[i - 1], share, block_number);
                assert(out@ == OutputModel { value: share, pubkey: auths[i - 1] });
                assert(self.store@ =~= spec_disperse(
                    m0,
                    evs0,
                    auths.take(i as int),
                    share,
                    block_number,
                ).0);
                assert(self.events@.map_values(|e: Event| e@) =~= spec_disperse(
                    m0,
                    evs0,
                    auths.take(i as int),
                    share,
                    block_number,
                ).1);
            }
        }
        proof {
            assert(auths.take(n as int) =~= auths);
        }
    }
}

} // verus!
