//! Random events, for trying a ledger out.

use vstd::prelude::*;
use std::collections::HashSet;
use std::ops::Range;
use rand::seq::SliceRandom;
use rand::Rng;
use crate::types::{Amount, Client, Input, InputType, Tx};

verus! {

broadcast use vstd::std_specs::hash::group_hash_axioms;

/// Calls `rand::Rng::gen_range` on the generator of the current thread
/// (`rand::thread_rng`), with the half-open range from `low` to `high`.
///
/// Not proved: that the value lies in that range. `gen_range` panics on an
/// empty range, which the precondition excludes.
#[verifier::external_body]
fn random_between(low: i64, high: i64) -> (value: i64)
    requires
        low < high,
    ensures
        low <= value < high,
{
    rand::thread_rng().gen_range(low..high)
}

/// Calls `rand::seq::SliceRandom::choose` on `kinds`, with the generator of
/// the current thread.
///
/// Not proved: that the result is one of the elements of `kinds`, and that
/// there is none only where `kinds` is empty.
#[verifier::external_body]
fn random_kind(kinds: &[InputType]) -> (kind: Option<InputType>)
    ensures
        match kind {
            Some(k) => kinds@.contains(k),
            None => kinds@.len() == 0,
        },
{
    kinds.choose(&mut rand::thread_rng()).copied()
}

/// How many transaction ids `sample_random` draws before it gives up.
pub const DRAWS: u32 = 1_000_000;

/// The kinds of events, in the order of their declaration.
pub fn all_input_types() -> (kinds: [InputType; 5])
    ensures
        kinds@ == seq![
            InputType::Deposit,
            InputType::Withdrawl,
            InputType::Dispute,
            InputType::Resolve,
            InputType::Chargeback,
        ],
{
    [
        InputType::Deposit,
        InputType::Withdrawl,
        InputType::Dispute,
        InputType::Resolve,
        InputType::Chargeback,
    ]
}

/// Makes events whose parts lie in given ranges, and in which no two deposits
/// or withdrawals share a transaction id. Its view is the set of ids that it
/// has given to a deposit or withdrawal.
pub struct InputBuilder {
    bound_client: Range<Client>,
    bound_tx: Range<Tx>,
    bound_amount: Range<Amount>,
    tx_used: HashSet<u32>,
}

impl View for InputBuilder {
    type V = Set<Tx>;

    closed spec fn view(&self) -> Set<Tx> {
        Set::new(|tx: Tx| self.tx_used@.contains(tx.0))
    }
}

impl InputBuilder {
    /// The clients that events are made for: from `start` up to, and without, `end`.
    pub closed spec fn clients(&self) -> Range<Client> {
        self.bound_client
    }

    /// The transaction ids that events are made with.
    pub closed spec fn ids(&self) -> Range<Tx> {
        self.bound_tx
    }

    /// The amounts that deposits and withdrawals are made with.
    pub closed spec fn amounts(&self) -> Range<Amount> {
        self.bound_amount
    }

    /// Whether `input` is an event that this builder may make: its parts
    /// lie in the ranges, and it has an amount exactly if it is a deposit or
    /// a withdrawal.
    pub open spec fn in_range(&self, input: Input) -> bool {
        &&& self.clients().start.0 <= input.client.0 < self.clients().end.0
        &&& self.ids().start.0 <= input.tx.0 < self.ids().end.0
        &&& match input.ty {
            InputType::Deposit | InputType::Withdrawl => input.amount matches Some(amount)
                && self.amounts().start.0 <= amount.0 < self.amounts().end.0,
            _ => input.amount is None,
        }
    }

    /// Whether the builder cannot make any event: there is no client, or no
    /// transaction id, to draw.
    pub open spec fn barren(&self) -> bool {
        self.clients().start.0 >= self.clients().end.0 || self.ids().start.0 >= self.ids().end.0
    }

    /// Whether the builder is certain to make an event, whatever is drawn:
    /// no range is empty, and no id of the range of ids has been given out,
    /// so that the first id drawn is unused.
    pub open spec fn untouched(&self) -> bool {
        &&& self.clients().start.0 < self.clients().end.0
        &&& self.ids().start.0 < self.ids().end.0
        &&& self.amounts().start.0 < self.amounts().end.0
        &&& forall|tx: Tx|
            self.ids().start.0 <= tx.0 < self.ids().end.0 ==> !(#[trigger] self@.contains(tx))
    }

    /// A builder for the given ranges, which has given out no id yet.
    pub fn new(
        client_range: Range<Client>,
        tx_range: Range<Tx>,
        amount_range: Range<Amount>,
    ) -> (builder: InputBuilder)
        ensures
            builder@ == Set::<Tx>::empty(),
            builder.clients() == client_range,
            builder.ids() == tx_range,
            builder.amounts() == amount_range,
    {
        let builder = InputBuilder {
            bound_client: client_range,
            bound_tx: tx_range,
            bound_amount: amount_range,
            tx_used: HashSet::new(),
        };
        assert(builder@ =~= Set::<Tx>::empty());
        builder
    }

    /// Makes the event of the given kind and parts, unless it is a deposit
    /// or withdrawal whose id has been given out before. A deposit or
    /// withdrawal takes its id; an event of another kind carries no amount.
    pub fn offer(&mut self, ty: InputType, client: Client, tx: Tx, amount: Amount) -> (made: Option<
        Input,
    >)
        ensures
            final(self).clients() == old(self).clients(),
            final(self).ids() == old(self).ids(),
            final(self).amounts() == old(self).amounts(),
            match ty {
                InputType::Deposit | InputType::Withdrawl => if old(self)@.contains(tx) {
                    made is None && final(self)@ == old(self)@
                } else {
                    made == Some(Input { ty, client, tx, amount: Some(amount) }) && final(self)@
                        == old(self)@.insert(tx)
                },
                _ => made == Some(Input { ty, client, tx, amount: None }) && final(self)@ == old(
                    self,
                )@,
            },
    {
        match ty {
            InputType::Deposit | InputType::Withdrawl => {
                if self.tx_used.contains(&tx.0) {
                    None
                } else {
                    self.tx_used.insert(tx.0);
                    assert(self@ =~= old(self)@.insert(tx));
                    Some(Input { ty, client, tx, amount: Some(amount) })
                }
            },
            _ => Some(Input { ty, client, tx, amount: None }),
        }
    }

    /// Makes a random event: a client and a kind, each drawn once; for a
    /// deposit or withdrawal an amount, and an id that was not given out
    /// before, for which up to `DRAWS` ids are drawn; for another kind any id.
    ///
    /// There is no event where a range that it needs is empty, or where
    /// every id drawn had been given out. So there is none without clients
    /// or ids to draw, whatever the kind; and there is one for certain where
    /// no range is empty and no id of the range has been given out.
    pub fn sample_random(&mut self) -> (sample: Option<Input>)
        ensures
            final(self).clients() == old(self).clients(),
            final(self).ids() == old(self).ids(),
            final(self).amounts() == old(self).amounts(),
            old(self).barren() ==> sample is None,
            old(self).untouched() ==> sample is Some,
            match sample {
                Some(input) => {
                    &&& old(self).in_range(input)
                    &&& input.well_formed()
                    &&& input.amount is Some ==> !old(self)@.contains(input.tx) && final(self)@
                        == old(self)@.insert(input.tx)
                    &&& input.amount is None ==> final(self)@ == old(self)@
                },
                None => final(self)@ == old(self)@,
            },
    {
        let clients = (self.bound_client.start.0, self.bound_client.end.0);
        let ids = (self.bound_tx.start.0, self.bound_tx.end.0);
        let amounts = (self.bound_amount.start.0, self.bound_amount.end.0);
        if clients.0 >= clients.1 || ids.0 >= ids.1 {
            return None;
        }
        let client = Client(random_between(clients.0 as i64, clients.1 as i64) as u16);
        let kinds = all_input_types();
        let ty = match random_kind(kinds.as_slice()) {
            Some(kind) => kind,
            None => {
                return None;
            },
        };
        match ty {
            InputType::Deposit | InputType::Withdrawl => {
                if amounts.0 >= amounts.1 {
                    return None;
                }
                let amount = Amount(random_between(amounts.0, amounts.1));
                let mut drawn: u32 = 0;
                while drawn < DRAWS
                    invariant
                        self@ == old(self)@,
                        self.clients() == old(self).clients(),
                        self.ids() == old(self).ids(),
                        self.amounts() == old(self).amounts(),
                        ids == (self.ids().start.0, self.ids().end.0),
                        ids.0 < ids.1,
                        self.clients().start.0 <= client.0 < self.clients().end.0,
                        self.amounts().start.0 <= amount.0 < self.amounts().end.0,
                        ty == InputType::Deposit || ty == InputType::Withdrawl,
                        old(self).untouched() ==> drawn == 0,
                    decreases DRAWS - drawn,
                {
                    //get a unique tx id
                    let candidate = Tx(random_between(ids.0 as i64, ids.1 as i64) as u32);
                    match self.offer(ty, client, candidate, amount) {
                        Some(input) => {
                            return Some(input);
                        },
                        None => {},
                    }
                    drawn = drawn + 1;
                }
                None
            },
            _ => {
                let tx = Tx(random_between(ids.0 as i64, ids.1 as i64) as u32);
                //don't care for the amount of a dispute, resolve or chargeback
                Some(Input { ty, client, tx, amount: None })
            },
        }
    }
}

} // verus!
