//! The vocabulary of the ledger: identifiers, amounts, events and output rows.

use vstd::prelude::*;

verus! {

/// Identifies one account.
#[derive(Debug, Clone, Copy, Hash, PartialEq, Eq, Structural)]
pub struct Client(pub u16);

/// Identifies one deposit or withdrawal. Disputes, resolves and chargebacks
/// refer to an existing id; they never introduce one.
#[derive(Debug, Clone, Copy, Hash, PartialEq, Eq, Structural)]
pub struct Tx(pub u32);

/// The amount of one deposit or withdrawal: a signed fixed-point quantity,
/// counted in the ledger's smallest unit.
#[derive(Debug, Clone, Copy, PartialEq, Eq, Structural)]
pub struct Amount(pub i64);

impl Default for Amount {
    fn default() -> (r: Amount)
        ensures
            r == Amount(0),
    {
        Amount(0)
    }
}

/// A running balance of an account, in the unit of [`Amount`].
///
/// A balance is wider than an amount: an account can take part in at most
/// 2^32 transactions of at most 2^63 units each, so that no sequence of
/// events can carry a balance out of this type's range.
#[derive(Debug, Clone, Copy, PartialEq, Eq, Structural)]
pub struct Balance(pub i128);

impl Default for Balance {
    fn default() -> (r: Balance)
        ensures
            r == Balance(0),
    {
        Balance(0)
    }
}

/// The kind of an event.
#[derive(Debug, Clone, Copy, PartialEq, Eq, Structural)]
pub enum InputType {
    Deposit,
    Withdrawl,
    Dispute,
    Resolve,
    Chargeback,
}

/// One event as it arrives from outside.
#[derive(Debug, Clone, Copy, PartialEq, Eq, Structural)]
pub struct Input {
    pub ty: InputType,
    pub client: Client,
    pub tx: Tx,
    /// Present on deposits and withdrawals; carries no meaning on the other kinds.
    pub amount: Option<Amount>,
}

/// Where a stored deposit or withdrawal stands with respect to disputes.
///
/// `Eligible` becomes `Pending` by a dispute; `Pending` becomes `Eligible`
/// again by a resolve, or `Complete` by a chargeback; `Complete` is final.
#[derive(Debug, Clone, Copy, Hash, PartialEq, Eq, Structural)]
pub enum DisputeStatus {
    Eligible,
    Pending,
    Complete,
}

/// An event in the form the ledger works on. The two variants that carry an
/// amount are also the form in which an accepted deposit or withdrawal is
/// stored, together with its dispute status.
#[derive(Debug, Clone, Copy, PartialEq, Eq, Structural)]
pub enum InputInternal {
    Deposit(Client, Tx, Amount, DisputeStatus),
    Withdrawl(Client, Tx, Amount, DisputeStatus),
    Dispute(Client, Tx),
    Resolve(Client, Tx),
    Chargeback(Client, Tx),
}

impl Input {
    /// A deposit or a withdrawal names its amount.
    pub open spec fn well_formed(self) -> bool {
        (self.ty == InputType::Deposit || self.ty == InputType::Withdrawl) ==> self.amount is Some
    }

    /// Tells whether the event carries what its kind needs.
    pub fn is_well_formed(&self) -> (ok: bool)
        ensures
            ok == self.well_formed(),
    {
        match self.ty {
            InputType::Deposit | InputType::Withdrawl => self.amount.is_some(),
            _ => true,
        }
    }
}

impl InputInternal {
    /// The internal form of a well-formed event. A deposit or withdrawal
    /// starts out `Eligible`.
    pub open spec fn of(input: Input) -> InputInternal {
        match input.ty {
            InputType::Deposit => InputInternal::Deposit(
                input.client,
                input.tx,
                input.amount->0,
                DisputeStatus::Eligible,
            ),
            InputType::Withdrawl => InputInternal::Withdrawl(
                input.client,
                input.tx,
                input.amount->0,
                DisputeStatus::Eligible,
            ),
            InputType::Dispute => InputInternal::Dispute(input.client, input.tx),
            InputType::Resolve => InputInternal::Resolve(input.client, input.tx),
            InputType::Chargeback => InputInternal::Chargeback(input.client, input.tx),
        }
    }

    /// Converts an event to its internal form.
    pub fn from(input: Input) -> (internal: InputInternal)
        requires
            input.well_formed(),
        ensures
            internal == InputInternal::of(input),
    {
        match input.ty {
            InputType::Deposit => InputInternal::Deposit(
                input.client,
                input.tx,
                input.amount.unwrap(),
                DisputeStatus::Eligible,
            ),
            InputType::Withdrawl => InputInternal::Withdrawl(
                input.client,
                input.tx,
                input.amount.unwrap(),
                DisputeStatus::Eligible,
            ),
            InputType::Dispute => InputInternal::Dispute(input.client, input.tx),
            InputType::Resolve => InputInternal::Resolve(input.client, input.tx),
            InputType::Chargeback => InputInternal::Chargeback(input.client, input.tx),
        }
    }

    /// The client that the event or record belongs to.
    pub open spec fn client(self) -> Client {
        match self {
            InputInternal::Deposit(c, _, _, _) => c,
            InputInternal::Withdrawl(c, _, _, _) => c,
            InputInternal::Dispute(c, _) => c,
            InputInternal::Resolve(c, _) => c,
            InputInternal::Chargeback(c, _) => c,
        }
    }

    /// The transaction that the event or record names.
    pub open spec fn tx(self) -> Tx {
        match self {
            InputInternal::Deposit(_, t, _, _) => t,
            InputInternal::Withdrawl(_, t, _, _) => t,
            InputInternal::Dispute(_, t) => t,
            InputInternal::Resolve(_, t) => t,
            InputInternal::Chargeback(_, t) => t,
        }
    }

    /// Whether this is a form that the ledger stores: a deposit or a withdrawal.
    pub open spec fn is_record(self) -> bool {
        self is Deposit || self is Withdrawl
    }

    /// The dispute status of a record.
    pub open spec fn status(self) -> DisputeStatus
        recommends
            self.is_record(),
    {
        match self {
            InputInternal::Deposit(_, _, _, s) => s,
            InputInternal::Withdrawl(_, _, _, s) => s,
            _ => DisputeStatus::Complete,
        }
    }

    /// The record with its dispute status replaced.
    pub open spec fn with_status(self, status: DisputeStatus) -> InputInternal
        recommends
            self.is_record(),
    {
        match self {
            InputInternal::Deposit(c, t, a, _) => InputInternal::Deposit(c, t, a, status),
            InputInternal::Withdrawl(c, t, a, _) => InputInternal::Withdrawl(c, t, a, status),
            _ => self,
        }
    }
}

/// One row of the ledger's output: the balances of one client.
#[derive(Debug, Clone, Copy, PartialEq, Eq, Structural)]
pub struct Output {
    pub client: Client,
    pub available: Balance,
    pub held: Balance,
    pub total: Balance,
    pub locked: bool,
}

} // verus!
