//! The ledger as a mathematical value, and what each event does to it.
//!
//! Everything here is specification: [`Ledger::apply`] is the meaning of one
//! event, and the executable ledger is proved to compute exactly that.

use vstd::prelude::*;
use crate::types::{Amount, Client, DisputeStatus, Input, InputInternal, Output, Tx};

verus! {

/// The balances of one client, as unbounded integers.
pub struct Account {
    /// Funds the client can withdraw.
    pub available: int,
    /// Funds set aside by open disputes.
    pub held: int,
    /// Available and held funds together.
    pub total: int,
    /// Set by a chargeback, and never cleared.
    pub locked: bool,
}

impl Account {
    /// The account of a client that has not been heard of: empty and unlocked.
    pub open spec fn fresh() -> Account {
        Account { available: 0, held: 0, total: 0, locked: false }
    }

    /// The total is the sum of the available and the held funds.
    pub open spec fn balanced(self) -> bool {
        self.total == self.available + self.held
    }
}

/// The state of a ledger.
pub struct Ledger {
    /// The account of every client that an event has named so far.
    pub accounts: Map<Client, Account>,
    /// The transaction ids that each client has consumed.
    pub used: Set<(Client, Tx)>,
    /// The accepted deposits and withdrawals, by transaction id.
    pub records: Map<Tx, InputInternal>,
}

impl Ledger {
    /// The ledger before any event.
    pub open spec fn empty() -> Ledger {
        Ledger { accounts: Map::empty(), used: Set::empty(), records: Map::empty() }
    }

    /// The account of `client`, which is the fresh account until an event names the client.
    pub open spec fn account(self, client: Client) -> Account {
        if self.accounts.contains_key(client) {
            self.accounts[client]
        } else {
            Account::fresh()
        }
    }

    /// The ledger once `client` is known: a missing account is created fresh.
    pub open spec fn touch(self, client: Client) -> Ledger {
        Ledger { accounts: self.accounts.insert(client, self.account(client)), ..self }
    }

    /// A deposit. A transaction id that the client has consumed makes it a
    /// duplicate, which is ignored. Otherwise the id is consumed; and unless
    /// the account is locked, the amount is credited and the deposit stored.
    pub open spec fn deposit(self, client: Client, tx: Tx, amount: Amount) -> Ledger {
        let account = self.account(client);
        if self.used.contains((client, tx)) {
            self
        } else if account.locked {
            Ledger { used: self.used.insert((client, tx)), ..self }
        } else {
            Ledger {
                accounts: self.accounts.insert(
                    client,
                    Account {
                        available: account.available + amount.0,
                        total: account.total + amount.0,
                        ..account
                    },
                ),
                used: self.used.insert((client, tx)),
                records: self.records.insert(
                    tx,
                    InputInternal::Deposit(client, tx, amount, DisputeStatus::Eligible),
                ),
            }
        }
    }

    /// A withdrawal. A duplicate id, an amount above the available funds, or
    /// a locked account leaves the ledger as it is. Otherwise the id is
    /// consumed, the amount is debited and the withdrawal stored.
    pub open spec fn withdraw(self, client: Client, tx: Tx, amount: Amount) -> Ledger {
        let account = self.account(client);
        if self.used.contains((client, tx)) || account.available < amount.0 || account.locked {
            self
        } else {
            Ledger {
                accounts: self.accounts.insert(
                    client,
                    Account {
                        available: account.available - amount.0,
                        total: account.total - amount.0,
                        ..account
                    },
                ),
                used: self.used.insert((client, tx)),
                records: self.records.insert(
                    tx,
                    InputInternal::Withdrawl(client, tx, amount, DisputeStatus::Eligible),
                ),
            }
        }
    }

    /// Whether an event of `client` about `tx` finds what it needs: a stored
    /// record under that id, which belongs to the client and has the given
    /// status, and an account that is not locked.
    pub open spec fn open_to(self, client: Client, tx: Tx, status: DisputeStatus) -> bool {
        &&& self.records.contains_key(tx)
        &&& self.records[tx].is_record()
        &&& self.records[tx].client() == client
        &&& !self.account(client).locked
        &&& self.records[tx].status() == status
    }

    /// A dispute. On an eligible record it moves the amount out of the
    /// available funds into the held ones (for a withdrawal, the other way
    /// round) and marks the record pending. Nothing keeps either balance from
    /// going below zero. Any other dispute is ignored.
    pub open spec fn dispute(self, client: Client, tx: Tx) -> Ledger {
        let account = self.account(client);
        if self.open_to(client, tx, DisputeStatus::Eligible) {
            let moved = match self.records[tx] {
                InputInternal::Deposit(_, _, amount, _) => Account {
                    available: account.available - amount.0,
                    held: account.held + amount.0,
                    ..account
                },
                InputInternal::Withdrawl(_, _, amount, _) => Account {
                    available: account.available + amount.0,
                    held: account.held - amount.0,
                    ..account
                },
                _ => account,
            };
            Ledger {
                accounts: self.accounts.insert(client, moved),
                records: self.records.insert(
                    tx,
                    self.records[tx].with_status(DisputeStatus::Pending),
                ),
                ..self
            }
        } else {
            self
        }
    }

    /// A resolve. On a pending record it undoes the dispute: the amount
    /// moves back and the record is eligible again. Any other resolve is
    /// ignored.
    pub open spec fn resolve(self, client: Client, tx: Tx) -> Ledger {
        let account = self.account(client);
        if self.open_to(client, tx, DisputeStatus::Pending) {
            let moved = match self.records[tx] {
                InputInternal::Deposit(_, _, amount, _) => Account {
                    available: account.available + amount.0,
                    held: account.held - amount.0,
                    ..account
                },
                InputInternal::Withdrawl(_, _, amount, _) => Account {
                    available: account.available - amount.0,
                    held: account.held + amount.0,
                    ..account
                },
                _ => account,
            };
            Ledger {
                accounts: self.accounts.insert(client, moved),
                records: self.records.insert(
                    tx,
                    self.records[tx].with_status(DisputeStatus::Eligible),
                ),
                ..self
            }
        } else {
            self
        }
    }

    /// A chargeback. On a pending record it takes the amount out of the held
    /// funds and out of the total (for a withdrawal, puts it back into both),
    /// marks the record complete and locks the account. Any other chargeback
    /// is ignored.
    pub open spec fn chargeback(self, client: Client, tx: Tx) -> Ledger {
        let account = self.account(client);
        if self.open_to(client, tx, DisputeStatus::Pending) {
            let settled = match self.records[tx] {
                InputInternal::Deposit(_, _, amount, _) => Account {
                    held: account.held - amount.0,
                    total: account.total - amount.0,
                    locked: true,
                    ..account
                },
                InputInternal::Withdrawl(_, _, amount, _) => Account {
                    held: account.held + amount.0,
                    total: account.total + amount.0,
                    locked: true,
                    ..account
                },
                _ => account,
            };
            Ledger {
                accounts: self.accounts.insert(client, settled),
                records: self.records.insert(
                    tx,
                    self.records[tx].with_status(DisputeStatus::Complete),
                ),
                ..self
            }
        } else {
            self
        }
    }

    /// The ledger after one event. Every event makes its client known; what
    /// else it does depends on its kind. The dispute status that a deposit or
    /// withdrawal carries as an event is not looked at: it is stored as
    /// eligible.
    pub open spec fn apply(self, event: InputInternal) -> Ledger {
        let known = self.touch(event.client());
        match event {
            InputInternal::Deposit(client, tx, amount, _) => known.deposit(client, tx, amount),
            InputInternal::Withdrawl(client, tx, amount, _) => known.withdraw(client, tx, amount),
            InputInternal::Dispute(client, tx) => known.dispute(client, tx),
            InputInternal::Resolve(client, tx) => known.resolve(client, tx),
            InputInternal::Chargeback(client, tx) => known.chargeback(client, tx),
        }
    }

    /// The ledger after one event as it arrives from outside. A deposit or
    /// withdrawal that names no amount is malformed: like any event that the
    /// rules do not admit, it makes its client known and does nothing else.
    pub open spec fn process(self, input: Input) -> Ledger {
        if input.well_formed() {
            self.apply(InputInternal::of(input))
        } else {
            self.touch(input.client)
        }
    }

    /// The ledger after a sequence of events, applied first to last.
    pub open spec fn run(self, events: Seq<InputInternal>) -> Ledger
        decreases events.len(),
    {
        if events.len() == 0 {
            self
        } else {
            self.run(events.drop_last()).apply(events.last())
        }
    }

    /// Every account's total is the sum of its available and held funds.
    pub open spec fn balanced(self) -> bool {
        forall|client: Client| #[trigger]
            self.accounts.contains_key(client) ==> self.accounts[client].balanced()
    }

    /// Whether `rows` is a snapshot of the ledger: one row for each known
    /// client, with the balances of its account, in any order.
    pub open spec fn shown_by(self, rows: Seq<Output>) -> bool {
        snapshot_of(self.accounts, rows)
    }

    /// An event makes its client known, and nobody else.
    pub proof fn lemma_apply_names_its_client(self, event: InputInternal)
        ensures
            self.apply(event).accounts.dom() == self.accounts.dom().insert(event.client()),
    {
        assert(self.apply(event).accounts.dom() =~= self.accounts.dom().insert(event.client()));
    }
}

impl Output {
    /// The row is that of `client`, and its columns are the balances of `account`.
    pub open spec fn shows(self, client: Client, account: Account) -> bool {
        &&& self.client == client
        &&& self.available.0 == account.available
        &&& self.held.0 == account.held
        &&& self.total.0 == account.total
        &&& self.locked == account.locked
    }
}

/// Whether `rows` is a snapshot of `accounts`: every row shows the account
/// of a known client, no client has two rows, and every known client has one.
pub open spec fn snapshot_of(accounts: Map<Client, Account>, rows: Seq<Output>) -> bool {
    &&& forall|i: int|
        0 <= i < rows.len() ==> accounts.contains_key(#[trigger] rows[i].client) && rows[i].shows(
            rows[i].client,
            accounts[rows[i].client],
        )
    &&& forall|i: int, j: int|
        0 <= i < j < rows.len() ==> #[trigger] rows[i].client != #[trigger] rows[j].client
    &&& forall|client: Client| #[trigger]
        accounts.contains_key(client) ==> exists|i: int|
            0 <= i < rows.len() && #[trigger] rows[i].client == client
}

/// A snapshot has as many rows as there are accounts.
pub proof fn lemma_snapshot_counted(accounts: Map<Client, Account>, rows: Seq<Output>)
    requires
        snapshot_of(accounts, rows),
    ensures
        accounts.dom().finite(),
        rows.len() == accounts.dom().len(),
{
    let clients = rows.map_values(|row: Output| row.client);
    assert(clients.no_duplicates());
    assert(clients.to_set() =~= accounts.dom()) by {
        assert forall|client: Client| accounts.dom().contains(client) implies clients.to_set().contains(
            client,
        ) by {
            let i = choose|i: int| 0 <= i < rows.len() && #[trigger] rows[i].client == client;
            assert(clients[i] == client);
        }
    }
    clients.unique_seq_to_set();
}

} // verus!
