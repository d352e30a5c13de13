//! The executable ledger.

use vstd::prelude::*;
use std::collections::HashMap;
use std::collections::HashSet;
use vstd::std_specs::convert::FromSpec;
use vstd::std_specs::iter::IteratorSpec;
use crate::ledger::{lemma_snapshot_counted, Account, Ledger};
use crate::sums::{lemma_sum_agrees, lemma_sum_bounded, lemma_sum_replaced, sum};
use crate::types::{Amount, Balance, Client, DisputeStatus, Input, InputInternal, Output, Tx};

verus! {

broadcast use vstd::std_specs::hash::group_hash_axioms;

/// The balances of one client.
#[derive(Debug, Clone, Copy, PartialEq, Eq, Structural)]
pub struct ClientData {
    pub avai: Balance,
    pub held: Balance,
    pub total: Balance,
    pub locked: bool,
}

impl Default for ClientData {
    fn default() -> (data: ClientData)
        ensures
            data@ == Account::fresh(),
    {
        ClientData { avai: Balance(0), held: Balance(0), total: Balance(0), locked: false }
    }
}

impl View for ClientData {
    type V = Account;

    open spec fn view(&self) -> Account {
        Account {
            available: self.avai.0 as int,
            held: self.held.0 as int,
            total: self.total.0 as int,
            locked: self.locked,
        }
    }
}

impl<'a> From<(&'a Client, &'a ClientData)> for Output {
    fn from(pair: (&'a Client, &'a ClientData)) -> (row: Output) {
        Output {
            client: *pair.0,
            available: pair.1.avai,
            held: pair.1.held,
            total: pair.1.total,
            locked: pair.1.locked,
        }
    }
}

impl<'a> vstd::std_specs::convert::FromSpecImpl<(&'a Client, &'a ClientData)> for Output {
    open spec fn obeys_from_spec() -> bool {
        true
    }

    open spec fn from_spec(pair: (&'a Client, &'a ClientData)) -> Output {
        Output {
            client: *pair.0,
            available: pair.1.avai,
            held: pair.1.held,
            total: pair.1.total,
            locked: pair.1.locked,
        }
    }
}

/// What one stored transaction contributes to the balances of its client.
struct Share {
    available: int,
    held: int,
}

/// The number of transaction ids.
const TX_COUNT: u64 = 0x1_0000_0000;

/// No amount is farther from zero than this.
const AMOUNT_LIMIT: u64 = 0x8000_0000_0000_0000;

/// The contribution of a record in its present status: eligible, it counts
/// towards the available funds; pending, towards the held ones; complete,
/// towards neither. A withdrawal counts with the opposite sign.
spec fn share_of(record: InputInternal) -> Share {
    match record {
        InputInternal::Deposit(_, _, amount, DisputeStatus::Eligible) => Share {
            available: amount.0 as int,
            held: 0,
        },
        InputInternal::Deposit(_, _, amount, DisputeStatus::Pending) => Share {
            available: 0,
            held: amount.0 as int,
        },
        InputInternal::Withdrawl(_, _, amount, DisputeStatus::Eligible) => Share {
            available: -amount.0,
            held: 0,
        },
        InputInternal::Withdrawl(_, _, amount, DisputeStatus::Pending) => Share {
            available: 0,
            held: -amount.0,
        },
        _ => Share { available: 0, held: 0 },
    }
}

/// The contribution that `shares` lists for `client` under the id `t`, and
/// nothing where it lists none.
spec fn share_at(shares: Map<(Client, Tx), Share>, client: Client, t: int) -> Share {
    if 0 <= t < TX_COUNT && shares.contains_key((client, Tx(t as u32))) {
        shares[(client, Tx(t as u32))]
    } else {
        Share { available: 0, held: 0 }
    }
}

spec fn available_at(shares: Map<(Client, Tx), Share>, client: Client) -> spec_fn(
    int,
) -> int {
    |t: int| share_at(shares, client, t).available
}

spec fn held_at(shares: Map<(Client, Tx), Share>, client: Client) -> spec_fn(int) -> int {
    |t: int| share_at(shares, client, t).held
}

/// No contribution is farther from zero than an amount can be.
spec fn shares_bounded(shares: Map<(Client, Tx), Share>) -> bool {
    forall|client: Client, tx: Tx| #[trigger]
        shares.contains_key((client, tx)) ==> {
            &&& -AMOUNT_LIMIT <= shares[(client, tx)].available <= AMOUNT_LIMIT
            &&& -AMOUNT_LIMIT <= shares[(client, tx)].held <= AMOUNT_LIMIT
        }
}

/// Balances that are sums of bounded contributions stay far inside `i128`.
proof fn lemma_sums_fit(shares: Map<(Client, Tx), Share>, client: Client)
    requires
        shares_bounded(shares),
    ensures
        -(TX_COUNT * AMOUNT_LIMIT) <= sum(available_at(shares, client), TX_COUNT as nat) <= TX_COUNT
            * AMOUNT_LIMIT,
        -(TX_COUNT * AMOUNT_LIMIT) <= sum(held_at(shares, client), TX_COUNT as nat) <= TX_COUNT
            * AMOUNT_LIMIT,
        TX_COUNT * AMOUNT_LIMIT == 0x8000_0000_0000_0000_0000_0000,
{
    lemma_sum_bounded(available_at(shares, client), TX_COUNT as nat, AMOUNT_LIMIT as nat);
    lemma_sum_bounded(held_at(shares, client), TX_COUNT as nat, AMOUNT_LIMIT as nat);
}

/// What listing a contribution under `(client, tx)` does to the sums: those
/// of `client` move by the difference to what was listed before, and those
/// of any other client stay.
proof fn lemma_share_listed(
    shares: Map<(Client, Tx), Share>,
    client: Client,
    tx: Tx,
    share: Share,
    other: Client,
)
    ensures
        ({
            let listed = shares.insert((client, tx), share);
            let before = share_at(shares, client, tx.0 as int);
            &&& other != client ==> {
                &&& sum(available_at(listed, other), TX_COUNT as nat) == sum(
                    available_at(shares, other),
                    TX_COUNT as nat,
                )
                &&& sum(held_at(listed, other), TX_COUNT as nat) == sum(
                    held_at(shares, other),
                    TX_COUNT as nat,
                )
            }
            &&& other == client ==> {
                &&& sum(available_at(listed, other), TX_COUNT as nat) == sum(
                    available_at(shares, other),
                    TX_COUNT as nat,
                ) - before.available + share.available
                &&& sum(held_at(listed, other), TX_COUNT as nat) == sum(
                    held_at(shares, other),
                    TX_COUNT as nat,
                ) - before.held + share.held
            }
        }),
{
    let listed = shares.insert((client, tx), share);
    if other != client {
        lemma_sum_agrees(
            available_at(shares, other),
            available_at(listed, other),
            TX_COUNT as nat,
        );
        lemma_sum_agrees(held_at(shares, other), held_at(listed, other), TX_COUNT as nat);
    } else {
        assert forall|i: int| 0 <= i < TX_COUNT && i != tx.0 implies share_at(shares, client, i)
            == share_at(listed, client, i) by {
            assert(Tx(i as u32) != tx);
        }
        lemma_sum_replaced(
            available_at(shares, client),
            available_at(listed, client),
            TX_COUNT as nat,
            tx.0 as int,
        );
        lemma_sum_replaced(
            held_at(shares, client),
            held_at(listed, client),
            TX_COUNT as nat,
            tx.0 as int,
        );
    }
}

/// What a ledger holds: the accounts of its clients, the transaction ids
/// that each client has consumed, and the accepted deposits and withdrawals.
struct State {
    client_data: HashMap<u16, ClientData>,
    client_record: HashMap<u16, HashSet<u32>>,
    record: HashMap<u32, InputInternal>,
    /// What each transaction that was ever accepted now contributes to its
    /// client's balances, whether or not its record is still stored.
    shares: Ghost<Map<(Client, Tx), Share>>,
}

impl View for State {
    type V = Ledger;

    closed spec fn view(&self) -> Ledger {
        Ledger {
            accounts: Map::new(
                |client: Client| self.client_data@.contains_key(client.0),
                |client: Client| self.client_data@[client.0]@,
            ),
            used: Set::new(
                |pair: (Client, Tx)|
                    self.client_record@.contains_key(pair.0.0) && self.client_record@[pair.0.0]@.contains(
                        pair.1.0,
                    ),
            ),
            records: Map::new(
                |tx: Tx| self.record@.contains_key(tx.0),
                |tx: Tx| self.record@[tx.0],
            ),
        }
    }
}

impl State {
    /// The state before any event.
    fn new() -> (state: State)
        ensures
            state.wf(),
            state@ == Ledger::empty(),
    {
        let state = State {
            client_data: HashMap::new(),
            client_record: HashMap::new(),
            record: HashMap::new(),
            shares: Ghost(Map::empty()),
        };
        assert(state@.accounts =~= Map::empty());
        assert(state@.used =~= Set::empty());
        assert(state@.records =~= Map::empty());
        state
    }

    /// What holds of every ledger between two events: each balance is the
    /// sum of the contributions of the client's transactions, the total is
    /// the sum of the available and the held funds, and each stored record
    /// contributes according to its status.
    spec fn wf(&self) -> bool {
        &&& shares_bounded(self.shares@)
        &&& forall|t: u32| #[trigger]
            self.record@.contains_key(t) ==> {
                let r = self.record@[t];
                &&& r.is_record()
                &&& self.shares@.contains_key((r.client(), Tx(t)))
                &&& self.shares@[(r.client(), Tx(t))] == share_of(r)
            }
        &&& forall|client: Client, tx: Tx| #[trigger]
            self.shares@.contains_key((client, tx)) ==> {
                &&& self.client_data@.contains_key(client.0)
                &&& self.client_record@.contains_key(client.0)
                &&& self.client_record@[client.0]@.contains(tx.0)
            }
        &&& forall|c: u16| #[trigger]
            self.client_data@.contains_key(c) ==> {
                let data = self.client_data@[c];
                &&& data.avai.0 == sum(available_at(self.shares@, Client(c)), TX_COUNT as nat)
                &&& data.held.0 == sum(held_at(self.shares@, Client(c)), TX_COUNT as nat)
                &&& data.total.0 == data.avai.0 + data.held.0
            }
    }

    /// Makes `client` known: a missing account is created fresh.
    fn touch(&mut self, client: Client) -> (data: ClientData)
        requires
            old(self).wf(),
        ensures
            final(self).wf(),
            final(self)@ == old(self)@.touch(client),
            final(self).client_data@.contains_key(client.0),
            final(self).client_data@[client.0] == data,
            final(self).shares == old(self).shares,
            final(self).record == old(self).record,
            final(self).client_record == old(self).client_record,
    {
        match self.client_data.get(&client.0) {
            Some(data) => {
                let data = *data;
                assert(self@.accounts =~= self@.touch(client).accounts);
                data
            },
            None => {
                let data = ClientData::default();
                self.client_data.insert(client.0, data);
                proof {
                    let shares = self.shares@;
                    assert forall|i: int| 0 <= i < TX_COUNT implies #[trigger] share_at(
                        shares,
                        client,
                        i,
                    ) == (Share { available: 0, held: 0 }) by {
                        if shares.contains_key((client, Tx(i as u32))) {
                            assert(old(self).client_data@.contains_key(client.0));
                        }
                    }
                    lemma_sum_bounded(available_at(shares, client), TX_COUNT as nat, 0);
                    lemma_sum_bounded(held_at(shares, client), TX_COUNT as nat, 0);
                    assert(self@.accounts =~= old(self)@.touch(client).accounts);
                }
                data
            },
        }
    }

    /// The balances of a known client are sums of bounded contributions.
    proof fn lemma_balances_fit(&self, client: Client)
        requires
            self.wf(),
            self.client_data@.contains_key(client.0),
        ensures
            -0x8000_0000_0000_0000_0000_0000 <= self.client_data@[client.0].avai.0
                <= 0x8000_0000_0000_0000_0000_0000,
            -0x8000_0000_0000_0000_0000_0000 <= self.client_data@[client.0].held.0
                <= 0x8000_0000_0000_0000_0000_0000,
            self.client_data@[client.0].total.0 == self.client_data@[client.0].avai.0
                + self.client_data@[client.0].held.0,
    {
        lemma_sums_fit(self.shares@, client);
    }

    /// Stores `record` under `tx` and `data` as the account of its client.
    fn store(&mut self, client: Client, tx: Tx, data: ClientData, record: InputInternal)
        requires
            old(self).wf(),
            record.is_record(),
            record.client() == client,
            old(self).client_data@.contains_key(client.0),
            old(self)@.used.contains((client, tx)),
            data.avai.0 == old(self).client_data@[client.0].avai.0 - share_at(
                old(self).shares@,
                client,
                tx.0 as int,
            ).available + share_of(record).available,
            data.held.0 == old(self).client_data@[client.0].held.0 - share_at(
                old(self).shares@,
                client,
                tx.0 as int,
            ).held + share_of(record).held,
            data.total.0 == data.avai.0 + data.held.0,
        ensures
            final(self).wf(),
            final(self)@ == (Ledger {
                accounts: old(self)@.accounts.insert(client, data@),
                records: old(self)@.records.insert(tx, record),
                ..old(self)@
            }),
    {
        self.client_data.insert(client.0, data);
        self.record.insert(tx.0, record);
        self.shares = Ghost(self.shares@.insert((client, tx), share_of(record)));
        proof {
            let before = old(self).shares@;
            assert forall|c: u16| #[trigger] self.client_data@.contains_key(c) implies ({
                let d = self.client_data@[c];
                &&& d.avai.0 == sum(available_at(self.shares@, Client(c)), TX_COUNT as nat)
                &&& d.held.0 == sum(held_at(self.shares@, Client(c)), TX_COUNT as nat)
                &&& d.total.0 == d.avai.0 + d.held.0
            }) by {
                lemma_share_listed(before, client, tx, share_of(record), Client(c));
                if c != client.0 {
                    assert(old(self).client_data@.contains_key(c));
                }
            }
            assert(self@.accounts =~= old(self)@.accounts.insert(client, data@));
            assert(self@.records =~= old(self)@.records.insert(tx, record));
            assert(self@.used =~= old(self)@.used);
        }
    }

    /// Applies a deposit of `client`.
    fn deposit(&mut self, client: Client, tx: Tx, amount: Amount)
        requires
            old(self).wf(),
        ensures
            final(self).wf(),
            final(self)@ == old(self)@.touch(client).deposit(client, tx, amount),
    {
        let data = self.touch(client);
        let ghost known = self@;
        let txs = self.client_record.entry(client.0).or_insert(HashSet::new());
        //duplicate tx shouldn't occur in input anyways, so ignore it if it already exists
        if !txs.contains(&tx.0) {
            txs.insert(tx.0);
            assert(self@.used =~= known.used.insert((client, tx)));
            assert(self@.accounts =~= known.accounts);
            assert(self@.records =~= known.records);
            if !data.locked {
                proof {
                    self.lemma_balances_fit(client);
                }
                let credited = ClientData {
                    avai: Balance(data.avai.0 + amount.0 as i128),
                    held: data.held,
                    total: Balance(data.total.0 + amount.0 as i128),
                    locked: data.locked,
                };
                self.store(
                    client,
                    tx,
                    credited,
                    InputInternal::Deposit(client, tx, amount, DisputeStatus::Eligible),
                );
            }
        } else {
            assert(self@.used =~= known.used);
            assert(self@.accounts =~= known.accounts);
            assert(self@.records =~= known.records);
        }
    }

    /// Applies a withdrawal of `client`.
    fn withdraw(&mut self, client: Client, tx: Tx, amount: Amount)
        requires
            old(self).wf(),
        ensures
            final(self).wf(),
            final(self)@ == old(self)@.touch(client).withdraw(client, tx, amount),
    {
        let data = self.touch(client);
        let ghost known = self@;
        let txs = self.client_record.entry(client.0).or_insert(HashSet::new());
        //duplicate tx shouldn't occur in input anyways, so ignore it if it already exists
        if !txs.contains(&tx.0) && !(data.avai.0 < amount.0 as i128 || data.locked) {
            txs.insert(tx.0);
            assert(self@.used =~= known.used.insert((client, tx)));
            assert(self@.accounts =~= known.accounts);
            assert(self@.records =~= known.records);
            proof {
                self.lemma_balances_fit(client);
            }
            let debited = ClientData {
                avai: Balance(data.avai.0 - amount.0 as i128),
                held: data.held,
                total: Balance(data.total.0 - amount.0 as i128),
                locked: data.locked,
            };
            self.store(
                client,
                tx,
                debited,
                InputInternal::Withdrawl(client, tx, amount, DisputeStatus::Eligible),
            );
        } else {
            assert(self@.used =~= known.used);
            assert(self@.accounts =~= known.accounts);
            assert(self@.records =~= known.records);
        }
    }

    /// The record stored under `tx`, if there is one.
    fn lookup(&self, tx: Tx) -> (found: Option<InputInternal>)
        ensures
            found is Some <==> self@.records.contains_key(tx),
            found is Some ==> found->0 == self@.records[tx] && self.record@.contains_key(tx.0)
                && self.record@[tx.0] == found->0,
    {
        match self.record.get(&tx.0) {
            Some(record) => Some(*record),
            None => None,
        }
    }

    /// Applies a dispute of `client`.
    fn dispute(&mut self, client: Client, tx: Tx)
        requires
            old(self).wf(),
        ensures
            final(self).wf(),
            final(self)@ == old(self)@.touch(client).dispute(client, tx),
    {
        let data = self.touch(client);
        proof {
            self.lemma_balances_fit(client);
        }
        //only take first dispute of tx if there are multiple
        match self.lookup(tx) {
            Some(InputInternal::Deposit(owner, id, amount, status)) => {
                if client == owner && status == DisputeStatus::Eligible && !data.locked {
                    //undo a deposit may make the balance go into negative territory
                    let moved = ClientData {
                        avai: Balance(data.avai.0 - amount.0 as i128),
                        held: Balance(data.held.0 + amount.0 as i128),
                        total: data.total,
                        locked: data.locked,
                    };
                    self.store(
                        client,
                        tx,
                        moved,
                        InputInternal::Deposit(owner, id, amount, DisputeStatus::Pending),
                    );
                }
            },
            Some(InputInternal::Withdrawl(owner, id, amount, status)) => {
                if client == owner && status == DisputeStatus::Eligible && !data.locked {
                    let moved = ClientData {
                        avai: Balance(data.avai.0 + amount.0 as i128),
                        held: Balance(data.held.0 - amount.0 as i128),
                        total: data.total,
                        locked: data.locked,
                    };
                    self.store(
                        client,
                        tx,
                        moved,
                        InputInternal::Withdrawl(owner, id, amount, DisputeStatus::Pending),
                    );
                }
            },
            _ => {},
        }
    }

    /// Applies a resolve of `client`.
    fn resolve(&mut self, client: Client, tx: Tx)
        requires
            old(self).wf(),
        ensures
            final(self).wf(),
            final(self)@ == old(self)@.touch(client).resolve(client, tx),
    {
        let data = self.touch(client);
        proof {
            self.lemma_balances_fit(client);
        }
        match self.lookup(tx) {
            Some(InputInternal::Deposit(owner, id, amount, status)) => {
                if client == owner && status == DisputeStatus::Pending && !data.locked {
                    let moved = ClientData {
                        avai: Balance(data.avai.0 + amount.0 as i128),
                        held: Balance(data.held.0 - amount.0 as i128),
                        total: data.total,
                        locked: data.locked,
                    };
                    self.store(
                        client,
                        tx,
                        moved,
                        InputInternal::Deposit(owner, id, amount, DisputeStatus::Eligible),
                    );
                }
            },
            Some(InputInternal::Withdrawl(owner, id, amount, status)) => {
                if client == owner && status == DisputeStatus::Pending && !data.locked {
                    let moved = ClientData {
                        avai: Balance(data.avai.0 - amount.0 as i128),
                        held: Balance(data.held.0 + amount.0 as i128),
                        total: data.total,
                        locked: data.locked,
                    };
                    self.store(
                        client,
                        tx,
                        moved,
                        InputInternal::Withdrawl(owner, id, amount, DisputeStatus::Eligible),
                    );
                }
            },
            _ => {},
        }
    }

    /// Applies a chargeback of `client`.
    fn chargeback(&mut self, client: Client, tx: Tx)
        requires
            old(self).wf(),
        ensures
            final(self).wf(),
            final(self)@ == old(self)@.touch(client).chargeback(client, tx),
    {
        let data = self.touch(client);
        proof {
            self.lemma_balances_fit(client);
        }
        //undo deposit or withdrawl
        match self.lookup(tx) {
            Some(InputInternal::Deposit(owner, id, amount, status)) => {
                if client == owner && status == DisputeStatus::Pending && !data.locked {
                    let settled = ClientData {
                        avai: data.avai,
                        held: Balance(data.held.0 - amount.0 as i128),
                        total: Balance(data.total.0 - amount.0 as i128),
                        locked: true,
                    };
                    self.store(
                        client,
                        tx,
                        settled,
                        InputInternal::Deposit(owner, id, amount, DisputeStatus::Complete),
                    );
                }
            },
            Some(InputInternal::Withdrawl(owner, id, amount, status)) => {
                if client == owner && status == DisputeStatus::Pending && !data.locked {
                    let settled = ClientData {
                        avai: data.avai,
                        held: Balance(data.held.0 + amount.0 as i128),
                        total: Balance(data.total.0 + amount.0 as i128),
                        locked: true,
                    };
                    self.store(
                        client,
                        tx,
                        settled,
                        InputInternal::Withdrawl(owner, id, amount, DisputeStatus::Complete),
                    );
                }
            },
            _ => {},
        }
    }

    /// Applies one event.
    fn process(&mut self, input: Input)
        requires
            old(self).wf(),
        ensures
            final(self).wf(),
            final(self)@ == old(self)@.process(input),
    {
        if !input.is_well_formed() {
            self.touch(input.client);
            return ;
        }
        match InputInternal::from(input) {
            InputInternal::Deposit(client, tx, amount, _) => self.deposit(client, tx, amount),
            InputInternal::Withdrawl(client, tx, amount, _) => self.withdraw(client, tx, amount),
            InputInternal::Dispute(client, tx) => self.dispute(client, tx),
            InputInternal::Resolve(client, tx) => self.resolve(client, tx),
            InputInternal::Chargeback(client, tx) => self.chargeback(client, tx),
        }
    }

    /// A row for every account.
    fn output(&self) -> (rows: Vec<Output>)
        ensures
            self@.shown_by(rows@),
            rows@.len() == self@.accounts.dom().len(),
    {
        let mut rows: Vec<Output> = Vec::new();
        for entry in it: self.client_data.iter()
            invariant
                it.seq() == self.client_data.iter().remaining(),
                it.seq().no_duplicates(),
                rows@.len() == it.index(),
                forall|i: int|
                    0 <= i < rows@.len() ==> #[trigger] rows@[i] == Output::from_spec(
                        (&Client(*it.seq()[i].0), it.seq()[i].1),
                    ),
        {
            let client = Client(*entry.0);
            rows.push(Output::from((&client, entry.1)));
        }
        proof {
            let listed = self.client_data.iter().remaining();
            assert forall|i: int, j: int| 0 <= i < j < rows@.len() implies rows@[i].client
                != rows@[j].client by {
                assert(self.client_data@.contains_key(*listed[i].0));
                assert(self.client_data@.contains_key(*listed[j].0));
                if rows@[i].client == rows@[j].client {
                    assert(listed[i] == listed[j]);
                }
            }
            assert forall|client: Client| self@.accounts.contains_key(client) implies exists|
                i: int,
            |
                0 <= i < rows@.len() && rows@[i].client == client by {
                let k = client.0;
                assert(self.client_data@.contains_key(k));
                assert(listed.contains((&k, &self.client_data@[k])));
                let i = choose|i: int| 0 <= i < listed.len() && listed[i] == (&k, &self.client_data@[k]);
                assert(rows@[i].client == client);
            }
            assert forall|i: int| 0 <= i < rows@.len() implies self@.accounts.contains_key(
                #[trigger] rows@[i].client,
            ) && rows@[i].shows(rows@[i].client, self@.accounts[rows@[i].client]) by {
                assert(self.client_data@.contains_key(*listed[i].0));
            }
            lemma_snapshot_counted(self@.accounts, rows@);
        }
        rows
    }

    /// Between two events every account is balanced.
    proof fn lemma_balanced(&self)
        requires
            self.wf(),
        ensures
            self@.balanced(),
    {
    }
}

/// A ledger of client accounts.
///
/// It takes one event at a time with [`Executor::process`] and lists the
/// balances of its clients with [`Executor::output`]. Its view is the
/// [`Ledger`] that the events so far have led to.
pub struct Executor {
    state: State,
}

impl View for Executor {
    type V = Ledger;

    closed spec fn view(&self) -> Ledger {
        self.state@
    }
}

impl Default for Executor {
    /// The ledger before any event.
    fn default() -> (executor: Executor)
        ensures
            executor@ == Ledger::empty(),
    {
        Executor { state: State::new() }
    }
}

impl Executor {
    #[verifier::type_invariant]
    spec fn consistent(&self) -> bool {
        self.state.wf()
    }

    /// Applies one event to the ledger.
    ///
    /// An event that the rules do not admit (a duplicate id, a withdrawal
    /// above the available funds, a dispute of an unknown or foreign
    /// transaction, anything on a locked account, a deposit or withdrawal
    /// without an amount) changes nothing beyond making its client known: it
    /// is not an error. Afterwards, as before, the total of every account is
    /// the sum of its available and held funds.
    pub fn process(&mut self, input: Input)
        ensures
            final(self)@ == old(self)@.process(input),
            final(self)@.balanced(),
    {
        proof {
            use_type_invariant(&*self);
        }
        let mut state = State::new();
        std::mem::swap(&mut state, &mut self.state);
        state.process(input);
        proof {
            state.lemma_balanced();
        }
        self.state = state;
    }

    /// The balances of every known client, one row each, in no particular order.
    pub fn output(&self) -> (rows: Vec<Output>)
        ensures
            self@.shown_by(rows@),
            rows@.len() == self@.accounts.dom().len(),
            self@.balanced(),
    {
        proof {
            use_type_invariant(self);
            self.state.lemma_balanced();
        }
        self.state.output()
    }
}

} // verus!
