//! Several ledgers side by side, each the owner of a fixed part of the clients.
//!
//! Every rule of the ledger looks at one client only, so events can be
//! handed out by client: each worker gets the events of its clients, in the
//! order in which they came, and never needs to know of the other workers.

use vstd::prelude::*;
use crate::executor::Executor;
use crate::ledger::{snapshot_of, Account, Ledger};
use crate::types::{Client, Input, InputInternal, Output};

verus! {

/// What a worker is sent: an event, or the notice that none will follow.
#[derive(Debug, Clone, Copy)]
pub enum Msg {
    Item(Input),
    End,
}

/// The worker that owns `client`, of `workers` workers.
pub open spec fn route_of(client: Client, workers: int) -> int {
    client.0 as int % workers
}

/// The index of the worker that owns `client`.
pub fn route(client: Client, workers: usize) -> (worker: usize)
    requires
        workers > 0,
    ensures
        worker == route_of(client, workers as int),
        worker < workers,
{
    client.0 as usize % workers
}

/// `workers` ledgers, before any event.
pub open spec fn fresh_shards(workers: nat) -> Seq<Ledger> {
    Seq::new(workers, |k: int| Ledger::empty())
}

/// The ledgers after one event: the owner of the event's client applies it,
/// and the others stay as they are.
pub open spec fn dispatch(shards: Seq<Ledger>, event: InputInternal) -> Seq<Ledger> {
    if shards.len() == 0 {
        shards
    } else {
        let k = route_of(event.client(), shards.len() as int);
        shards.update(k, shards[k].apply(event))
    }
}

/// The ledgers after one event as it arrives from outside: the owner of the
/// event's client takes it, and the others stay as they are.
pub open spec fn dispatch_input(shards: Seq<Ledger>, input: Input) -> Seq<Ledger> {
    if shards.len() == 0 {
        shards
    } else {
        let k = route_of(input.client, shards.len() as int);
        shards.update(k, shards[k].process(input))
    }
}

/// The ledgers after a sequence of events, handed out first to last.
pub open spec fn dispatch_all(shards: Seq<Ledger>, events: Seq<InputInternal>) -> Seq<Ledger>
    decreases events.len(),
{
    if events.len() == 0 {
        shards
    } else {
        dispatch(dispatch_all(shards, events.drop_last()), events.last())
    }
}

/// No ledger knows a client that another one owns.
pub open spec fn partitioned(shards: Seq<Ledger>) -> bool {
    forall|k: int, client: Client|
        0 <= k < shards.len() && #[trigger] shards[k].accounts.contains_key(client) ==> route_of(
            client,
            shards.len() as int,
        ) == k
}

/// The accounts of those clients whose owner is among the first `upto`
/// ledgers, each as its owner knows it.
pub open spec fn merged_upto(shards: Seq<Ledger>, upto: int) -> Map<Client, Account> {
    Map::new(
        |client: Client|
            {
                let k = route_of(client, shards.len() as int);
                0 <= k < upto && k < shards.len() && shards[k].accounts.contains_key(client)
            },
        |client: Client| shards[route_of(client, shards.len() as int)].accounts[client],
    )
}

/// The accounts of all clients, each as its owner knows it.
pub open spec fn merged(shards: Seq<Ledger>) -> Map<Client, Account> {
    merged_upto(shards, shards.len() as int)
}

/// The rows of a worker come before those of every later worker.
pub open spec fn in_worker_order(rows: Seq<Output>, workers: int) -> bool {
    forall|i: int, j: int|
        0 <= i < j < rows.len() ==> route_of((#[trigger] rows[i]).client, workers) <= route_of(
            (#[trigger] rows[j]).client,
            workers,
        )
}

/// The sequences of `parts` one after the other.
pub open spec fn concat(parts: Seq<Seq<Output>>) -> Seq<Output>
    decreases parts.len(),
{
    if parts.len() == 0 {
        Seq::empty()
    } else {
        concat(parts.drop_last()) + parts.last()
    }
}

/// Dispatching keeps the ledgers apart: an event makes its client known to
/// the owner of that client only.
pub proof fn lemma_dispatch_keeps_partition(shards: Seq<Ledger>, event: InputInternal)
    requires
        partitioned(shards),
    ensures
        partitioned(dispatch(shards, event)),
        dispatch(shards, event).len() == shards.len(),
{
    if shards.len() > 0 {
        let k = route_of(event.client(), shards.len() as int);
        shards[k].lemma_apply_names_its_client(event);
        let after = dispatch(shards, event);
        assert forall|j: int, client: Client|
            0 <= j < after.len() && #[trigger] after[j].accounts.contains_key(
                client,
            ) implies route_of(client, after.len() as int) == j by {
            if j == k {
                assert(after[k].accounts.dom().contains(client));
                if client != event.client() {
                    assert(shards[k].accounts.contains_key(client));
                }
            } else {
                assert(shards[j].accounts.contains_key(client));
            }
        }
    }
}

/// Dispatching keeps the ledgers apart, also where the event is malformed.
pub proof fn lemma_dispatch_input_keeps_partition(shards: Seq<Ledger>, input: Input)
    requires
        partitioned(shards),
    ensures
        partitioned(dispatch_input(shards, input)),
        dispatch_input(shards, input).len() == shards.len(),
        input.well_formed() ==> dispatch_input(shards, input) == dispatch(
            shards,
            InputInternal::of(input),
        ),
{
    if input.well_formed() {
        lemma_dispatch_keeps_partition(shards, InputInternal::of(input));
    } else if shards.len() > 0 {
        let k = route_of(input.client, shards.len() as int);
        let after = dispatch_input(shards, input);
        assert forall|j: int, client: Client|
            0 <= j < after.len() && #[trigger] after[j].accounts.contains_key(
                client,
            ) implies route_of(client, after.len() as int) == j by {
            if j == k {
                if client != input.client {
                    assert(shards[k].accounts.contains_key(client));
                }
            } else {
                assert(shards[j].accounts.contains_key(client));
            }
        }
    }
}

/// A snapshot of the first `upto` ledgers, followed by a snapshot of the
/// next one, is a snapshot of the first `upto + 1`.
pub proof fn lemma_snapshot_extended(
    shards: Seq<Ledger>,
    upto: int,
    rows: Seq<Output>,
    part: Seq<Output>,
)
    requires
        partitioned(shards),
        0 <= upto < shards.len(),
        snapshot_of(merged_upto(shards, upto), rows),
        in_worker_order(rows, shards.len() as int),
        shards[upto].shown_by(part),
    ensures
        snapshot_of(merged_upto(shards, upto + 1), rows + part),
        in_worker_order(rows + part, shards.len() as int),
{
    let all = rows + part;
    assert forall|i: int, j: int| 0 <= i < j < all.len() implies route_of(
        (#[trigger] all[i]).client,
        shards.len() as int,
    ) <= route_of((#[trigger] all[j]).client, shards.len() as int) by {
        if j < rows.len() {
            assert(all[i] == rows[i] && all[j] == rows[j]);
        } else if i >= rows.len() {
            assert(all[i] == part[i - rows.len()] && all[j] == part[j - rows.len()]);
            assert(shards[upto].accounts.contains_key(part[i - rows.len()].client));
            assert(shards[upto].accounts.contains_key(part[j - rows.len()].client));
        } else {
            assert(all[i] == rows[i] && all[j] == part[j - rows.len()]);
            assert(merged_upto(shards, upto).contains_key(rows[i].client));
            assert(shards[upto].accounts.contains_key(part[j - rows.len()].client));
        }
    }
    let before = merged_upto(shards, upto);
    let after = merged_upto(shards, upto + 1);
    assert forall|i: int| 0 <= i < all.len() implies after.contains_key(#[trigger] all[i].client)
        && all[i].shows(all[i].client, after[all[i].client]) by {
        if i < rows.len() {
            assert(all[i] == rows[i]);
            assert(before.contains_key(rows[i].client));
        } else {
            assert(all[i] == part[i - rows.len()]);
            assert(shards[upto].accounts.contains_key(part[i - rows.len()].client));
        }
    }
    assert forall|i: int, j: int| 0 <= i < j < all.len() implies #[trigger] all[i].client
        != #[trigger] all[j].client by {
        if j < rows.len() {
            assert(all[i] == rows[i] && all[j] == rows[j]);
        } else if i >= rows.len() {
            assert(all[i] == part[i - rows.len()] && all[j] == part[j - rows.len()]);
        } else {
            assert(all[i] == rows[i] && all[j] == part[j - rows.len()]);
            assert(before.contains_key(rows[i].client));
            assert(shards[upto].accounts.contains_key(part[j - rows.len()].client));
        }
    }
    assert forall|client: Client| #[trigger] after.contains_key(client) implies exists|i: int|
        0 <= i < all.len() && #[trigger] all[i].client == client by {
        if route_of(client, shards.len() as int) < upto {
            assert(before.contains_key(client));
            let i = choose|i: int| 0 <= i < rows.len() && #[trigger] rows[i].client == client;
            assert(all[i].client == client);
        } else {
            assert(shards[upto].accounts.contains_key(client));
            let i = choose|i: int| 0 <= i < part.len() && #[trigger] part[i].client == client;
            assert(all[rows.len() + i] == part[i]);
            assert(all[rows.len() + i].client == client);
        }
    }
}

/// Snapshots of ledgers that are kept apart, put one after the other, are a
/// snapshot of all their accounts: no client is listed twice, none is left
/// out. The rows stand in the order of the workers.
pub proof fn lemma_merged_snapshot(shards: Seq<Ledger>, parts: Seq<Seq<Output>>)
    requires
        partitioned(shards),
        parts.len() <= shards.len(),
        forall|k: int| 0 <= k < parts.len() ==> (#[trigger] shards[k]).shown_by(parts[k]),
    ensures
        snapshot_of(merged_upto(shards, parts.len() as int), concat(parts)),
        in_worker_order(concat(parts), shards.len() as int),
    decreases parts.len(),
{
    if parts.len() > 0 {
        let front = parts.drop_last();
        assert forall|k: int| 0 <= k < front.len() implies (#[trigger] shards[k]).shown_by(
            front[k],
        ) by {
            assert(front[k] == parts[k]);
        }
        lemma_merged_snapshot(shards, front);
        lemma_snapshot_extended(shards, front.len() as int, concat(front), parts.last());
    }
}

/// Whether an event goes to worker `k`, of `workers` workers.
pub open spec fn goes_to(workers: int, k: int) -> spec_fn(InputInternal) -> bool {
    |event: InputInternal| route_of(event.client(), workers) == k
}

/// Each worker ends up with the ledger that it gets by applying, in their
/// order of arrival, the events of the clients that it owns, and no other.
pub proof fn lemma_worker_runs_its_share(events: Seq<InputInternal>, workers: nat, k: int)
    requires
        0 <= k < workers,
    ensures
        dispatch_all(fresh_shards(workers), events).len() == workers,
        dispatch_all(fresh_shards(workers), events)[k] == Ledger::empty().run(
            events.filter(goes_to(workers as int, k)),
        ),
    decreases events.len(),
{
    reveal(Seq::filter);
    if events.len() > 0 {
        let front = events.drop_last();
        let event = events.last();
        lemma_worker_runs_its_share(front, workers, k);
        let share = front.filter(goes_to(workers as int, k));
        if route_of(event.client(), workers as int) == k {
            assert(share.push(event).drop_last() == share);
        }
    }
}

impl Executor {
    /// One step of a worker: applies the event of an `Item` and asks for
    /// more; does nothing on `End`, after which nothing more is to be taken.
    pub fn receive(&mut self, msg: Msg) -> (more: bool)
        ensures
            match msg {
                Msg::Item(input) => more && final(self)@ == old(self)@.process(input),
                Msg::End => !more && final(self)@ == old(self)@,
            },
    {
        match msg {
            Msg::Item(input) => {
                self.process(input);
                true
            },
            Msg::End => false,
        }
    }
}

/// Puts the snapshots of several workers together, in the order of the workers.
pub fn merge(parts: Vec<Vec<Output>>) -> (rows: Vec<Output>)
    ensures
        rows@ == concat(parts@.map_values(|part: Vec<Output>| part@)),
{
    let ghost views = parts@.map_values(|part: Vec<Output>| part@);
    let mut rows: Vec<Output> = Vec::new();
    let mut k: usize = 0;
    while k < parts.len()
        invariant
            k <= parts.len(),
            views == parts@.map_values(|part: Vec<Output>| part@),
            rows@ == concat(views.take(k as int)),
        decreases parts.len() - k,
    {
        let part = &parts[k];
        let ghost start = rows@;
        let mut i: usize = 0;
        while i < part.len()
            invariant
                i <= part.len(),
                rows@ == start + part@.take(i as int),
            decreases part.len() - i,
        {
            rows.push(part[i]);
            assert(part@.take(i as int + 1) == part@.take(i as int).push(part@[i as int]));
            i = i + 1;
        }
        proof {
            assert(part@.take(i as int) == part@);
            assert(views.take(k as int + 1).drop_last() == views.take(k as int));
            assert(views.take(k as int + 1).last() == part@);
        }
        k = k + 1;
    }
    assert(views.take(k as int) == views);
    rows
}

/// Calls `num_cpus::get`, the number of processors that this process can use.
///
/// Not proved: that the number is at least one, which is what the
/// documentation of `num_cpus::get` promises ("This will always return at
/// least `1`"). Which number it is depends on the machine.
#[verifier::external_body]
fn processors() -> (count: usize)
    ensures
        count >= 1,
{
    num_cpus::get()
}

/// A ledger split among a fixed number of workers. Its view is the sequence
/// of the workers' ledgers.
pub struct Dispatcher {
    workers: Vec<Executor>,
}

impl View for Dispatcher {
    type V = Seq<Ledger>;

    closed spec fn view(&self) -> Seq<Ledger> {
        self.workers@.map_values(|worker: Executor| worker@)
    }
}

impl Dispatcher {
    #[verifier::type_invariant]
    spec fn consistent(&self) -> bool {
        partitioned(self@)
    }

    /// A dispatcher with `workers` workers, none of which has seen an event.
    pub fn new(workers: usize) -> (dispatcher: Dispatcher)
        requires
            workers > 0,
        ensures
            dispatcher@ == fresh_shards(workers as nat),
    {
        let mut made: Vec<Executor> = Vec::new();
        let mut k: usize = 0;
        while k < workers
            invariant
                k <= workers,
                made@.len() == k,
                forall|j: int| 0 <= j < k ==> (#[trigger] made@[j])@ == Ledger::empty(),
            decreases workers - k,
        {
            made.push(Executor::default());
            k = k + 1;
        }
        let dispatcher = Dispatcher { workers: made };
        assert(dispatcher@ =~= fresh_shards(workers as nat));
        dispatcher
    }

    /// A dispatcher with one worker for each processor that this process
    /// can use: at least one worker, none of which has seen an event.
    pub fn per_processor() -> (dispatcher: Dispatcher)
        ensures
            dispatcher@.len() >= 1,
            dispatcher@ == fresh_shards(dispatcher@.len()),
    {
        Dispatcher::new(processors())
    }

    /// Gives the workers away, in their order, to be run apart from each
    /// other: worker `k` is to get the events of the clients that
    /// [`route`] sends to `k`.
    pub fn into_workers(self) -> (workers: Vec<Executor>)
        ensures
            workers@.map_values(|worker: Executor| worker@) == self@,
            partitioned(self@),
    {
        proof {
            use_type_invariant(&self);
        }
        self.workers
    }

    /// The number of workers.
    pub fn workers(&self) -> (count: usize)
        ensures
            count == self@.len(),
    {
        self.workers.len()
    }

    /// Hands one event to the worker that owns its client.
    pub fn process(&mut self, input: Input)
        ensures
            final(self)@ == dispatch_input(old(self)@, input),
            input.well_formed() ==> final(self)@ == dispatch(
                old(self)@,
                InputInternal::of(input),
            ),
    {
        proof {
            use_type_invariant(&*self);
            lemma_dispatch_input_keeps_partition(self@, input);
        }
        let mut workers: Vec<Executor> = Vec::new();
        std::mem::swap(&mut workers, &mut self.workers);
        if workers.len() > 0 {
            let k = route(input.client, workers.len());
            workers[k].process(input);
        }
        assert(workers@.map_values(|worker: Executor| worker@) =~= dispatch_input(
            old(self)@,
            input,
        ));
        self.workers = workers;
    }

    /// The balances of every client known to any worker, one row each: the
    /// rows of the first worker, then those of the second, and so on.
    pub fn output(&self) -> (rows: Vec<Output>)
        ensures
            snapshot_of(merged(self@), rows@),
            in_worker_order(rows@, self@.len() as int),
            partitioned(self@),
    {
        proof {
            use_type_invariant(self);
        }
        let mut parts: Vec<Vec<Output>> = Vec::new();
        let mut k: usize = 0;
        while k < self.workers.len()
            invariant
                k <= self.workers.len(),
                parts@.len() == k,
                forall|j: int| 0 <= j < k ==> (#[trigger] self@[j]).shown_by(parts@[j]@),
            decreases self.workers.len() - k,
        {
            let part = self.workers[k].output();
            assert(self@[k as int] == self.workers@[k as int]@);
            parts.push(part);
            k = k + 1;
        }
        proof {
            let views = parts@.map_values(|part: Vec<Output>| part@);
            assert forall|j: int| 0 <= j < views.len() implies (#[trigger] self@[j]).shown_by(
                views[j],
            ) by {
                assert(views[j] == parts@[j]@);
            }
            lemma_merged_snapshot(self@, views);
        }
        merge(parts)
    }
}

} // verus!
