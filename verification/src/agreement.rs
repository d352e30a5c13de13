//! Splitting a ledger among workers changes no balance.
//!
//! The rules of the ledger speak of one client at a time, with one
//! exception: records are kept by transaction id alone, so that a deposit or
//! withdrawal of one client replaces a record that another client stored
//! under the same id. Where no two clients ever use the same id, the workers
//! of a [`crate::dispatch::Dispatcher`] together hold exactly the accounts
//! that a single ledger holds after the same events.

use vstd::prelude::*;
use crate::dispatch::{
    dispatch, dispatch_all, fresh_shards, goes_to, merged, partitioned, route_of,
};
use crate::dispatch::{lemma_dispatch_keeps_partition, lemma_worker_runs_its_share};
use crate::ledger::Ledger;
use crate::types::{Client, DisputeStatus, InputInternal, Tx};

verus! {

/// No two clients make a deposit or a withdrawal under the same transaction id.
pub open spec fn ids_unique(events: Seq<InputInternal>) -> bool {
    forall|i: int, j: int|
        0 <= i < events.len() && 0 <= j < events.len() && (#[trigger] events[i]).is_record() && (
        #[trigger] events[j]).is_record() && events[i].tx() == events[j].tx() ==> events[i].client()
            == events[j].client()
}

/// The ledger of the worker that owns `client`.
spec fn owner(shards: Seq<Ledger>, client: Client) -> Ledger {
    shards[route_of(client, shards.len() as int)]
}

/// Each client's account is the same in the single ledger and with its owner.
spec fn accounts_agree(single: Ledger, shards: Seq<Ledger>) -> bool {
    forall|client: Client|
        {
            &&& single.accounts.contains_key(client) == (#[trigger] owner(
                shards,
                client,
            )).accounts.contains_key(client)
            &&& single.accounts.contains_key(client) ==> single.accounts[client] == owner(
                shards,
                client,
            ).accounts[client]
        }
}

/// Each client has consumed the same ids in the single ledger and with its owner.
spec fn used_agree(single: Ledger, shards: Seq<Ledger>) -> bool {
    forall|client: Client, tx: Tx|
        single.used.contains((client, tx)) == (#[trigger] owner(shards, client).used.contains(
            (client, tx),
        ))
}

/// Each record of the single ledger is held by the owner of its client.
spec fn records_kept(single: Ledger, shards: Seq<Ledger>) -> bool {
    forall|tx: Tx| #[trigger]
        single.records.contains_key(tx) ==> {
            let own = owner(shards, single.records[tx].client());
            own.records.contains_key(tx) && own.records[tx] == single.records[tx]
        }
}

/// Each record of a worker is a record of the single ledger, and belongs to
/// a client that the worker owns.
spec fn records_known(single: Ledger, shards: Seq<Ledger>) -> bool {
    forall|k: int, tx: Tx|
        0 <= k < shards.len() && #[trigger] shards[k].records.contains_key(tx) ==> {
            &&& single.records.contains_key(tx)
            &&& single.records[tx] == shards[k].records[tx]
            &&& route_of(shards[k].records[tx].client(), shards.len() as int) == k
        }
}

/// Each record of the single ledger stems from a deposit or withdrawal that
/// its client made under its id.
spec fn records_traced(single: Ledger, seen: Seq<InputInternal>) -> bool {
    forall|tx: Tx| #[trigger]
        single.records.contains_key(tx) ==> exists|i: int|
            0 <= i < seen.len() && (#[trigger] seen[i]).is_record() && seen[i].tx() == tx
                && seen[i].client() == single.records[tx].client()
}

/// The single ledger and the workers have seen the same events and agree.
spec fn agree(single: Ledger, shards: Seq<Ledger>, seen: Seq<InputInternal>) -> bool {
    &&& shards.len() > 0
    &&& partitioned(shards)
    &&& accounts_agree(single, shards)
    &&& used_agree(single, shards)
    &&& records_kept(single, shards)
    &&& records_known(single, shards)
    &&& records_traced(single, seen)
}

/// A prefix of a sequence in which ids are unique has unique ids.
proof fn lemma_prefix_ids_unique(events: Seq<InputInternal>)
    requires
        ids_unique(events),
        events.len() > 0,
    ensures
        ids_unique(events.drop_last()),
{
    let front = events.drop_last();
    assert forall|i: int, j: int|
        0 <= i < front.len() && 0 <= j < front.len() && (#[trigger] front[i]).is_record() && (
        #[trigger] front[j]).is_record() && front[i].tx() == front[j].tx() implies front[i].client()
        == front[j].client() by {
        assert(front[i] == events[i] && front[j] == events[j]);
    }
}

/// One event keeps the single ledger and the workers in agreement.
proof fn lemma_step_agrees(
    single: Ledger,
    shards: Seq<Ledger>,
    seen: Seq<InputInternal>,
    event: InputInternal,
)
    requires
        agree(single, shards, seen),
        ids_unique(seen.push(event)),
    ensures
        agree(single.apply(event), dispatch(shards, event), seen.push(event)),
{
    let n = shards.len() as int;
    let client = event.client();
    let k = route_of(client, n);
    let own = shards[k];
    let after = single.apply(event);
    let own_after = own.apply(event);
    let shards_after = dispatch(shards, event);
    let seen_after = seen.push(event);
    lemma_dispatch_keeps_partition(shards, event);
    assert(own == owner(shards, client));
    assert(single.touch(client).account(client) == own.touch(client).account(client));
    assert forall|tx: Tx| single.used.contains((client, tx)) == own.used.contains((client, tx)) by {
        assert(owner(shards, client).used.contains((client, tx)) == own.used.contains(
            (client, tx),
        ));
    }
    // what the event finds under an id is the same on both sides
    assert forall|tx: Tx, status: DisputeStatus|
        single.touch(client).open_to(client, tx, status) == own.touch(client).open_to(
            client,
            tx,
            status,
        ) by {
        if single.records.contains_key(tx) && single.records[tx].client() == client {
            assert(owner(shards, single.records[tx].client()) == own);
        }
        if own.records.contains_key(tx) {
            assert(shards[k].records.contains_key(tx));
        }
    }
    assert forall|tx: Tx|
        single.touch(client).open_to(client, tx, DisputeStatus::Eligible) || single.touch(
            client,
        ).open_to(client, tx, DisputeStatus::Pending) implies single.records[tx]
        == own.records[tx] by {
        assert(owner(shards, single.records[tx].client()) == own);
    }
    // a stored deposit or withdrawal replaces no record of another client
    if event.is_record() {
        let tx = event.tx();
        assert(seen_after[seen.len() as int] == event);
        if single.records.contains_key(tx) {
            let i = choose|i: int|
                0 <= i < seen.len() && (#[trigger] seen[i]).is_record() && seen[i].tx() == tx
                    && seen[i].client() == single.records[tx].client();
            assert(seen_after[i] == seen[i]);
            assert(single.records[tx].client() == client);
        }
    }
    assert(after.used.contains((client, event.tx())) == own_after.used.contains(
        (client, event.tx()),
    ));
    assert(after.account(client) == own_after.account(client));
    assert(accounts_agree(after, shards_after)) by {
        assert forall|c: Client|
            {
                &&& after.accounts.contains_key(c) == (#[trigger] owner(
                    shards_after,
                    c,
                )).accounts.contains_key(c)
                &&& after.accounts.contains_key(c) ==> after.accounts[c] == owner(
                    shards_after,
                    c,
                ).accounts[c]
            } by {
            let own_c = owner(shards, c);
            if c != client {
                assert(after.accounts.contains_key(c) == single.accounts.contains_key(c));
                if route_of(c, n) == k {
                    assert(own_after.accounts.contains_key(c) == own.accounts.contains_key(c));
                }
            }
        }
    }
    assert(used_agree(after, shards_after)) by {
        assert forall|c: Client, tx: Tx|
            after.used.contains((c, tx)) == (#[trigger] owner(shards_after, c).used.contains(
                (c, tx),
            )) by {
            assert(single.used.contains((c, tx)) == owner(shards, c).used.contains((c, tx)));
        }
    }
    assert(records_kept(after, shards_after)) by {
        assert forall|tx: Tx| #[trigger] after.records.contains_key(tx) implies ({
            let o = owner(shards_after, after.records[tx].client());
            o.records.contains_key(tx) && o.records[tx] == after.records[tx]
        }) by {
            if tx != event.tx() {
                assert(single.records.contains_key(tx));
                assert(after.records[tx] == single.records[tx]);
                let o = owner(shards, single.records[tx].client());
                assert(o.records.contains_key(tx));
            }
        }
    }
    assert(records_known(after, shards_after)) by {
        assert forall|j: int, tx: Tx|
            0 <= j < shards_after.len() && #[trigger] shards_after[j].records.contains_key(
                tx,
            ) implies ({
            &&& after.records.contains_key(tx)
            &&& after.records[tx] == shards_after[j].records[tx]
            &&& route_of(shards_after[j].records[tx].client(), shards_after.len() as int) == j
        }) by {
            if j == k {
                if tx != event.tx() {
                    assert(shards[k].records.contains_key(tx));
                }
            } else {
                assert(shards[j].records.contains_key(tx));
            }
        }
    }
    assert(records_traced(after, seen_after)) by {
        assert forall|tx: Tx| #[trigger] after.records.contains_key(tx) implies exists|i: int|
            0 <= i < seen_after.len() && (#[trigger] seen_after[i]).is_record()
                && seen_after[i].tx() == tx && seen_after[i].client()
                == after.records[tx].client() by {
            if single.records.contains_key(tx) {
                let i = choose|i: int|
                    0 <= i < seen.len() && (#[trigger] seen[i]).is_record() && seen[i].tx() == tx
                        && seen[i].client() == single.records[tx].client();
                assert(seen_after[i] == seen[i]);
                assert(after.records[tx].client() == single.records[tx].client());
            } else {
                assert(seen_after[seen.len() as int] == event);
            }
        }
    }
}

/// After any events, the single ledger and the workers agree.
proof fn lemma_run_agrees(events: Seq<InputInternal>, workers: nat)
    requires
        workers > 0,
        ids_unique(events),
    ensures
        agree(Ledger::empty().run(events), dispatch_all(fresh_shards(workers), events), events),
    decreases events.len(),
{
    if events.len() == 0 {
    } else {
        lemma_prefix_ids_unique(events);
        lemma_run_agrees(events.drop_last(), workers);
        assert(events.drop_last().push(events.last()) == events);
        lemma_step_agrees(
            Ledger::empty().run(events.drop_last()),
            dispatch_all(fresh_shards(workers), events.drop_last()),
            events.drop_last(),
            events.last(),
        );
    }
}

/// Handing the events of a sequence out to any number of workers, by
/// client, gives every client the account that a single ledger gives it:
/// the workers know the same clients, their accounts taken together are the
/// accounts of the single ledger, and no client is known to two workers. So
/// a snapshot of the workers is a snapshot of the single ledger.
///
/// This needs that no two clients use one transaction id for a deposit or
/// a withdrawal; disputes, resolves and chargebacks may name any id.
pub proof fn lemma_sharding_changes_nothing(events: Seq<InputInternal>, workers: nat)
    requires
        workers > 0,
        ids_unique(events),
    ensures
        partitioned(dispatch_all(fresh_shards(workers), events)),
        merged(dispatch_all(fresh_shards(workers), events)) == Ledger::empty().run(events).accounts,
{
    lemma_run_agrees(events, workers);
    let single = Ledger::empty().run(events);
    let shards = dispatch_all(fresh_shards(workers), events);
    assert forall|client: Client| #[trigger]
        merged(shards).contains_key(client) == single.accounts.contains_key(client) by {
        assert(owner(shards, client) == shards[route_of(client, shards.len() as int)]);
    }
    assert forall|client: Client| #[trigger]
        merged(shards).contains_key(client) implies merged(shards)[client]
        == single.accounts[client] by {
        assert(owner(shards, client) == shards[route_of(client, shards.len() as int)]);
    }
    assert(merged(shards).dom() =~= single.accounts.dom());
    assert(merged(shards) =~= single.accounts);
}

/// Whether an event is one of `client`.
pub open spec fn of_client(client: Client) -> spec_fn(InputInternal) -> bool {
    |event: InputInternal| event.client() == client
}

/// Two tests that tell the same of every event pick the same events.
proof fn lemma_filter_agrees(
    events: Seq<InputInternal>,
    p: spec_fn(InputInternal) -> bool,
    q: spec_fn(InputInternal) -> bool,
)
    requires
        forall|event: InputInternal| #[trigger] p(event) == q(event),
    ensures
        events.filter(p) == events.filter(q),
    decreases events.len(),
{
    reveal(Seq::filter);
    if events.len() > 0 {
        lemma_filter_agrees(events.drop_last(), p, q);
        assert(p(events.last()) == q(events.last()));
    }
}

/// The number of clients.
spec fn clients() -> nat {
    0x1_0000
}

/// The balances depend on the order of events within each client only: two
/// sequences that hold, for every client, the same events of that client in
/// the same order lead to the same accounts, however the events of
/// different clients are interleaved in them, and whether one ledger takes
/// them or any number of workers.
///
/// As for [`lemma_sharding_changes_nothing`], no two clients may use one
/// transaction id for a deposit or a withdrawal.
pub proof fn lemma_interleaving_changes_nothing(
    first: Seq<InputInternal>,
    second: Seq<InputInternal>,
    workers: nat,
)
    requires
        workers > 0,
        ids_unique(first),
        ids_unique(second),
        forall|client: Client|
            first.filter(#[trigger] of_client(client)) == second.filter(of_client(client)),
    ensures
        Ledger::empty().run(second).accounts == Ledger::empty().run(first).accounts,
        merged(dispatch_all(fresh_shards(workers), second)) == Ledger::empty().run(
            first,
        ).accounts,
{
    // with a worker for each client, a worker's share is the events of its client
    let apart_first = dispatch_all(fresh_shards(clients()), first);
    let apart_second = dispatch_all(fresh_shards(clients()), second);
    assert forall|k: int| 0 <= k < clients() implies apart_first[k] == apart_second[k] by {
        let client = Client(k as u16);
        lemma_worker_runs_its_share(first, clients(), k);
        lemma_worker_runs_its_share(second, clients(), k);
        assert forall|event: InputInternal| #[trigger]
            goes_to(clients() as int, k)(event) == of_client(client)(event) by {
            assert(event.client().0 as int % 0x1_0000 == event.client().0);
        }
        lemma_filter_agrees(first, goes_to(clients() as int, k), of_client(client));
        lemma_filter_agrees(second, goes_to(clients() as int, k), of_client(client));
        assert(first.filter(of_client(client)) == second.filter(of_client(client)));
    }
    lemma_worker_runs_its_share(first, clients(), 0);
    lemma_worker_runs_its_share(second, clients(), 0);
    assert(apart_first =~= apart_second);
    lemma_sharding_changes_nothing(first, clients());
    lemma_sharding_changes_nothing(second, clients());
    lemma_sharding_changes_nothing(second, workers);
}

} // verus!
