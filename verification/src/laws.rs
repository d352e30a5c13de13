//! Laws of the ledger, proved of [`Ledger::apply`] for every state and event.
//!
//! The executable ledger computes `apply`, so each law holds of it as well.

use vstd::prelude::*;
use crate::ledger::Ledger;
use crate::types::{Client, DisputeStatus, Input, InputInternal, Tx};

verus! {

/// An event leaves every account with a total that is the sum of its
/// available and held funds, whatever the signs of the three.
pub proof fn lemma_apply_keeps_balance(ledger: Ledger, event: InputInternal)
    requires
        ledger.balanced(),
    ensures
        ledger.apply(event).balanced(),
{
    let known = ledger.touch(event.client());
    assert(known.balanced());
}

/// The same of an event as it arrives from outside, well-formed or not.
pub proof fn lemma_process_keeps_balance(ledger: Ledger, input: Input)
    requires
        ledger.balanced(),
    ensures
        ledger.process(input).balanced(),
{
    if input.well_formed() {
        lemma_apply_keeps_balance(ledger, InputInternal::of(input));
    }
}

/// After every sequence of events, applied to the empty ledger, the total of
/// every account is the sum of its available and held funds. A prefix of a
/// sequence is a sequence, so this holds after each single event too.
pub proof fn lemma_run_keeps_balance(events: Seq<InputInternal>)
    ensures
        Ledger::empty().run(events).balanced(),
    decreases events.len(),
{
    if events.len() > 0 {
        lemma_run_keeps_balance(events.drop_last());
        lemma_apply_keeps_balance(Ledger::empty().run(events.drop_last()), events.last());
    }
}

/// No event unlocks an account: a locked account is still there, and still
/// locked, after the event.
pub proof fn lemma_lock_is_permanent(ledger: Ledger, event: InputInternal, client: Client)
    requires
        ledger.accounts.contains_key(client),
        ledger.accounts[client].locked,
    ensures
        ledger.apply(event).accounts.contains_key(client),
        ledger.apply(event).accounts[client].locked,
{
}

/// The same of an event as it arrives from outside, well-formed or not.
pub proof fn lemma_lock_survives_process(ledger: Ledger, input: Input, client: Client)
    requires
        ledger.accounts.contains_key(client),
        ledger.accounts[client].locked,
    ensures
        ledger.process(input).accounts.contains_key(client),
        ledger.process(input).accounts[client].locked,
{
}

/// No sequence of events unlocks an account.
pub proof fn lemma_lock_survives_run(ledger: Ledger, events: Seq<InputInternal>, client: Client)
    requires
        ledger.accounts.contains_key(client),
        ledger.accounts[client].locked,
    ensures
        ledger.run(events).accounts.contains_key(client),
        ledger.run(events).accounts[client].locked,
    decreases events.len(),
{
    if events.len() > 0 {
        lemma_lock_survives_run(ledger, events.drop_last(), client);
        lemma_lock_is_permanent(ledger.run(events.drop_last()), events.last(), client);
    }
}

/// A deposit consumes its transaction id, also on a locked account; and a
/// second deposit of the same client under the same id, whatever its amount,
/// leaves the ledger as the first one left it.
pub proof fn lemma_duplicate_deposit_ignored(
    ledger: Ledger,
    first: InputInternal,
    second: InputInternal,
)
    requires
        first is Deposit,
        second is Deposit,
        second.client() == first.client(),
        second.tx() == first.tx(),
    ensures
        ledger.apply(first).used.contains((first.client(), first.tx())),
        ledger.apply(first).apply(second) == ledger.apply(first),
{
    let once = ledger.apply(first);
    assert(once.touch(first.client()).accounts =~= once.accounts);
}

/// A withdrawal of more than the available funds changes no balance, stores
/// no record and consumes no id: all it does is to make its client known.
pub proof fn lemma_overdraft_changes_nothing(ledger: Ledger, event: InputInternal)
    requires
        event matches InputInternal::Withdrawl(client, _, amount, _) && ledger.account(
            client,
        ).available < amount.0,
    ensures
        ledger.apply(event) == ledger.touch(event.client()),
        ledger.apply(event).account(event.client()) == ledger.account(event.client()),
        ledger.apply(event).used == ledger.used,
        ledger.apply(event).records == ledger.records,
{
}

/// A dispute that follows a dispute of the same client and transaction
/// changes nothing.
pub proof fn lemma_second_dispute_ignored(ledger: Ledger, client: Client, tx: Tx)
    ensures
        ({
            let disputed = ledger.apply(InputInternal::Dispute(client, tx));
            disputed.apply(InputInternal::Dispute(client, tx)) == disputed
        }),
{
    let disputed = ledger.apply(InputInternal::Dispute(client, tx));
    assert(disputed.touch(client).accounts =~= disputed.accounts);
}

/// A resolve undoes the dispute before it: where the dispute took effect,
/// the two together leave the ledger as it was, with the record eligible
/// again.
pub proof fn lemma_resolve_undoes_dispute(ledger: Ledger, client: Client, tx: Tx)
    requires
        ledger.touch(client).open_to(client, tx, DisputeStatus::Eligible),
    ensures
        ({
            let resolved = ledger.apply(InputInternal::Dispute(client, tx)).apply(
                InputInternal::Resolve(client, tx),
            );
            &&& resolved == ledger.touch(client)
            &&& resolved.open_to(client, tx, DisputeStatus::Eligible)
        }),
{
    let known = ledger.touch(client);
    let disputed = ledger.apply(InputInternal::Dispute(client, tx));
    let resolved = disputed.apply(InputInternal::Resolve(client, tx));
    assert(disputed.touch(client).accounts =~= disputed.accounts);
    assert(resolved.accounts =~= known.accounts);
    assert(resolved.records =~= known.records);
}

/// A dispute after a dispute and a resolve leaves the ledger as the first
/// dispute alone does: the second dispute acts as if it were the first.
pub proof fn lemma_redispute_after_resolve(ledger: Ledger, client: Client, tx: Tx)
    ensures
        ledger.apply(InputInternal::Dispute(client, tx)).apply(
            InputInternal::Resolve(client, tx),
        ).apply(InputInternal::Dispute(client, tx)) == ledger.apply(
            InputInternal::Dispute(client, tx),
        ),
{
    let disputed = ledger.apply(InputInternal::Dispute(client, tx));
    let resolved = disputed.apply(InputInternal::Resolve(client, tx));
    let again = resolved.apply(InputInternal::Dispute(client, tx));
    assert(disputed.touch(client).accounts =~= disputed.accounts);
    assert(resolved.touch(client).accounts =~= resolved.accounts);
    assert(again.accounts =~= disputed.accounts);
    assert(again.records =~= disputed.records);
}

} // verus!
