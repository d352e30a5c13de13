use std::collections::HashSet;
use transaction::{all_input_types, Amount, Client, Input, InputBuilder, InputType, Tx};

fn builder() -> InputBuilder {
    InputBuilder::new(Client(10)..Client(20), Tx(100)..Tx(5000), Amount(-999)..Amount(999))
}

#[test]
fn kinds_in_declaration_order() {
    assert_eq!(
        all_input_types(),
        [
            InputType::Deposit,
            InputType::Withdrawl,
            InputType::Dispute,
            InputType::Resolve,
            InputType::Chargeback,
        ]
    );
}

#[test]
fn offer_gives_an_id_to_one_deposit_only() {
    let mut builder = builder();
    let first = builder.offer(InputType::Deposit, Client(11), Tx(101), Amount(5));
    let first: Input = first.unwrap();
    assert_eq!(first.ty, InputType::Deposit);
    assert_eq!(first.client, Client(11));
    assert_eq!(first.tx, Tx(101));
    assert_eq!(first.amount, Some(Amount(5)));
    assert!(builder.offer(InputType::Deposit, Client(12), Tx(101), Amount(6)).is_none());
    assert!(builder.offer(InputType::Withdrawl, Client(12), Tx(101), Amount(6)).is_none());
    assert!(builder.offer(InputType::Withdrawl, Client(12), Tx(102), Amount(6)).is_some());
}

#[test]
fn offer_of_a_dispute_takes_no_id_and_no_amount() {
    let mut builder = builder();
    for ty in [InputType::Dispute, InputType::Resolve, InputType::Chargeback] {
        let made = builder.offer(ty, Client(11), Tx(101), Amount(5)).unwrap();
        assert_eq!(made.ty, ty);
        assert_eq!(made.tx, Tx(101));
        assert_eq!(made.amount, None);
    }
    assert!(builder.offer(InputType::Deposit, Client(11), Tx(101), Amount(5)).is_some());
}

#[test]
fn samples_lie_in_the_ranges() {
    let mut builder = builder();
    for _ in 0..2000 {
        let input = builder.sample_random().unwrap();
        assert!(input.is_well_formed());
        assert!(10 <= input.client.0 && input.client.0 < 20);
        assert!(100 <= input.tx.0 && input.tx.0 < 5000);
        match input.ty {
            InputType::Deposit | InputType::Withdrawl => {
                let amount = input.amount.unwrap();
                assert!(-999 <= amount.0 && amount.0 < 999);
            }
            _ => assert_eq!(input.amount, None),
        }
    }
}

#[test]
fn samples_do_not_repeat_an_id_among_deposits_and_withdrawals() {
    let mut builder = builder();
    let mut seen = HashSet::new();
    for _ in 0..2000 {
        let input = builder.sample_random().unwrap();
        if input.amount.is_some() {
            assert!(seen.insert(input.tx.0));
        }
    }
    assert!(seen.len() > 100);
}

#[test]
fn samples_vary() {
    let mut builder = builder();
    let mut clients = HashSet::new();
    let mut ids = HashSet::new();
    let mut amounts = HashSet::new();
    let mut kinds = Vec::new();
    for _ in 0..2000 {
        let input = builder.sample_random().unwrap();
        clients.insert(input.client.0);
        ids.insert(input.tx.0);
        if let Some(amount) = input.amount {
            amounts.insert(amount.0);
        }
        if !kinds.contains(&input.ty) {
            kinds.push(input.ty);
        }
    }
    assert_eq!(clients.len(), 10);
    assert!(ids.len() > 100);
    assert!(amounts.len() > 100);
    assert_eq!(kinds.len(), 5);
}

#[test]
fn no_sample_from_an_empty_range() {
    let mut no_clients =
        InputBuilder::new(Client(5)..Client(5), Tx(0)..Tx(10), Amount(0)..Amount(10));
    assert!(no_clients.sample_random().is_none());
    let mut no_ids = InputBuilder::new(Client(0)..Client(5), Tx(10)..Tx(3), Amount(0)..Amount(10));
    assert!(no_ids.sample_random().is_none());
}

#[test]
fn without_amounts_only_disputes_are_sampled() {
    let mut builder = InputBuilder::new(Client(0)..Client(5), Tx(0)..Tx(10), Amount(0)..Amount(0));
    for _ in 0..200 {
        if let Some(input) = builder.sample_random() {
            assert_eq!(input.amount, None);
            assert!(input.ty != InputType::Deposit && input.ty != InputType::Withdrawl);
        }
    }
}

#[test]
fn sampling_ends_when_every_id_is_taken() {
    let mut builder = InputBuilder::new(Client(0)..Client(1), Tx(0)..Tx(2), Amount(1)..Amount(2));
    assert!(builder.offer(InputType::Deposit, Client(0), Tx(0), Amount(1)).is_some());
    assert!(builder.offer(InputType::Deposit, Client(0), Tx(1), Amount(1)).is_some());
    for _ in 0..6 {
        if let Some(input) = builder.sample_random() {
            assert_eq!(input.amount, None);
        }
    }
}

#[test]
fn untouched_builder_always_samples() {
    for _ in 0..200 {
        let mut builder =
            InputBuilder::new(Client(4)..Client(5), Tx(7)..Tx(8), Amount(2)..Amount(3));
        let input = builder.sample_random().unwrap();
        assert_eq!(input.client, Client(4));
        assert_eq!(input.tx, Tx(7));
        if let Some(amount) = input.amount {
            assert_eq!(amount, Amount(2));
        }
    }
}
