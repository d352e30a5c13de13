//! A ledger of client accounts, driven by a stream of deposit, withdrawal,
//! dispute, resolve and chargeback events.
//!
//! [`Executor`] is the ledger: it applies one event at a time and lists the
//! balances of its clients. What an event means is written down once, as a
//! function on mathematical values ([`Ledger::apply`]), and the executable
//! code is proved to compute it. [`Dispatcher`] splits a ledger among
//! several workers by client.

pub mod agreement;
pub mod dispatch;
pub mod executor;
pub mod generator;
pub mod laws;
pub mod ledger;
mod sums;
pub mod types;

pub use crate::dispatch::{merge, route, Dispatcher, Msg};
pub use crate::executor::{ClientData, Executor};
pub use crate::generator::{all_input_types, InputBuilder};
pub use crate::ledger::{Account, Ledger};
pub use crate::types::{
    Amount, Balance, Client, DisputeStatus, Input, InputInternal, InputType, Output, Tx,
};
