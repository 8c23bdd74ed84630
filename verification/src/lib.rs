//! Settlement core of a Stellar payment gateway.
//!
//! [`db`] holds the gateway's rows and what each operation does to them:
//! payment intents, credits, idempotency keys, API keys and webhook deliveries.
//! [`health`] tells whether the background tasks are alive. [`timestamp`] and
//! [`money`] are the two textual forms that rows are stored in, and [`reading`]
//! is how stored timestamps are read back.
use vstd::prelude::*;

pub mod db;
pub mod health;
pub mod julian;
pub mod money;
pub mod reading;
pub mod reading_laws;
pub mod table;
pub mod text;
pub mod timestamp;

pub use health::{unix_now_secs, JoinOutcome, TaskHealth};

verus! {

} // verus!
