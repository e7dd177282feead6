//! A parimutuel prediction market: rounds that pool stakes per predicted
//! price movement, resolve against an oracle price after a fixed window and
//! split the pool among the correct predictors.
//!
//! The library holds the state of the market and decides; it talks to
//! nobody. Its caller reads the clock, asks the oracle and the escrow, hands
//! the answers in, and moves funds as the results say.

pub mod battle;
pub mod contract;
pub mod error;
pub mod guarantees;
pub mod ledger;
pub mod oracle;
pub mod outcome;
pub mod payout;
pub mod round;
pub mod sums;

pub use battle::{Battle, BattleStake, Side};
pub use contract::{Contract, RollPolicy};
pub use error::Error;
pub use ledger::{Credit, WinningsLedger};
pub use oracle::PriceData;
pub use outcome::{BattleOutcome, Prediction};
pub use round::{Bet, Round, RoundStatus};
