//! A membership-gated pool that pays out a tenth of its balance to its
//! members in proportion to their holdings of the pooled asset.
//!
//! The library holds the decisions; the token ledger that keeps balances and
//! moves funds stays outside of it. Each operation takes what was read from
//! the ledger as plain values and says what to do next.

pub mod distribution;
pub mod error;
pub mod house;
pub mod laws;
pub mod registry;

pub use distribution::{plan_airdrop, Payout, PAYOUT_DIVISOR};
pub use error::{DataKey, StakeError};
pub use house::{HouseState, StakeHouse};
pub use registry::{find_member, has_duplicate, same_key};
