//! A two-asset constant-product liquidity pool: share accounting, deposit and
//! withdrawal math, and fee-adjusted swap validation, all in integer arithmetic.
pub mod error;
pub mod math;
pub mod shares;

pub use error::PairErrors;
pub use math::{get_amount_out, integer_sqrt};
pub use shares::{AccountId, Balance, ShareLedger};
pub mod pool;
pub use pool::{Burn, Mint, Pair, Phase, Swap, Sync, BURN_ADDRESS, MINIMUM_LIQUIDITY};
