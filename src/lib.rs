//! A minimal trading venue: a limit order book with price-time priority and self-trade
//! suppression, over a ledger of balances that settles every match and journals every change.

pub mod accounting;
pub mod errors;
pub mod matching;
pub mod trading_platform;
pub mod tx;
pub mod types;

pub use accounting::Accounts;
pub use errors::ApplicationError;
pub use matching::{MatchingEngine, PriceLevel};
pub use trading_platform::TradingPlatform;
pub use tx::Tx;
pub use types::{Order, PartialOrder, Receipt, Side};
