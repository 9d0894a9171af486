//! A stock exchange core: per-ticker limit order books with price-time
//! priority matching, investor accounts with cash and position reservation,
//! order bookkeeping, an event history for market-data subscribers, and the
//! message model that the network layer exchanges with investors.
//!
//! Prices are integers counted in the exchange's price unit, and cash is an
//! integer counted in the same unit (price times size).

pub mod types;
pub mod portal;
pub mod ticker_map;
pub mod utils;
pub mod server;
pub mod investor;
