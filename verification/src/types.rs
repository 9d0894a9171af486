//! Plain data types shared by the exchange components.

pub mod common;
pub mod order;
pub mod event;
pub mod orderbook;
pub mod portal;
pub mod account_manager;
