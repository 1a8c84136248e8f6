//! A per-chat value ledger with a consistent rank order, once-a-day growth,
//! atomic transfers, member sampling and an idempotency gate for external
//! adjustments.
pub mod board;
pub mod chat;
pub mod ledger;
pub mod sampling;
pub mod gate;
pub mod economy;
pub mod dto;
pub mod config;
pub mod stats;
pub mod top;
pub mod commands;
pub mod front;
