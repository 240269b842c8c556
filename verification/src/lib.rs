//! A ledger-backed parimutuel prediction market.
//!
//! Markets are created by a configured creator agent, bets pool per option,
//! and outcomes are settled through a two-phase exchange with an external
//! resolution oracle. Winners split the whole pool in proportion to their
//! stake on the winning option.

pub mod calldata;
pub mod errors;
pub mod laws;
pub mod ledger;
pub mod protocol;
pub mod resolution;
pub mod scale;
pub mod types;

pub use errors::MarketError;
pub use ledger::PredictionMarket;
pub use protocol::{
    AgentCallbackPayload, AgentRunReceipt, CallbackSpec, ContractAgentRequest,
    MarketResolutionRequest, ResolutionResult,
};
pub use types::{
    account_from_hex, AccountId, Balance, BlockNumber, Config, Market, MarketId, MarketStatus,
    OptionIndex, Position, MAX_OPTIONS,
};
