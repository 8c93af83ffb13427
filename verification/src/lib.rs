//! In-memory orderbook DEX library for trading ETH and ERC-20 style tokens.
//!
//! Provides an orderbook with limit and market orders, multi-pair
//! management, quote generation with multi-hop routing, and a
//! configurable fee structure.

pub mod amount;
pub mod token;
pub mod config;
pub mod laws;
pub mod order;
pub mod orderbook;
pub mod pair;
pub mod pool_manager;
pub mod price;
pub mod router;

pub use amount::{Amount, U256};
pub use config::DexConfig;
pub use token::{Address, TokenId};
pub use price::Price;
pub use order::{Order, OrderId, OrderSide, OrderStatus, OrderType};
pub use pair::{Pair, PairId, PairStats};
pub use orderbook::{Fill, OrderBook, OrderError, TradeResult};
pub use pool_manager::{PoolError, PoolManager, SwapResult};
pub use router::{Quote, Route, RouteHop, Router};
