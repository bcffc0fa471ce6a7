//! A multi-market limit order book with price-time priority matching.
//!
//! Prices are exact integer ticks and quantities are fixed-point integers, so
//! every sum in a book is exact. The modules build on one another:
//!
//! - `tick`: decimal prices as plain integers, and their quantization to ticks;
//! - `order`: incoming orders, resting orders and fills;
//! - `limit`: one price level, a first-in first-out queue with its volume;
//! - `book_model`: the mathematical model of a side of a book and of a sweep;
//! - `orderbook`: the book of one market, with its cached capacities;
//! - `pair`, `snapshot`, `messages`: market names, order records and texts;
//! - `engine`: the registry of markets, identifiers, snapshots and counters;
//! - `accounting`: how snapshots keep up with the books, by order identifier.
//!
//! Every executable function carries a contract over these models, and the
//! laws of the book — capacity consistency, no empty levels, non-crossing,
//! price-time priority, all-or-nothing market orders, conservation, snapshot
//! consistency and the round trip of ticks — are proved from the contracts.

pub mod accounting;
pub mod book_model;
pub mod engine;
pub mod limit;
pub mod messages;
pub mod order;
pub mod orderbook;
pub mod pair;
pub mod snapshot;
pub mod tick;

pub use engine::{EngineError, MarketId, MatchEngine};
pub use limit::{FillStats, Limit};
pub use order::{BidOrAsk, Fill, Order, OrderId, Qty, RestingOrder, QTY_SCALE};
pub use orderbook::{FillReport, OrderBook};
pub use pair::TradingPair;
pub use snapshot::{EngineStats, OrderResponse, OrderSnapshot, OrderStatus, OrderType};
pub use tick::{price_to_tick, tick_to_price, Price, Tick, PRICE_SCALE};
