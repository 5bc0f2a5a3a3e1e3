//! Live maintenance of L2 order books for Binance USD-M perpetual futures.
//!
//! The crate holds the verified core of the system: the order-book state
//! machine with its continuity predicate, the dual-connection router state
//! machine with its park buffers, the mode ticker, and the parsing of the
//! venue's decimal price strings into fixed-point integers.  All network
//! traffic, JSON decoding and task scheduling live outside this crate and
//! hand plain values in and out.

pub mod book_task;
pub mod depth;
pub mod numeric;
pub mod order_book;
pub mod router;
pub mod streaming;
pub mod text;
