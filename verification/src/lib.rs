//! Arbitrage detection among liquidity pools: pool state retrieval is planned
//! and collated here, pools become a graph of exchange rates, and loops whose
//! compounded rate exceeds one are searched in log-space.

pub mod abi;
pub mod cache;
pub mod cycle;
pub mod datafetcher;
pub mod detector;
pub mod indexing;
pub mod model;
pub mod network;
pub mod scalar;
pub mod text;
