//! An in-memory limit-order-book engine driven by an exchange market-data
//! feed, together with the small pure helpers of the feed-extraction tool.
//!
//! The book keeps two sorted price ladders (bids and asks), an arena of
//! price-level records addressed by versioned handles, and a dense index
//! from order id to the order's level handle and residual volume.  Every
//! event handler preserves the joint well-formedness of those structures.

pub mod orderbook;

pub mod extract;
