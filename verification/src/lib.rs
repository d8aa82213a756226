//! A verified core for a terminal bookmark manager: tag normalization and
//! filtering, query evaluation and sorting, ordinal selection over a result
//! list, the one-shot interactive command machine, and batch action dispatch.
pub mod bookmark;
pub mod command;
pub mod dispatch;
pub mod filter;
pub mod render;
pub mod search;
pub mod select;
pub mod sort;
pub mod store;
pub mod tags;
pub mod text;
pub mod update;
