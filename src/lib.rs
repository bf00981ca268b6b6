//! Aggregation of hosts-file block lists: line normalisation, chunked parsing,
//! whitelist filtering, rendering and the combination of fetched sources.

pub mod text;
pub mod parser;
pub mod render;
pub mod whitelisting;
pub mod fetcher;
pub mod pipeline;
