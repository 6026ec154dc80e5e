//! Core of a bounded, rate-limited, deduplicating web crawler.
//!
//! The crate holds the crawl-job orchestrator: job lifecycle and registry,
//! the per-job frontier with its deduplication set, the token-bucket rate
//! policy, HTML link extraction and URL resolution, and the assembly of
//! fetch results.  Network transport and the HTTP control surface live in
//! the surrounding application; they hand plain values in and out.

pub mod fetcher;
pub mod frontier;
pub mod jobs;
pub mod limiter;
pub mod parser;
pub mod status;
