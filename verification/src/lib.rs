//! A verified web-crawl orchestrator: URL normalization, link extraction,
//! per-domain robots.txt policies and fetch budgets, and a frontier
//! scheduler that dispatches every network fetch through a request/answer
//! protocol, so that the whole crawl discipline is checked while the I/O
//! stays outside.

pub mod text;
pub mod canon;
pub mod links;
pub mod robots;
pub mod domain;
pub mod fetch;
pub mod crawler;
pub mod laws;
