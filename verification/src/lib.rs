//! An in-memory text search engine.
//!
//! Text is cut into lowercase alphanumeric tokens by the [`lexer`].  The
//! [`model`] keeps, for every ingested document, how often each token occurs
//! in it, and for every token, how many ingestions contained it; it answers
//! a query with the counts from which the TF-IDF score of each document is
//! computed.  The [`ranking`] puts scored documents in order.
//!
//! Beside these stand the decisions of the programs around the index: what
//! a fetched [`page`] gives the index to read, and what the [`server`]
//! answers to a request.

pub mod lexer;
pub mod model;
pub mod page;
pub mod ranking;
pub mod server;
