//! Quotation index for an inline-query chat bot.
//!
//! The index holds an ordered list of quotations and answers each query with
//! a bounded list of result items: a random sample for the empty query, the
//! quotations that contain the query text otherwise.

pub mod handler;
pub mod laws;
pub mod lines;
pub mod matching;
pub mod sampling;

pub use handler::{Answer, InlineQuery, InlineQueryHandler, ResultItem, ResultSet};
