//! Request filtering by keywords and rules.
//!
//! Rules name keywords and the request fields to look for them in. A
//! prefilter holds one keyword filter per field; running a request's fields
//! through it records the keyword hits, which select the rules whose filter
//! expressions are then run. The modules at the top level hold the filter as
//! the engine uses it (with boundary checks on each hit); `filter` holds the
//! filter of the service (without them), with its rules and their compiled
//! filter expressions.
pub mod assoc;
pub mod automaton;
pub mod engine;
pub mod filter;
pub mod http_response_parse;
pub mod keyword;
pub mod keyword_rule;
pub mod prefilter;
pub mod result;
pub mod rule;
pub mod text;
