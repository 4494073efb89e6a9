//! The request filter of the service: keyword filters per request field, the
//! hits they record, and the rules those hits select.
pub mod keyword;
pub mod engine;
pub mod prefilter;
pub mod result;
pub mod rule;
