//! Parts of the filter engine that stand on their own.
pub mod regex;
