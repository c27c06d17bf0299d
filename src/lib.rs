//! Task routing: a small rule language over request facts, a compiled-pattern
//! cache, and the strategies that turn rule matches into agent recommendations.

pub mod pattern;
pub mod text;
pub mod types;
pub mod rules;
pub mod classifier;
pub mod tagging;
