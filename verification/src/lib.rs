//! A local data-redaction ("masking") library.
//!
//! Rules (literal keywords or regular expressions, each with a replacement
//! mask and a priority) are compiled into a layered matching engine. The
//! engine scans byte slices, resolves overlapping matches under a
//! priority/length policy, and emits the redacted bytes. Around the engine
//! sit the rule loader, an ordered chunk pipeline for large inputs, a
//! registry that publishes the live engine to readers, and the small state
//! machines the host uses around the clipboard.

pub mod chunker;
pub mod clip;
pub mod engine;
pub mod laws;
pub mod pipeline;
pub mod registry;
pub mod rules;

pub use rules::Rule;
pub use rules::RuleGroup;
