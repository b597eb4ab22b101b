//! A stream text highlighter core: compiled regular-expression rules paired
//! with terminal style codes, applied line by line to produce styled output.
//!
//! The library works on byte strings. A rule set is built once from raw rule
//! records (pattern strings and a style expression); rendering a line finds
//! every rule match, resolves overlaps by a greedy first-match-wins scan over
//! the spans sorted by start position, and wraps each kept span in its style
//! code and a reset code.

pub mod ansi;
pub mod highlight;
pub mod rules;
pub mod style;
