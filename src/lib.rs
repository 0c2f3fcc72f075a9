//! Extraction of the contents of delimited regions (block comments, line
//! comments, quoted strings) from a text, driven by a table of rules.

pub mod comments;
pub mod extract;
pub mod laws;
pub mod model;
pub mod rule;
pub mod scanner;
pub mod table;
pub mod text;

pub use comments::{comment_rules, scan_for_comments};
pub use extract::{extract_regions, Lex};
pub use rule::{ConsumeAction, DelimiterRule};
pub use table::{ConfigError, DelimiterTable};
