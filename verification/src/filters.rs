//! Include/exclude filter rules: their text syntax, their compiled form and
//! the matcher that applies them to paths.

pub mod braces;
pub mod error;
pub mod glob;
pub mod lists;
pub mod matcher;
pub mod matching;
pub mod mergefile;
pub mod merges;
pub mod numbers;
pub mod paths;
pub mod pattern;
pub mod rule;
pub mod scan;
pub mod text;
pub mod token;
pub mod util;

pub use error::ParseError;
pub use rule::{FilterStats, MatchResult, PerDir, Rule, RuleData, RuleFlags};
