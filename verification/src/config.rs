//! The rule model: what a rewrite rule matches, where its replacement text
//! comes from, and which occurrences it substitutes.
use vstd::prelude::*;

verus! {

/// What a rule matches: a raw substring, a whole line containing a needle, a
/// regular expression (declared but never executed: such a rule passes the
/// content through unchanged), or a block between two sentinel lines.
pub enum Replace {
    Text(String),
    Line(String),
    Regex(String),
    LinesBetween(String, String),
}

/// Where a rule's replacement text comes from. `File` and `Jinja` carry paths,
/// resolved relative to the rule configuration's directory by the caller that
/// does the reading; `String` and `Pattern` carry the text itself.
pub enum With {
    File { file: String },
    Jinja { template: String, values: String },
    String { string: String },
    Pattern { pattern: String },
}

/// Which occurrences a rule substitutes: only the earliest in the document,
/// the earliest within each line, or every one.
pub enum Which {
    First,
    FirstInLine,
    Every,
}

/// One rewrite rule. `keep_spaces` asks for the replacement to be re-indented
/// to the match's surroundings; it never changes which occurrences match.
pub struct Rule {
    pub replace: Replace,
    pub with: With,
    pub keep_spaces: bool,
    pub which: Which,
}

/// An ordered list of rules; the order is the evaluation order.
pub struct Config {
    pub rules: Vec<Rule>,
}

} // verus!
