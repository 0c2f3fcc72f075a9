use vstd::prelude::*;

use crate::model::extracted;
use crate::rule::{rules_view, valid_rules, DelimiterRule};
use crate::scanner::{join_parts, scan_regions};
use crate::table::DelimiterTable;
use crate::text::{chars_of, string_of};

verus! {

/// The contents of the regions of `input` that `rules` keep, in the order
/// they were found, joined by newlines.
pub fn extract_regions(input: &str, rules: &[DelimiterRule]) -> (r: String)
    requires
        valid_rules(rules_view(rules@)),
    ensures
        r@ == extracted(input@, rules_view(rules@)),
{
    match DelimiterTable::new(rules) {
        Ok(table) => {
            let text = chars_of(input);
            let parts = scan_regions(&text, rules, &table);
            string_of(&join_parts(&parts))
        },
        Err(_) => String::new(),
    }
}

/// A text to scan for delimited regions.
pub struct Lex<'a> {
    pub str: &'a str,
}

impl<'a> Lex<'a> {
    /// The contents of the regions of the text between the start and end
    /// markers of `start_end`, kept by their rules, joined by newlines.
    pub fn get_substrings_between_two_strings(&self, start_end: &[DelimiterRule]) -> (r: String)
        requires
            valid_rules(rules_view(start_end@)),
        ensures
            r@ == extracted(self.str@, rules_view(start_end@)),
    {
        extract_regions(self.str, start_end)
    }
}

} // verus!
