use vstd::prelude::*;

use crate::extract::extract_regions;
use crate::model::extracted;
use crate::rule::{rules_view, valid_rules, ConsumeAction, DelimiterRule, RuleSpec};

verus! {

/// A rule without escape sequences, as a model.
pub open spec fn plain_rule(start: Seq<char>, end: Seq<char>, keep: bool) -> RuleSpec {
    RuleSpec { start, end, escapes: Seq::empty(), keep }
}

/// The comment and string rules: documentation and line comments are kept,
/// string literals are scanned past.
pub open spec fn comment_rule_specs() -> Seq<RuleSpec> {
    seq![
        plain_rule("/**"@, "*/"@, true),
        plain_rule("///"@, "\n"@, true),
        plain_rule("//"@, "\n"@, true),
        plain_rule("\"\"\""@, "\"\"\""@, false),
        RuleSpec { escapes: seq![("\\\""@, "\""@)], ..plain_rule("\""@, "\""@, false) },
    ]
}

/// The comment and string rules.
pub fn comment_rules() -> (r: Vec<DelimiterRule>)
    ensures
        rules_view(r@) == comment_rule_specs(),
{
    let mut r: Vec<DelimiterRule> = Vec::new();
    r.push(DelimiterRule::new("/**", "*/", ConsumeAction::Keep));
    r.push(DelimiterRule::new("///", "\n", ConsumeAction::Keep));
    r.push(DelimiterRule::new("//", "\n", ConsumeAction::Keep));
    r.push(DelimiterRule::new("\"\"\"", "\"\"\"", ConsumeAction::Discard));
    r.push(DelimiterRule::new("\"", "\"", ConsumeAction::Discard).with_escape("\\\"", "\""));
    assert(rules_view(r@) =~= comment_rule_specs());
    r
}

/// The comments of `text`: the contents of its documentation and line
/// comments, in order, joined by newlines; string literals are skipped.
pub fn scan_for_comments(text: &str) -> (r: String)
    ensures
        r@ == extracted(text@, comment_rule_specs()),
{
    let rules = comment_rules();
    proof {
        reveal_strlit("/**");
        reveal_strlit("///");
        reveal_strlit("//");
        reveal_strlit("\"\"\"");
        reveal_strlit("\"");
        assert(valid_rules(rules_view(rules@)));
    }
    extract_regions(text, rules.as_slice())
}

} // verus!
