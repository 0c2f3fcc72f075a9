use vstd::prelude::*;

use crate::text::chars_of;

verus! {

/// What happens to the content of a region once it is closed.
#[derive(Clone, Copy, Debug, PartialEq, Eq, Structural)]
pub enum ConsumeAction {
    /// The content is emitted to the result.
    Keep,
    /// The content is scanned past and dropped.
    Discard,
}

/// One delimiter rule: a region opens at `start`, closes at `end`, and while
/// inside it each escape marker of `escapes` stands for its replacement.
#[derive(Debug)]
pub struct DelimiterRule {
    pub start: Vec<char>,
    pub end: Vec<char>,
    /// `(escape marker, replacement)` pairs, tried in this order.
    pub escapes: Vec<(Vec<char>, Vec<char>)>,
    pub action: ConsumeAction,
}

/// The mathematical model of a `DelimiterRule`.
pub struct RuleSpec {
    pub start: Seq<char>,
    pub end: Seq<char>,
    pub escapes: Seq<(Seq<char>, Seq<char>)>,
    pub keep: bool,
}

pub open spec fn escape_view(e: (Vec<char>, Vec<char>)) -> (Seq<char>, Seq<char>) {
    (e.0@, e.1@)
}

/// The models of a sequence of escape pairs, in the same order.
pub open spec fn escapes_view(escapes: Seq<(Vec<char>, Vec<char>)>) -> Seq<(Seq<char>, Seq<char>)> {
    escapes.map_values(|e: (Vec<char>, Vec<char>)| escape_view(e))
}

impl View for DelimiterRule {
    type V = RuleSpec;

    open spec fn view(&self) -> RuleSpec {
        RuleSpec {
            start: self.start@,
            end: self.end@,
            escapes: escapes_view(self.escapes@),
            keep: self.action == ConsumeAction::Keep,
        }
    }
}

/// The models of a sequence of rules, in the same order.
pub open spec fn rules_view(rules: Seq<DelimiterRule>) -> Seq<RuleSpec> {
    rules.map_values(|r: DelimiterRule| r@)
}

/// A rule table is usable when no start marker is empty.
pub open spec fn valid_rules(rules: Seq<RuleSpec>) -> bool {
    forall|i: int| 0 <= i < rules.len() ==> #[trigger] rules[i].start.len() > 0
}

impl DelimiterRule {
    /// A rule without escape sequences.
    pub fn new(start: &str, end: &str, action: ConsumeAction) -> (r: DelimiterRule)
        ensures
            r@ == (RuleSpec {
                start: start@,
                end: end@,
                escapes: Seq::empty(),
                keep: action == ConsumeAction::Keep,
            }),
    {
        let r = DelimiterRule {
            start: chars_of(start),
            end: chars_of(end),
            escapes: Vec::new(),
            action,
        };
        assert(r@.escapes =~= Seq::<(Seq<char>, Seq<char>)>::empty());
        r
    }

    /// The same rule with one more escape sequence, tried after those it has.
    pub fn with_escape(self, marker: &str, replacement: &str) -> (r: DelimiterRule)
        ensures
            r@ == (RuleSpec {
                escapes: self@.escapes.push((marker@, replacement@)),
                ..self@
            }),
    {
        let ghost old_escapes = self@.escapes;
        let mut r = self;
        r.escapes.push((chars_of(marker), chars_of(replacement)));
        assert(r@.escapes =~= old_escapes.push((marker@, replacement@)));
        r
    }
}

} // verus!
