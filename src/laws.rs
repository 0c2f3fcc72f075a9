use vstd::prelude::*;

use crate::model::{
    chosen, extracted, first_escape, is_chosen, lemma_chosen, lemma_chosen_unique,
    lemma_first_escape, occurs_at, recognized, scan_outside, scan_region,
};
use crate::rule::RuleSpec;

verus! {

/// The two tables open a region at `p` by equal rules, or neither opens one.
pub open spec fn same_choice(r1: Seq<RuleSpec>, r2: Seq<RuleSpec>, text: Seq<char>, p: int) -> bool {
    match (chosen(r1, text, p), chosen(r2, text, p)) {
        (None, None) => true,
        (Some(a), Some(b)) => r1[a] == r2[b],
        _ => false,
    }
}

proof fn lemma_same_choices_outside(text: Seq<char>, r1: Seq<RuleSpec>, r2: Seq<RuleSpec>, p: int)
    requires
        forall|x: int| #[trigger] same_choice(r1, r2, text, x),
    ensures
        scan_outside(text, r1, p) == scan_outside(text, r2, p),
    decreases text.len() - p, 0int,
{
    if 0 <= p < text.len() {
        assert(same_choice(r1, r2, text, p));
        lemma_chosen(r1, text, p);
        match chosen(r1, text, p) {
            None => lemma_same_choices_outside(text, r1, r2, p + 1),
            Some(i) => {
                let q = p + r1[i].start.len();
                lemma_same_choices_region(text, r1, r2, r1[i], q, Seq::empty(), q);
            },
        }
    }
}

proof fn lemma_same_choices_region(
    text: Seq<char>,
    r1: Seq<RuleSpec>,
    r2: Seq<RuleSpec>,
    rule: RuleSpec,
    q: int,
    buf: Seq<char>,
    f: int,
)
    requires
        forall|x: int| #[trigger] same_choice(r1, r2, text, x),
    ensures
        scan_region(text, r1, rule, q, buf, f) == scan_region(text, r2, rule, q, buf, f),
    decreases text.len() - q, 1int,
{
    if 0 <= q < text.len() {
        if occurs_at(text, q, rule.end) {
            lemma_same_choices_outside(text, r1, r2, q + rule.end.len());
        } else {
            lemma_first_escape(rule.escapes, text, q, 0);
            match first_escape(rule.escapes, text, q) {
                Some(k) => {
                    let e = rule.escapes[k];
                    let q2 = q + e.0.len();
                    lemma_same_choices_region(text, r1, r2, rule, q2, buf + text.subrange(f, q) + e.1, q2);
                },
                None => lemma_same_choices_region(text, r1, r2, rule, q + 1, buf, f),
            }
        }
    }
}

/// Two tables that open regions at the same positions by equal rules
/// extract the same text.
pub proof fn lemma_same_choices_same_extraction(text: Seq<char>, r1: Seq<RuleSpec>, r2: Seq<RuleSpec>)
    requires
        forall|x: int| #[trigger] same_choice(r1, r2, text, x),
    ensures
        extracted(text, r1) == extracted(text, r2),
{
    lemma_same_choices_outside(text, r1, r2, 0);
}

/// Nothing is extracted from an empty text, whatever the rules, and nothing
/// is extracted under an empty table, whatever the text.
pub proof fn lemma_empty_input_or_rules(text: Seq<char>, rules: Seq<RuleSpec>)
    ensures
        extracted(Seq::empty(), rules) == Seq::<char>::empty(),
        extracted(text, Seq::empty()) == Seq::<char>::empty(),
{
    lemma_no_rules_no_regions(text, 0);
}

proof fn lemma_no_rules_no_regions(text: Seq<char>, p: int)
    ensures
        scan_outside(text, Seq::empty(), p) == Seq::<Seq<char>>::empty(),
    decreases text.len() - p,
{
    if 0 <= p < text.len() {
        assert(!exists|i: int| is_chosen(Seq::<RuleSpec>::empty(), text, p, i));
        lemma_no_rules_no_regions(text, p + 1);
    }
}

/// Removing a rule whose start marker an earlier rule has changes which rule
/// opens a region nowhere.
proof fn lemma_duplicate_same_choice(text: Seq<char>, rules: Seq<RuleSpec>, j: int, k: int, p: int)
    requires
        0 <= j < k < rules.len(),
        rules[j].start == rules[k].start,
    ensures
        same_choice(rules, rules.remove(k), text, p),
{
    let r2 = rules.remove(k);
    rules.remove_ensures(k);
    lemma_chosen(rules, text, p);
    lemma_chosen(r2, text, p);
    match chosen(rules, text, p) {
        Some(i) => {
            if i == k {
                assert(recognized(text, p, rules[j].start));
            }
            let i2 = if i < k {
                i
            } else {
                i - 1
            };
            assert(r2[i2] == rules[i]);
            assert forall|m: int| 0 <= m < r2.len() && recognized(text, p, #[trigger] r2[m].start) implies r2[m].start.len()
                <= r2[i2].start.len() by {
                if m >= k {
                    assert(r2[m] == rules[m + 1]);
                }
            }
            assert forall|m: int| 0 <= m < i2 && recognized(text, p, #[trigger] r2[m].start) implies r2[m].start.len()
                < r2[i2].start.len() by {
                if m >= k {
                    assert(r2[m] == rules[m + 1]);
                }
            }
            assert(is_chosen(r2, text, p, i2));
            let c2 = chosen(r2, text, p)->0;
            lemma_chosen_unique(r2, text, p, c2, i2);
        },
        None => {
            if chosen(r2, text, p) is Some {
                let c2 = chosen(r2, text, p)->0;
                if c2 >= k {
                    assert(r2[c2] == rules[c2 + 1]);
                }
                assert(recognized(text, p, r2[c2].start));
            }
        },
    }
}

/// Of two rules with the same start marker only the first takes effect:
/// removing the later one leaves the extraction unchanged.
pub proof fn lemma_later_duplicate_ignored(text: Seq<char>, rules: Seq<RuleSpec>, j: int, k: int)
    requires
        0 <= j < k < rules.len(),
        rules[j].start == rules[k].start,
    ensures
        extracted(text, rules.remove(k)) == extracted(text, rules),
{
    assert forall|x: int| #[trigger] same_choice(rules, rules.remove(k), text, x) by {
        lemma_duplicate_same_choice(text, rules, j, k, x);
    }
    lemma_same_choices_same_extraction(text, rules, rules.remove(k));
}

} // verus!
