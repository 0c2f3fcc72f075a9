use vstd::prelude::*;

use core::cmp::Ordering;
use itertools::Itertools;

use crate::model::{chosen, is_chosen, lemma_chosen, lemma_chosen_unique, occurs_at, recognized};
use crate::rule::{rules_view, valid_rules, DelimiterRule, RuleSpec};
use crate::text::occurs_at_exec;

verus! {

/// Rule `i` is the first of the table with its start marker.
pub open spec fn is_first_start(rules: Seq<RuleSpec>, i: int) -> bool {
    forall|j: int| 0 <= j < i ==> #[trigger] rules[j].start != rules[i].start
}

/// Why a rule table was refused.
#[derive(Clone, Copy, Debug, PartialEq, Eq, Structural)]
pub enum ConfigError {
    /// The rule at this index has an empty start marker.
    EmptyStartMarker(usize),
}

/// The rules of a table, deduplicated by start marker and ordered for
/// matching: `order` holds rule indices, longest start marker first.
pub struct DelimiterTable {
    pub order: Vec<usize>,
}

/// Relies on itertools::Itertools::unique_by: it yields, in their order, the
/// items whose key was not yielded before, so the first rule of each start
/// marker, each once.
#[verifier::external_body]
fn first_of_each_start(rules: &[DelimiterRule]) -> (r: Vec<usize>)
    ensures
        forall|k: int|
            0 <= k < r.len() ==> #[trigger] r[k] < rules.len() && is_first_start(
                rules_view(rules@),
                r[k] as int,
            ),
        forall|i: int|
            0 <= i < rules.len() && is_first_start(rules_view(rules@), i) ==> r@.contains(
                i as usize,
            ),
        forall|a: int, b: int| 0 <= a < b < r.len() ==> r[a] < r[b],
{
    rules.iter().enumerate().unique_by(|p| p.1.start.clone()).map(|p| p.0).collect()
}

/// Orders `(length, index)` pairs by descending length.
fn longer_first(a: &(usize, usize), b: &(usize, usize)) -> (r: Ordering)
    ensures
        r == (if a.0 > b.0 {
            Ordering::Less
        } else if a.0 < b.0 {
            Ordering::Greater
        } else {
            Ordering::Equal
        }),
{
    if a.0 > b.0 {
        Ordering::Less
    } else if a.0 < b.0 {
        Ordering::Greater
    } else {
        Ordering::Equal
    }
}

/// Relies on itertools::Itertools::sorted_by, which sorts with the stable
/// slice::sort_by: under `longer_first` the pairs come out by descending
/// length, and pairs of equal length keep their order, here that of their index.
#[verifier::external_body]
fn sort_longest_first(v: Vec<(usize, usize)>) -> (r: Vec<(usize, usize)>)
    requires
        forall|a: int, b: int| 0 <= a < b < v.len() ==> v[a].1 < v[b].1,
    ensures
        r.len() == v.len(),
        forall|x: (usize, usize)| r@.contains(x) <==> v@.contains(x),
        forall|a: int, b: int|
            0 <= a < b < r.len() ==> r[a].0 > r[b].0 || (r[a].0 == r[b].0 && r[a].1 < r[b].1),
{
    v.into_iter().sorted_by(|a, b| longer_first(a, b)).collect()
}

/// A rule index that is the first of its start marker, at or before `j`.
proof fn lemma_first_occurrence(rules: Seq<RuleSpec>, j: int) -> (j0: int)
    requires
        0 <= j < rules.len(),
    ensures
        0 <= j0 <= j,
        rules[j0].start == rules[j].start,
        is_first_start(rules, j0),
    decreases j,
{
    if is_first_start(rules, j) {
        j
    } else {
        let m = choose|m: int| 0 <= m < j && #[trigger] rules[m].start == rules[j].start;
        lemma_first_occurrence(rules, m)
    }
}

/// Two markers of one length that stand at one position are equal.
proof fn lemma_same_length_same_marker(text: Seq<char>, p: int, a: Seq<char>, b: Seq<char>)
    requires
        occurs_at(text, p, a),
        occurs_at(text, p, b),
        a.len() == b.len(),
    ensures
        a == b,
{
}

impl DelimiterTable {
    /// The table is built for `rules`: each start marker once, by its first
    /// rule, longest start marker first, rules of equal length in list order.
    pub open spec fn wf(&self, rules: Seq<RuleSpec>) -> bool {
        &&& valid_rules(rules)
        &&& forall|k: int|
            0 <= k < self.order.len() ==> #[trigger] self.order[k] < rules.len()
                && is_first_start(rules, self.order[k] as int)
        &&& forall|i: int|
            0 <= i < rules.len() && is_first_start(rules, i) ==> exists|t: int|
                0 <= t < self.order.len() && #[trigger] self.order[t] as int == i
        &&& forall|a: int, b: int|
            0 <= a < b < self.order.len() ==> rules[self.order[a] as int].start.len()
                > rules[self.order[b] as int].start.len() || (rules[self.order[a] as int].start.len()
                == rules[self.order[b] as int].start.len() && self.order[a] < self.order[b])
    }

    /// Builds the table of `rules`; refuses a rule with an empty start marker,
    /// naming the first such rule.
    pub fn new(rules: &[DelimiterRule]) -> (r: Result<DelimiterTable, ConfigError>)
        ensures
            match r {
                Ok(t) => t.wf(rules_view(rules@)),
                Err(ConfigError::EmptyStartMarker(i)) => {
                    &&& i < rules.len()
                    &&& rules_view(rules@)[i as int].start.len() == 0
                    &&& forall|j: int| 0 <= j < i ==> #[trigger] rules_view(rules@)[j].start.len() > 0
                },
            },
    {
        let ghost rv = rules_view(rules@);
        let mut i: usize = 0;
        while i < rules.len()
            invariant
                i <= rules.len(),
                rv == rules_view(rules@),
                forall|j: int| 0 <= j < i ==> #[trigger] rv[j].start.len() > 0,
            decreases rules.len() - i,
        {
            if rules[i].start.len() == 0 {
                return Err(ConfigError::EmptyStartMarker(i));
            }
            i += 1;
        }
        let firsts = first_of_each_start(rules);
        let mut pairs: Vec<(usize, usize)> = Vec::new();
        let mut k: usize = 0;
        while k < firsts.len()
            invariant
                k <= firsts.len(),
                rv == rules_view(rules@),
                pairs.len() == k,
                forall|t: int|
                    0 <= t < firsts.len() ==> #[trigger] firsts[t] < rules.len() && is_first_start(
                        rv,
                        firsts[t] as int,
                    ),
                forall|a: int, b: int| 0 <= a < b < firsts.len() ==> firsts[a] < firsts[b],
                forall|t: int|
                    #![trigger pairs[t]]
                    0 <= t < k ==> pairs[t].0 as int == rv[firsts[t] as int].start.len()
                        && pairs[t].1 == firsts[t],
            decreases firsts.len() - k,
        {
            let idx = firsts[k];
            pairs.push((rules[idx].start.len(), idx));
            k += 1;
        }
        assert forall|a: int, b: int| 0 <= a < b < pairs.len() implies pairs[a].1 < pairs[b].1 by {
            assert(pairs[a].1 == firsts[a]);
            assert(pairs[b].1 == firsts[b]);
        }
        let sorted = sort_longest_first(pairs);
        let mut order: Vec<usize> = Vec::new();
        let mut k: usize = 0;
        while k < sorted.len()
            invariant
                k <= sorted.len(),
                order.len() == k,
                forall|t: int| 0 <= t < k ==> #[trigger] order[t] == sorted[t].1,
            decreases sorted.len() - k,
        {
            order.push(sorted[k].1);
            k += 1;
        }
        let t = DelimiterTable { order };
        proof {
            assert forall|k: int| 0 <= k < t.order.len() implies #[trigger] t.order[k] < rules.len()
                && is_first_start(rv, t.order[k] as int) by {
                assert(sorted@.contains(sorted[k]));
                let m = choose|m: int| 0 <= m < pairs.len() && pairs[m] == sorted[k];
                assert(pairs[m].1 == firsts[m]);
            }
            assert forall|i: int| 0 <= i < rules.len() && is_first_start(rv, i) implies exists|s: int|
                0 <= s < t.order.len() && #[trigger] t.order[s] as int == i by {
                let m = choose|m: int| 0 <= m < firsts.len() && firsts[m] == i as usize;
                assert(pairs[m].1 == firsts[m]);
                assert(pairs@.contains(pairs[m]));
                let s = choose|s: int| 0 <= s < sorted.len() && sorted[s] == pairs[m];
                assert(t.order[s] as int == i);
            }
            assert forall|a: int, b: int| 0 <= a < b < t.order.len() implies rv[t.order[a] as int].start.len()
                > rv[t.order[b] as int].start.len() || (rv[t.order[a] as int].start.len()
                == rv[t.order[b] as int].start.len() && t.order[a] < t.order[b]) by {
                assert(sorted@.contains(sorted[a]));
                assert(sorted@.contains(sorted[b]));
                let ma = choose|m: int| 0 <= m < pairs.len() && pairs[m] == sorted[a];
                let mb = choose|m: int| 0 <= m < pairs.len() && pairs[m] == sorted[b];
                assert(pairs[ma].0 as int == rv[firsts[ma] as int].start.len() && pairs[ma].1 == firsts[ma]);
                assert(pairs[mb].0 as int == rv[firsts[mb] as int].start.len() && pairs[mb].1 == firsts[mb]);
                assert(t.order[a] == sorted[a].1);
                assert(t.order[b] == sorted[b].1);
            }
        }
        Ok(t)
    }

    /// The rule that opens a region at position `p` of `text`: the first of
    /// the table whose start marker stands there.
    pub fn first_match(&self, rules: &[DelimiterRule], text: &Vec<char>, p: usize) -> (r: Option<
        usize,
    >)
        requires
            self.wf(rules_view(rules@)),
        ensures
            match r {
                Some(i) => chosen(rules_view(rules@), text@, p as int) == Some(i as int),
                None => chosen(rules_view(rules@), text@, p as int) is None,
            },
    {
        let ghost rv = rules_view(rules@);
        let mut k: usize = 0;
        while k < self.order.len()
            invariant
                self.wf(rv),
                rv == rules_view(rules@),
                k <= self.order.len(),
                forall|t: int|
                    0 <= t < k ==> !recognized(text@, p as int, #[trigger] rv[self.order[t] as int].start),
            decreases self.order.len() - k,
        {
            let i = self.order[k];
            if occurs_at_exec(text, p, &rules[i].start) {
                proof {
                    self.lemma_found_is_chosen(rv, text@, p as int, k as int);
                    lemma_chosen(rv, text@, p as int);
                    let c = chosen(rv, text@, p as int)->0;
                    lemma_chosen_unique(rv, text@, p as int, c, i as int);
                }
                return Some(i);
            }
            k += 1;
        }
        proof {
            lemma_chosen(rv, text@, p as int);
            if chosen(rv, text@, p as int) is Some {
                let c = chosen(rv, text@, p as int)->0;
                let c0 = lemma_first_occurrence(rv, c);
                let t = choose|t: int| 0 <= t < self.order.len() && self.order[t] as int == c0;
                assert(!recognized(text@, p as int, rv[self.order[t] as int].start));
            }
        }
        None
    }

    /// The first entry of the table whose start marker stands at `p` is the
    /// rule that `is_chosen` describes.
    proof fn lemma_found_is_chosen(&self, rv: Seq<RuleSpec>, text: Seq<char>, p: int, k: int)
        requires
            self.wf(rv),
            0 <= k < self.order.len(),
            recognized(text, p, rv[self.order[k] as int].start),
            forall|t: int|
                0 <= t < k ==> !recognized(text, p, #[trigger] rv[self.order[t] as int].start),
        ensures
            is_chosen(rv, text, p, self.order[k] as int),
    {
        let i = self.order[k] as int;
        assert forall|j: int| 0 <= j < rv.len() && recognized(text, p, #[trigger] rv[j].start) implies rv[j].start.len()
            <= rv[i].start.len() by {
            let j0 = lemma_first_occurrence(rv, j);
            let t = choose|t: int| 0 <= t < self.order.len() && self.order[t] as int == j0;
            assert(rv[self.order[t] as int].start == rv[j].start);
            if t > k {
                assert(rv[self.order[k] as int].start.len() >= rv[self.order[t] as int].start.len());
            }
        }
        assert forall|j: int| 0 <= j < i && recognized(text, p, #[trigger] rv[j].start) implies rv[j].start.len()
            < rv[i].start.len() by {
            if rv[j].start.len() == rv[i].start.len() {
                lemma_same_length_same_marker(text, p, rv[j].start, rv[i].start);
                assert(is_first_start(rv, i));
                assert(rv[j].start != rv[i].start);
            }
        }
    }
}

} // verus!
