use vstd::prelude::*;

use crate::rule::RuleSpec;

verus! {

/// `m` stands in `text` at position `p`.
pub open spec fn occurs_at(text: Seq<char>, p: int, m: Seq<char>) -> bool {
    0 <= p && p + m.len() <= text.len() && text.subrange(p, p + m.len()) == m
}

/// A non-empty marker `m` stands in `text` at position `p`.
pub open spec fn recognized(text: Seq<char>, p: int, m: Seq<char>) -> bool {
    m.len() > 0 && occurs_at(text, p, m)
}

/// Rule `i` opens a region at `p`: its start marker stands there, no start
/// marker standing there is longer, and every earlier rule whose start marker
/// stands there has a shorter one.
pub open spec fn is_chosen(rules: Seq<RuleSpec>, text: Seq<char>, p: int, i: int) -> bool {
    &&& 0 <= i < rules.len()
    &&& recognized(text, p, rules[i].start)
    &&& forall|j: int|
        0 <= j < rules.len() && recognized(text, p, #[trigger] rules[j].start) ==> rules[j].start.len()
            <= rules[i].start.len()
    &&& forall|j: int|
        0 <= j < i && recognized(text, p, #[trigger] rules[j].start) ==> rules[j].start.len()
            < rules[i].start.len()
}

/// The rule that opens a region at `p`, if any.
pub open spec fn chosen(rules: Seq<RuleSpec>, text: Seq<char>, p: int) -> Option<int> {
    if exists|i: int| is_chosen(rules, text, p, i) {
        Some(choose|i: int| is_chosen(rules, text, p, i))
    } else {
        None
    }
}

/// Among the first `n` rules, one whose start marker stands at `p`, as
/// `is_chosen` asks of the whole table.
proof fn lemma_best_in_prefix(rules: Seq<RuleSpec>, text: Seq<char>, p: int, n: int) -> (i: int)
    requires
        0 <= n <= rules.len(),
        exists|j: int| 0 <= j < n && recognized(text, p, #[trigger] rules[j].start),
    ensures
        0 <= i < n,
        recognized(text, p, rules[i].start),
        forall|j: int|
            0 <= j < n && recognized(text, p, #[trigger] rules[j].start) ==> rules[j].start.len()
                <= rules[i].start.len(),
        forall|j: int|
            0 <= j < i && recognized(text, p, #[trigger] rules[j].start) ==> rules[j].start.len()
                < rules[i].start.len(),
    decreases n,
{
    let last = n - 1;
    if exists|j: int| 0 <= j < last && recognized(text, p, #[trigger] rules[j].start) {
        let b = lemma_best_in_prefix(rules, text, p, last);
        if recognized(text, p, rules[last].start) && rules[b].start.len()
            < rules[last].start.len() {
            last
        } else {
            b
        }
    } else {
        last
    }
}

/// `chosen` picks the one rule that `is_chosen` describes, and finds none
/// exactly when no start marker stands at `p`.
pub proof fn lemma_chosen(rules: Seq<RuleSpec>, text: Seq<char>, p: int)
    ensures
        match chosen(rules, text, p) {
            Some(i) => is_chosen(rules, text, p, i),
            None => forall|j: int|
                0 <= j < rules.len() ==> !recognized(text, p, #[trigger] rules[j].start),
        },
{
    if exists|j: int| 0 <= j < rules.len() && recognized(text, p, #[trigger] rules[j].start) {
        let i = lemma_best_in_prefix(rules, text, p, rules.len() as int);
        assert(is_chosen(rules, text, p, i));
    }
}

/// At most one rule opens a region at a given position.
pub proof fn lemma_chosen_unique(rules: Seq<RuleSpec>, text: Seq<char>, p: int, i: int, k: int)
    requires
        is_chosen(rules, text, p, i),
        is_chosen(rules, text, p, k),
    ensures
        i == k,
{
    if i < k {
        assert(rules[i].start.len() < rules[k].start.len());
    } else if k < i {
        assert(rules[k].start.len() < rules[i].start.len());
    }
}

/// The first escape sequence, from index `k` on, whose non-empty marker stands at `q`.
pub open spec fn first_escape_from(
    escapes: Seq<(Seq<char>, Seq<char>)>,
    text: Seq<char>,
    q: int,
    k: int,
) -> Option<int>
    decreases escapes.len() - k,
{
    if k < 0 || k >= escapes.len() {
        None
    } else if recognized(text, q, escapes[k].0) {
        Some(k)
    } else {
        first_escape_from(escapes, text, q, k + 1)
    }
}

/// `first_escape_from` finds the first recognized marker at or after `k`.
pub proof fn lemma_first_escape(escapes: Seq<(Seq<char>, Seq<char>)>, text: Seq<char>, q: int, k: int)
    requires
        0 <= k,
    ensures
        match first_escape_from(escapes, text, q, k) {
            Some(e) => {
                &&& k <= e < escapes.len()
                &&& recognized(text, q, escapes[e].0)
                &&& forall|m: int| k <= m < e ==> !recognized(text, q, #[trigger] escapes[m].0)
            },
            None => forall|m: int| k <= m < escapes.len() ==> !recognized(text, q, #[trigger] escapes[m].0),
        },
    decreases escapes.len() - k,
{
    if k < escapes.len() && !recognized(text, q, escapes[k].0) {
        lemma_first_escape(escapes, text, q, k + 1);
    }
}

/// The first escape sequence whose non-empty marker stands at `q`.
pub open spec fn first_escape(escapes: Seq<(Seq<char>, Seq<char>)>, text: Seq<char>, q: int) -> Option<
    int,
> {
    first_escape_from(escapes, text, q, 0)
}

/// The kept region contents found from position `p` on, scanning outside any region.
pub open spec fn scan_outside(text: Seq<char>, rules: Seq<RuleSpec>, p: int) -> Seq<Seq<char>>
    decreases text.len() - p, 0int,
{
    if p < 0 || p >= text.len() {
        Seq::empty()
    } else {
        match chosen(rules, text, p) {
            None => scan_outside(text, rules, p + 1),
            Some(i) => {
                let q = p + rules[i].start.len();
                scan_region(text, rules, rules[i], q, Seq::empty(), q)
            },
        }
    }
}

/// The kept region contents found from position `q` on, inside a region of
/// `rule`; `buf` holds what the region has gathered up to position `f`.
/// A region that the text leaves open ends with the text.
pub open spec fn scan_region(
    text: Seq<char>,
    rules: Seq<RuleSpec>,
    rule: RuleSpec,
    q: int,
    buf: Seq<char>,
    f: int,
) -> Seq<Seq<char>>
    decreases text.len() - q, 1int,
{
    if q < 0 || q >= text.len() {
        if rule.keep {
            seq![buf + text.subrange(f, text.len() as int)]
        } else {
            Seq::empty()
        }
    } else if occurs_at(text, q, rule.end) {
        let rest = scan_outside(text, rules, q + rule.end.len());
        if rule.keep {
            seq![buf + text.subrange(f, q)] + rest
        } else {
            rest
        }
    } else {
        match first_escape(rule.escapes, text, q) {
            Some(k) => {
                proof {
                    lemma_first_escape(rule.escapes, text, q, 0);
                }
                let e = rule.escapes[k];
                let q2 = q + e.0.len();
                scan_region(text, rules, rule, q2, buf + text.subrange(f, q) + e.1, q2)
            },
            None => scan_region(text, rules, rule, q + 1, buf, f),
        }
    }
}

/// The contents of the kept regions of `text`, in the order they were found.
pub open spec fn regions(text: Seq<char>, rules: Seq<RuleSpec>) -> Seq<Seq<char>> {
    scan_outside(text, rules, 0)
}

/// The parts joined into one text, one newline between two parts.
pub open spec fn join_lines(parts: Seq<Seq<char>>) -> Seq<char>
    decreases parts.len(),
{
    if parts.len() == 0 {
        Seq::empty()
    } else if parts.len() == 1 {
        parts[0]
    } else {
        join_lines(parts.drop_last()) + seq!['\n'] + parts.last()
    }
}

/// What extraction returns for `text` under `rules`.
pub open spec fn extracted(text: Seq<char>, rules: Seq<RuleSpec>) -> Seq<char> {
    join_lines(regions(text, rules))
}

} // verus!
