use vstd::prelude::*;

use crate::model::{
    first_escape, first_escape_from, join_lines, lemma_chosen, lemma_first_escape, regions,
    scan_outside, scan_region,
};
use crate::rule::{escapes_view, rules_view, ConsumeAction, DelimiterRule, RuleSpec};
use crate::table::DelimiterTable;
use crate::text::{append_range, occurs_at_exec};

verus! {

/// The views of a sequence of character vectors.
pub open spec fn views_of(parts: Seq<Vec<char>>) -> Seq<Seq<char>> {
    parts.map_values(|v: Vec<char>| v@)
}

/// The first escape sequence of `escapes` whose non-empty marker stands at `q`.
pub fn find_escape(escapes: &Vec<(Vec<char>, Vec<char>)>, text: &Vec<char>, q: usize) -> (r: Option<usize>)
    ensures
        match r {
            Some(k) => first_escape(escapes_view(escapes@), text@, q as int) == Some(k as int),
            None => first_escape(escapes_view(escapes@), text@, q as int) is None,
        },
{
    let ghost ev = escapes_view(escapes@);
    let mut k: usize = 0;
    while k < escapes.len()
        invariant
            k <= escapes.len(),
            ev == escapes_view(escapes@),
            first_escape(ev, text@, q as int) == first_escape_from(ev, text@, q as int, k as int),
        decreases escapes.len() - k,
    {
        if escapes[k].0.len() > 0 && occurs_at_exec(text, q, &escapes[k].0) {
            return Some(k);
        }
        k += 1;
    }
    None
}

/// What remains to be found from a scan state: outside any region at `pos`,
/// or inside a region of rule `inside` with `buf` gathered up to `flush`.
pub open spec fn remaining(
    text: Seq<char>,
    rules: Seq<RuleSpec>,
    inside: Option<usize>,
    pos: int,
    buf: Seq<char>,
    flush: int,
) -> Seq<Seq<char>> {
    match inside {
        None => scan_outside(text, rules, pos),
        Some(i) => scan_region(text, rules, rules[i as int], pos, buf, flush),
    }
}

/// The region scanner: the contents of the kept regions of `text`, in the
/// order they were found.
pub fn scan_regions(text: &Vec<char>, rules: &[DelimiterRule], table: &DelimiterTable) -> (r: Vec<
    Vec<char>,
>)
    requires
        table.wf(rules_view(rules@)),
    ensures
        views_of(r@) == regions(text@, rules_view(rules@)),
{
    let ghost rv = rules_view(rules@);
    let n = text.len();
    let mut results: Vec<Vec<char>> = Vec::new();
    let mut inside: Option<usize> = None;
    let mut pos: usize = 0;
    let mut buf: Vec<char> = Vec::new();
    let mut flush: usize = 0;
    assert(views_of(results@) =~= Seq::<Seq<char>>::empty());
    loop
        invariant_except_break
            views_of(results@) + remaining(text@, rv, inside, pos as int, buf@, flush as int)
                == regions(text@, rv),
        invariant
            table.wf(rv),
            rv == rules_view(rules@),
            n == text.len(),
            pos <= n,
            flush <= pos,
            inside matches Some(i) ==> i < rules.len(),
        ensures
            views_of(results@) == regions(text@, rv),
        decreases 2 * (n - pos) + (if inside is Some {
            1int
        } else {
            0int
        }),
    {
        let ghost before = views_of(results@);
        match inside {
            None => {
                if pos >= n {
                    assert(views_of(results@) =~= regions(text@, rv));
                    break ;
                }
                proof {
                    lemma_chosen(rv, text@, pos as int);
                }
                match table.first_match(rules, text, pos) {
                    None => {
                        pos += 1;
                    },
                    Some(i) => {
                        assert(rv[i as int] == rules@[i as int]@);
                        inside = Some(i);
                        pos += rules[i].start.len();
                        buf = Vec::new();
                        flush = pos;
                    },
                }
            },
            Some(i) => {
                let rule = &rules[i];
                assert(rv[i as int] == rule@);
                if pos >= n {
                    if rule.action == ConsumeAction::Keep {
                        append_range(&mut buf, text, flush, n);
                        results.push(buf);
                        assert(views_of(results@) =~= before.push(buf@));
                    }
                    assert(views_of(results@) =~= regions(text@, rv));
                    break ;
                } else if occurs_at_exec(text, pos, &rule.end) {
                    if rule.action == ConsumeAction::Keep {
                        append_range(&mut buf, text, flush, pos);
                        results.push(buf);
                        assert(views_of(results@) =~= before.push(buf@));
                        buf = Vec::new();
                    }
                    pos += rule.end.len();
                    inside = None;
                } else {
                    let found = find_escape(&rule.escapes, text, pos);
                    proof {
                        lemma_first_escape(rv[i as int].escapes, text@, pos as int, 0);
                    }
                    match found {
                        Some(k) => {
                            append_range(&mut buf, text, flush, pos);
                            let replacement = &rule.escapes[k].1;
                            append_range(&mut buf, replacement, 0, replacement.len());
                            assert(replacement@.subrange(0, replacement@.len() as int) =~= replacement@);
                            pos += rule.escapes[k].0.len();
                            flush = pos;
                        },
                        None => {
                            pos += 1;
                        },
                    }
                }
            },
        }
    }
    results
}

/// The result assembler: the parts joined by newlines.
pub fn join_parts(parts: &Vec<Vec<char>>) -> (r: Vec<char>)
    ensures
        r@ == join_lines(views_of(parts@)),
{
    let mut out: Vec<char> = Vec::new();
    let mut k: usize = 0;
    while k < parts.len()
        invariant
            k <= parts.len(),
            out@ == join_lines(views_of(parts@).take(k as int)),
        decreases parts.len() - k,
    {
        let ghost done = views_of(parts@).take(k as int);
        if k > 0 {
            out.push('\n');
        }
        let part = &parts[k];
        append_range(&mut out, part, 0, part.len());
        assert(part@.subrange(0, part@.len() as int) =~= part@);
        let ghost next = views_of(parts@).take(k + 1);
        assert(next.drop_last() =~= done);
        assert(next.last() == part@);
        k += 1;
        assert(out@ =~= join_lines(next));
    }
    assert(views_of(parts@).take(k as int) =~= views_of(parts@));
    out
}

} // verus!
