use vstd::prelude::*;
use vstd::std_specs::iter::IteratorSpec;

use crate::model::occurs_at;

verus! {

broadcast use vstd::string::axiom_spec_iter;

/// The characters of `s`, in order.
pub fn chars_of(s: &str) -> (r: Vec<char>)
    ensures
        r@ == s@,
{
    let mut r: Vec<char> = Vec::new();
    for c in it: s.chars()
        invariant
            it.seq() == s@,
            r@ == it.seq().take(it.index() as int),
    {
        r.push(c);
    }
    assert(r@ =~= s@);
    r
}

/// Whether `m` stands in `text` at position `p`.
pub fn occurs_at_exec(text: &Vec<char>, p: usize, m: &Vec<char>) -> (r: bool)
    ensures
        r == occurs_at(text@, p as int, m@),
{
    if p > text.len() || m.len() > text.len() - p {
        return false;
    }
    let mut k: usize = 0;
    while k < m.len()
        invariant
            p + m.len() <= text.len(),
            k <= m.len(),
            forall|t: int| 0 <= t < k ==> text@[p + t] == m@[t],
        decreases m.len() - k,
    {
        if text[p + k] != m[k] {
            assert(text@.subrange(p as int, p + m.len())[k as int] != m@[k as int]);
            return false;
        }
        k += 1;
    }
    assert(text@.subrange(p as int, p + m.len()) =~= m@);
    true
}

/// Appends `text[from..to]` to `buf`.
pub fn append_range(buf: &mut Vec<char>, text: &Vec<char>, from: usize, to: usize)
    requires
        from <= to <= text.len(),
    ensures
        final(buf)@ == old(buf)@ + text@.subrange(from as int, to as int),
{
    let ghost start = buf@;
    let mut k: usize = from;
    while k < to
        invariant
            from <= k <= to <= text.len(),
            buf@ == start + text@.subrange(from as int, k as int),
        decreases to - k,
    {
        buf.push(text[k]);
        k += 1;
        assert(buf@ =~= start + text@.subrange(from as int, k as int));
    }
}

/// Relies on `String`'s `FromIterator<&char>`: the string of these characters, in order.
#[verifier::external_body]
pub fn string_of(chars: &Vec<char>) -> (r: String)
    ensures
        r@ == chars@,
{
    chars.iter().collect()
}

} // verus!
