//! Character-level helpers on strings: reading the characters out, comparing
//! two strings, and locating one string inside another.
//!
//! Strings are modelled by their view, a `Seq<char>`.

use vstd::prelude::*;
use vstd::std_specs::iter::IteratorSpec;

verus! {

/// `pattern` lies in `text`, starting at index `at`.
pub open spec fn occurs_at(text: Seq<char>, pattern: Seq<char>, at: int) -> bool {
    &&& 0 <= at
    &&& at + pattern.len() <= text.len()
    &&& text.subrange(at, at + pattern.len()) == pattern
}

/// `pattern` lies somewhere in `text`. The empty pattern lies in every text.
pub open spec fn contains(text: Seq<char>, pattern: Seq<char>) -> bool {
    exists|at: int| occurs_at(text, pattern, at)
}

/// `at` is the leftmost index at which `pattern` lies in `text`.
pub open spec fn leftmost_at(text: Seq<char>, pattern: Seq<char>, at: int) -> bool {
    &&& occurs_at(text, pattern, at)
    &&& forall|earlier: int| 0 <= earlier < at ==> !occurs_at(text, pattern, earlier)
}

/// The leftmost index at which `pattern` lies in `text`; meaningful where
/// `contains(text, pattern)` holds.
pub open spec fn leftmost(text: Seq<char>, pattern: Seq<char>) -> int {
    choose|at: int| leftmost_at(text, pattern, at)
}

proof fn lemma_leftmost_up_to(text: Seq<char>, pattern: Seq<char>, bound: int)
    requires
        occurs_at(text, pattern, bound),
    ensures
        exists|at: int| leftmost_at(text, pattern, at),
    decreases bound,
{
    if exists|earlier: int| 0 <= earlier < bound && occurs_at(text, pattern, earlier) {
        let earlier = choose|earlier: int| 0 <= earlier < bound && occurs_at(text, pattern, earlier);
        lemma_leftmost_up_to(text, pattern, earlier);
    } else {
        assert(leftmost_at(text, pattern, bound));
    }
}

/// Where `pattern` lies in `text` at all, `leftmost` names an occurrence with
/// none before it.
pub proof fn lemma_leftmost(text: Seq<char>, pattern: Seq<char>)
    requires
        contains(text, pattern),
    ensures
        leftmost_at(text, pattern, leftmost(text, pattern)),
{
    let at = choose|at: int| occurs_at(text, pattern, at);
    lemma_leftmost_up_to(text, pattern, at);
}

/// There is only one leftmost occurrence: an index that is one is `leftmost`.
pub proof fn lemma_leftmost_unique(text: Seq<char>, pattern: Seq<char>, at: int)
    requires
        leftmost_at(text, pattern, at),
    ensures
        contains(text, pattern),
        leftmost(text, pattern) == at,
{
    lemma_leftmost(text, pattern);
}

/// An occurrence in a suffix of `text` is an occurrence in `text`, moved by
/// the length of what was cut off, and the other way round.
pub proof fn lemma_occurs_in_suffix(text: Seq<char>, pattern: Seq<char>, cut: int, at: int)
    requires
        0 <= cut <= text.len(),
    ensures
        occurs_at(text.skip(cut), pattern, at) <==> (0 <= at && occurs_at(text, pattern, cut + at)),
{
    if 0 <= at && cut + at + pattern.len() <= text.len() {
        assert(text.skip(cut).subrange(at, at + pattern.len()) =~= text.subrange(
            cut + at,
            cut + at + pattern.len(),
        ));
    }
}

/// An occurrence that ends within the first `keep` characters of `text` is an
/// occurrence in that prefix, and the other way round.
pub proof fn lemma_occurs_in_prefix(text: Seq<char>, pattern: Seq<char>, keep: int, at: int)
    requires
        0 <= keep <= text.len(),
    ensures
        occurs_at(text.take(keep), pattern, at) <==> (at + pattern.len() <= keep && occurs_at(
            text,
            pattern,
            at,
        )),
{
    if 0 <= at && at + pattern.len() <= keep {
        assert(text.take(keep).subrange(at, at + pattern.len()) =~= text.subrange(
            at,
            at + pattern.len(),
        ));
    }
}

/// The characters of `text`, in order.
pub fn characters(text: &str) -> (chars: Vec<char>)
    ensures
        chars@ == text@,
{
    let mut chars: Vec<char> = Vec::new();
    for c in it: text.chars()
        invariant
            chars@ == it.seq().take(it.index()),
            it.seq() == text@,
    {
        chars.push(c);
    }
    chars
}

/// Whether two strings hold the same characters.
pub fn same_text(left: &str, right: &str) -> (same: bool)
    ensures
        same == (left@ == right@),
{
    broadcast use vstd::string::group_string_axioms;

    let mut a = left.chars();
    let mut b = right.chars();
    let ghost mut n: int = 0;
    loop
        invariant
            0 <= n <= left@.len(),
            n <= right@.len(),
            a.remaining() == left@.skip(n),
            b.remaining() == right@.skip(n),
            left@.take(n) == right@.take(n),
        decreases left@.len() - n,
    {
        let x = a.next();
        let y = b.next();
        match (x, y) {
            (None, None) => {
                assert(left@ == left@.take(n));
                assert(right@ == right@.take(n));
                return true;
            },
            (Some(c), Some(d)) => {
                if c != d {
                    assert(left@[n] != right@[n]);
                    return false;
                }
                proof {
                    assert(left@.take(n + 1) == left@.take(n).push(c));
                    assert(right@.take(n + 1) == right@.take(n).push(d));
                    assert(left@.skip(n).drop_first() == left@.skip(n + 1));
                    assert(right@.skip(n).drop_first() == right@.skip(n + 1));
                    n = n + 1;
                }
            },
            _ => {
                assert(left@.len() != right@.len());
                return false;
            },
        }
    }
}

/// Whether `pattern` lies in `text` at index `at`.
pub fn matches_at(text: &Vec<char>, pattern: &Vec<char>, at: usize) -> (found: bool)
    ensures
        found == occurs_at(text@, pattern@, at as int),
{
    if at > text.len() || pattern.len() > text.len() - at {
        return false;
    }
    let mut k: usize = 0;
    while k < pattern.len()
        invariant
            at + pattern.len() <= text.len(),
            k <= pattern.len(),
            forall|j: int| 0 <= j < k ==> text@[at + j] == pattern@[j],
        decreases pattern.len() - k,
    {
        if text[at + k] != pattern[k] {
            assert(text@.subrange(at as int, at + pattern.len())[k as int] != pattern@[k as int]);
            return false;
        }
        k += 1;
    }
    assert(text@.subrange(at as int, at + pattern.len()) =~= pattern@);
    true
}

} // verus!
