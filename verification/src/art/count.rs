//! Facts about `count`, the number of items of a sequence that satisfy a
//! predicate, which the slot tables of the larger nodes rest on.
use vstd::prelude::*;
use super::node::count;

verus! {

/// A count is at most the length.
pub proof fn lemma_count_bound<A>(s: Seq<A>, f: spec_fn(A) -> bool)
    ensures
        count(s, f) <= s.len(),
    decreases s.len(),
{
    if s.len() > 0 {
        lemma_count_bound(s.drop_last(), f);
    }
}

/// Replacing one item changes the count by what the two items contribute.
pub proof fn lemma_count_update<A>(s: Seq<A>, f: spec_fn(A) -> bool, i: int, v: A)
    requires
        0 <= i < s.len(),
    ensures
        count(s.update(i, v), f) + (if f(s[i]) { 1int } else { 0int }) == count(s, f) + (if f(v) {
            1int
        } else {
            0int
        }),
    decreases s.len(),
{
    let t = s.update(i, v);
    if i == s.len() - 1 {
        assert(t.drop_last() =~= s.drop_last());
    } else {
        assert(t.drop_last() =~= s.drop_last().update(i, v));
        lemma_count_update(s.drop_last(), f, i, v);
    }
}

/// Two sequences of one length whose items satisfy their predicates at the
/// same places have the same count.
pub proof fn lemma_count_match<A, B>(s: Seq<A>, f: spec_fn(A) -> bool, t: Seq<B>, g: spec_fn(B) -> bool)
    requires
        s.len() == t.len(),
        forall|i: int| 0 <= i < s.len() ==> (f(s[i]) <==> g(t[i])),
    ensures
        count(s, f) == count(t, g),
    decreases s.len(),
{
    if s.len() > 0 {
        lemma_count_match(s.drop_last(), f, t.drop_last(), g);
    }
}

/// The count of a sequence whose items satisfy the predicate exactly below
/// `m`.
pub proof fn lemma_count_prefix<A>(s: Seq<A>, f: spec_fn(A) -> bool, m: int)
    requires
        0 <= m <= s.len(),
        forall|i: int| 0 <= i < s.len() ==> (f(s[i]) <==> i < m),
    ensures
        count(s, f) == m,
    decreases s.len(),
{
    if s.len() > 0 {
        if m == s.len() {
            lemma_count_prefix(s.drop_last(), f, m - 1);
        } else {
            lemma_count_prefix(s.drop_last(), f, m);
        }
    }
}

/// Some item satisfies the predicate where the count is positive.
pub proof fn lemma_count_some_item<A>(s: Seq<A>, f: spec_fn(A) -> bool) -> (i: int)
    requires
        count(s, f) > 0,
    ensures
        0 <= i < s.len(),
        f(s[i]),
    decreases s.len(),
{
    if f(s.last()) {
        s.len() - 1
    } else {
        lemma_count_some_item(s.drop_last(), f)
    }
}

/// Some item fails the predicate where the count is below the length.
pub proof fn lemma_count_other_item<A>(s: Seq<A>, f: spec_fn(A) -> bool) -> (i: int)
    requires
        count(s, f) < s.len(),
    ensures
        0 <= i < s.len(),
        !f(s[i]),
    decreases s.len(),
{
    if !f(s.last()) {
        s.len() - 1
    } else {
        lemma_count_other_item(s.drop_last(), f)
    }
}

/// The count of the first `n + 1` items.
pub proof fn lemma_count_take<A>(s: Seq<A>, f: spec_fn(A) -> bool, n: int)
    requires
        0 <= n < s.len(),
    ensures
        count(s.take(n + 1), f) == count(s.take(n), f) + if f(s[n]) {
            1nat
        } else {
            0nat
        },
{
    assert(s.take(n + 1).drop_last() =~= s.take(n));
}

} // verus!
