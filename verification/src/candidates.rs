//! Candidate lists: the digits still considered possible for one cell.

use vstd::prelude::*;

verus! {

/// A candidate list holds digits from 1 to 9 in ascending order, none twice.
pub open spec fn is_candidates(s: Seq<usize>) -> bool {
    &&& forall|i: int| 0 <= i < s.len() ==> 1 <= #[trigger] s[i] <= 9
    &&& forall|i: int, j: int| 0 <= i < j < s.len() ==> s[i] < s[j]
}

/// The full candidate list: every digit from 1 to 9.
pub open spec fn all_digits() -> Seq<usize> {
    Seq::new(9, |i: int| (i + 1) as usize)
}

/// The position of the first occurrence of `v` in `s`, or `s.len()` when `v`
/// does not occur.
pub open spec fn first_index(s: Seq<usize>, v: usize) -> int
    decreases s.len(),
{
    if s.len() == 0 {
        0
    } else if s[0] == v {
        0
    } else {
        1 + first_index(s.drop_first(), v)
    }
}

/// `s` without the first occurrence of `v`; `s` itself when `v` does not occur.
pub open spec fn without(s: Seq<usize>, v: usize) -> Seq<usize> {
    if s.contains(v) {
        s.remove(first_index(s, v))
    } else {
        s
    }
}

/// Removes the first occurrence of `v` from `set`, if there is one.
pub fn delete(set: &mut Vec<usize>, v: usize)
    ensures
        final(set)@ == without(old(set)@, v),
{
    let mut i: usize = 0;
    while i < set.len()
        invariant
            i <= set.len(),
            *set == *old(set),
            forall|j: int| 0 <= j < i ==> set@[j] != v,
        decreases set.len() - i,
    {
        if set[i] == v {
            proof {
                lemma_first_index(set@, v, i as int);
            }
            set.remove(i);
            return;
        }
        i += 1;
    }
    assert(!set@.contains(v));
}

/// The first index at which `v` occurs is the one before which it does not.
pub proof fn lemma_first_index(s: Seq<usize>, v: usize, i: int)
    requires
        0 <= i < s.len(),
        s[i] == v,
        forall|j: int| 0 <= j < i ==> s[j] != v,
    ensures
        first_index(s, v) == i,
        s.contains(v),
    decreases s.len(),
{
    if i > 0 {
        let t = s.drop_first();
        assert(forall|j: int| 0 <= j < i - 1 ==> t[j] == s[j + 1]);
        lemma_first_index(t, v, i - 1);
    }
}

/// The `i`-th entry of a candidate list is at least `i + 1`, so the list has
/// at most nine entries.
pub proof fn lemma_candidates_len(s: Seq<usize>)
    requires
        is_candidates(s),
    ensures
        s.len() <= 9,
        forall|i: int| 0 <= i < s.len() ==> #[trigger] s[i] >= i + 1,
{
    lemma_candidates_floor(s, s.len() as int);
    if s.len() > 0 {
        assert(s[s.len() - 1] >= s.len());
    }
}

proof fn lemma_candidates_floor(s: Seq<usize>, n: int)
    requires
        is_candidates(s),
        0 <= n <= s.len(),
    ensures
        forall|i: int| 0 <= i < n ==> #[trigger] s[i] >= i + 1,
    decreases n,
{
    if n > 1 {
        lemma_candidates_floor(s, n - 1);
        assert(s[n - 2] < s[n - 1]);
    }
}

/// A candidate list whose entries all equal `d` is the one-entry list of `d`.
pub proof fn lemma_candidates_single(s: Seq<usize>, d: usize)
    requires
        is_candidates(s),
        s.len() >= 1,
        forall|x: usize| s.contains(x) ==> x == d,
    ensures
        s.len() == 1,
        s[0] == d,
{
    assert(s.contains(s[0]));
    if s.len() >= 2 {
        assert(s.contains(s[1]));
        assert(s[0] < s[1]);
    }
}

/// Striking a digit from a candidate list leaves a candidate list with
/// exactly the other digits.
pub proof fn lemma_without(s: Seq<usize>, v: usize)
    requires
        is_candidates(s),
    ensures
        is_candidates(without(s, v)),
        !without(s, v).contains(v),
        forall|u: usize| u != v ==> (#[trigger] without(s, v).contains(u) <==> s.contains(u)),
        s.contains(v) ==> without(s, v).len() == s.len() - 1,
        !s.contains(v) ==> without(s, v) == s,
{
    if s.contains(v) {
        let i = choose|i: int| 0 <= i < s.len() && s[i] == v;
        assert forall|j: int| 0 <= j < i implies s[j] != v by {
            assert(s[j] < s[i]);
        }
        lemma_first_index(s, v, i);
        let t = s.remove(i);
        s.remove_ensures(i);
        assert(t == without(s, v));
        assert forall|a: int, b: int| 0 <= a < b < t.len() implies t[a] < t[b] by {
            let a0 = if a < i { a } else { a + 1 };
            let b0 = if b < i { b } else { b + 1 };
            assert(t[a] == s[a0] && t[b] == s[b0]);
        }
        assert forall|a: int| 0 <= a < t.len() implies 1 <= #[trigger] t[a] <= 9 by {
            let a0 = if a < i { a } else { a + 1 };
            assert(t[a] == s[a0]);
        }
        if t.contains(v) {
            let a = choose|a: int| 0 <= a < t.len() && t[a] == v;
            let a0 = if a < i { a } else { a + 1 };
            assert(t[a] == s[a0]);
            if a0 < i {
                assert(s[a0] < s[i]);
            } else {
                assert(s[i] < s[a0]);
            }
        }
        assert forall|u: usize| u != v implies (#[trigger] t.contains(u) <==> s.contains(u)) by {
            if t.contains(u) {
                let a = choose|a: int| 0 <= a < t.len() && t[a] == u;
                let a0 = if a < i { a } else { a + 1 };
                assert(s[a0] == u);
            }
            if s.contains(u) {
                let b = choose|b: int| 0 <= b < s.len() && s[b] == u;
                let b1 = if b < i { b } else { b - 1 };
                assert(t[b1] == u);
            }
        }
    }
}

} // verus!
