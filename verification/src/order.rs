//! The mathematical model of a three-way comparator and of sorted sequences.

use vstd::prelude::*;

verus! {

/// The sign of a comparator's answer: negative is "less", zero is "equal",
/// positive is "greater".
pub open spec fn sign(r: i32) -> int {
    if r < 0 {
        -1
    } else if r > 0 {
        1
    } else {
        0
    }
}

/// `comp` may be called on every pair of values, and `ord` tells the sign of
/// whatever it answers.
pub open spec fn follows<T, F: Fn(&T, &T) -> i32>(comp: F, ord: spec_fn(T, T) -> int) -> bool {
    &&& forall|a: T, b: T| #[trigger] call_requires(comp, (&a, &b))
    &&& forall|a: T, b: T, r: i32| #[trigger] call_ensures(comp, (&a, &b), r) ==> sign(r) == ord(a, b)
}

/// `ord` is a strict total order up to its own notion of equality.
pub open spec fn strict_total<T>(ord: spec_fn(T, T) -> int) -> bool {
    &&& forall|a: T, b: T| -1 <= #[trigger] ord(a, b) <= 1
    &&& forall|a: T, b: T| #[trigger] ord(a, b) == -ord(b, a)
    &&& forall|a: T, b: T, c: T| #[trigger] ord(a, b) < 0 && #[trigger] ord(b, c) <= 0 ==> ord(a, c) < 0
    &&& forall|a: T, b: T, c: T| #[trigger] ord(a, b) <= 0 && #[trigger] ord(b, c) < 0 ==> ord(a, c) < 0
}

/// The comparator is consistent: some strict total order tells the sign of
/// every answer it gives.
pub open spec fn consistent<T, F: Fn(&T, &T) -> i32>(comp: F) -> bool {
    exists|ord: spec_fn(T, T) -> int| follows(comp, ord) && strict_total(ord)
}

/// The order that a consistent comparator decides by.
pub open spec fn order_of<T, F: Fn(&T, &T) -> i32>(comp: F) -> spec_fn(T, T) -> int {
    choose|ord: spec_fn(T, T) -> int| follows(comp, ord) && strict_total(ord)
}

/// Every element is strictly less than each one after it.
pub open spec fn increasing<T>(ord: spec_fn(T, T) -> int, s: Seq<T>) -> bool {
    forall|i: int, j: int| 0 <= i < j < s.len() ==> ord(s[i], s[j]) < 0
}

/// Some element of `s` compares equal to `t`.
pub open spec fn holds<T>(ord: spec_fn(T, T) -> int, s: Seq<T>, t: T) -> bool {
    exists|i: int| 0 <= i < s.len() && ord(#[trigger] s[i], t) == 0
}

/// The number of elements of `s` that are less than `t`: in an increasing
/// sequence, the place where `t` stands or would stand.
pub open spec fn rank<T>(ord: spec_fn(T, T) -> int, s: Seq<T>, t: T) -> int
    decreases s.len(),
{
    if s.len() == 0 {
        0
    } else {
        rank(ord, s.drop_last(), t) + if ord(s.last(), t) < 0 {
            1int
        } else {
            0int
        }
    }
}

/// In a sequence that `k` cuts into the elements less than `t` and the rest,
/// the rank of `t` is `k`.
pub proof fn lemma_rank_is_cut<T>(ord: spec_fn(T, T) -> int, s: Seq<T>, t: T, k: int)
    requires
        0 <= k <= s.len(),
        forall|i: int| 0 <= i < k ==> ord(#[trigger] s[i], t) < 0,
        forall|i: int| k <= i < s.len() ==> ord(#[trigger] s[i], t) >= 0,
    ensures
        rank(ord, s, t) == k,
    decreases s.len(),
{
    if s.len() > 0 {
        let p = s.drop_last();
        if k == s.len() {
            lemma_rank_is_cut(ord, p, t, k - 1);
        } else {
            lemma_rank_is_cut(ord, p, t, k);
        }
    }
}

/// The element of `s` that compares equal to `t`, where `s` is increasing
/// and holds one.
pub open spec fn lookup<T>(ord: spec_fn(T, T) -> int, s: Seq<T>, t: T) -> Option<T> {
    if holds(ord, s, t) {
        Some(s[rank(ord, s, t)])
    } else {
        None
    }
}

/// `at` names, for each element of `sub` in turn, a place of `sup` that
/// holds it, and these places go up.
pub open spec fn embeds<T>(sub: Seq<T>, sup: Seq<T>, at: Seq<int>) -> bool {
    &&& at.len() == sub.len()
    &&& forall|k: int| 0 <= k < sub.len() ==> 0 <= #[trigger] at[k] < sup.len() && sup[at[k]] == sub[k]
    &&& forall|j: int, k: int| 0 <= j < k < sub.len() ==> #[trigger] at[j] < #[trigger] at[k]
}

/// `sub` is what is left of `sup` when some of its elements are taken out.
pub open spec fn is_subsequence<T>(sub: Seq<T>, sup: Seq<T>) -> bool {
    exists|at: Seq<int>| embeds(sub, sup, at)
}

/// The largest of the numbers, and 0 where there is none.
pub open spec fn peak(numbers: Seq<int>) -> int
    decreases numbers.len(),
{
    if numbers.len() == 0 {
        0
    } else {
        let rest = peak(numbers.drop_last());
        if numbers.last() > rest {
            numbers.last()
        } else {
            rest
        }
    }
}

/// No number is above the peak.
pub proof fn lemma_peak_bounds(numbers: Seq<int>, i: int)
    requires
        0 <= i < numbers.len(),
    ensures
        numbers[i] <= peak(numbers),
    decreases numbers.len(),
{
    if i < numbers.len() - 1 {
        lemma_peak_bounds(numbers.drop_last(), i);
    }
}

/// The peak of some numbers is one of them.
pub proof fn lemma_peak_is_reached(numbers: Seq<int>) -> (i: int)
    requires
        numbers.len() > 0,
        forall|j: int| 0 <= j < numbers.len() ==> numbers[j] >= 0,
    ensures
        0 <= i < numbers.len(),
        numbers[i] == peak(numbers),
    decreases numbers.len(),
{
    let rest = numbers.drop_last();
    if numbers.last() > peak(rest) || rest.len() == 0 {
        numbers.len() - 1
    } else {
        lemma_peak_is_reached(rest)
    }
}

/// In an increasing sequence the rank of `t` cuts the elements less than
/// `t` from the rest.
pub proof fn lemma_rank_cuts<T>(ord: spec_fn(T, T) -> int, s: Seq<T>, t: T)
    requires
        strict_total(ord),
        increasing(ord, s),
    ensures
        0 <= rank(ord, s, t) <= s.len(),
        forall|i: int| 0 <= i < rank(ord, s, t) ==> ord(#[trigger] s[i], t) < 0,
        forall|i: int| rank(ord, s, t) <= i < s.len() ==> ord(#[trigger] s[i], t) >= 0,
    decreases s.len(),
{
    if s.len() > 0 {
        let p = s.drop_last();
        assert forall|i: int, j: int| 0 <= i < j < p.len() implies ord(p[i], p[j]) < 0 by {
            assert(p[i] == s[i] && p[j] == s[j]);
        }
        lemma_rank_cuts(ord, p, t);
        if ord(s.last(), t) < 0 {
            assert forall|i: int| 0 <= i < p.len() implies ord(#[trigger] p[i], t) < 0 by {
                assert(p[i] == s[i]);
                assert(ord(s[i], s[s.len() - 1]) < 0);
            }
            lemma_rank_is_cut(ord, p, t, p.len() as int);
        }
        assert forall|i: int| 0 <= i < rank(ord, s, t) implies ord(#[trigger] s[i], t) < 0 by {
            if i < p.len() {
                assert(p[i] == s[i]);
            }
        }
        assert forall|i: int| rank(ord, s, t) <= i < s.len() implies ord(#[trigger] s[i], t) >= 0 by {
            if i < p.len() {
                assert(p[i] == s[i]);
            }
        }
    }
}

} // verus!
