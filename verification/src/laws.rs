//! What searching finds in a sequence that an insertion or a deletion has
//! changed.

use crate::order::{holds, increasing, lemma_rank_cuts, lemma_rank_is_cut, lookup, rank, strict_total};
use vstd::prelude::*;

verus! {

/// In an increasing sequence that holds an element equal to `t`, that
/// element stands at the rank of `t`, and no other element is equal to `t`.
pub proof fn lemma_lookup_matches<T>(ord: spec_fn(T, T) -> int, s: Seq<T>, t: T)
    requires
        strict_total(ord),
        increasing(ord, s),
        holds(ord, s, t),
    ensures
        0 <= rank(ord, s, t) < s.len(),
        ord(s[rank(ord, s, t)], t) == 0,
        forall|i: int| 0 <= i < s.len() && i != rank(ord, s, t) ==> ord(#[trigger] s[i], t) != 0,
        lookup(ord, s, t) == Some(s[rank(ord, s, t)]),
{
    lemma_rank_cuts(ord, s, t);
    let k = rank(ord, s, t);
    let w = choose|i: int| 0 <= i < s.len() && ord(#[trigger] s[i], t) == 0;
    assert(w >= k);
    if w > k {
        assert(ord(s[k], s[w]) < 0);
    }
    assert forall|i: int| 0 <= i < s.len() && i != k implies ord(#[trigger] s[i], t) != 0 by {
        if i > k {
            assert(ord(s[k], s[i]) < 0);
        }
    }
}

/// A value that was inserted is found: searching for `v` in the sequence
/// that the insertion of `v` left gives `v` itself.
pub proof fn lemma_lookup_after_insert<T>(ord: spec_fn(T, T) -> int, s: Seq<T>, v: T)
    requires
        strict_total(ord),
        increasing(ord, s),
        !holds(ord, s, v),
    ensures
        lookup(ord, s.insert(rank(ord, s, v), v), v) == Some(v),
{
    lemma_rank_cuts(ord, s, v);
    let k = rank(ord, s, v);
    let after = s.insert(k, v);
    assert(after[k] == v);
    assert(ord(v, v) == 0);
    assert forall|i: int| 0 <= i < k implies ord(#[trigger] after[i], v) < 0 by {
        assert(after[i] == s[i]);
    }
    assert forall|i: int| k <= i < after.len() implies ord(#[trigger] after[i], v) >= 0 by {
        if i > k {
            assert(after[i] == s[i - 1]);
        }
    }
    lemma_rank_is_cut(ord, after, v, k);
}

/// A value that was deleted is not found: searching for `t` in the
/// sequence that the deletion of `t` left gives nothing.
pub proof fn lemma_lookup_after_remove<T>(ord: spec_fn(T, T) -> int, s: Seq<T>, t: T)
    requires
        strict_total(ord),
        increasing(ord, s),
        holds(ord, s, t),
    ensures
        lookup(ord, s.remove(rank(ord, s, t)), t) is None,
{
    lemma_lookup_matches(ord, s, t);
    let k = rank(ord, s, t);
    let after = s.remove(k);
    if holds(ord, after, t) {
        let i = choose|i: int| 0 <= i < after.len() && ord(#[trigger] after[i], t) == 0;
        let ii = if i < k { i } else { i + 1 };
        assert(after[i] == s[ii]);
    }
}

} // verus!
