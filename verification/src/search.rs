//! The first and the last element of a sequence that pass a test.

use vstd::prelude::*;

verus! {

/// `k` is the first element that satisfies `p`.
pub open spec fn is_first_where<A>(t: Seq<A>, p: spec_fn(A) -> bool, k: int) -> bool {
    &&& 0 <= k < t.len()
    &&& p(t[k])
    &&& forall|j: int| 0 <= j < k ==> !p(#[trigger] t[j])
}

/// `k` is the last element that satisfies `p`.
pub open spec fn is_last_where<A>(t: Seq<A>, p: spec_fn(A) -> bool, k: int) -> bool {
    &&& 0 <= k < t.len()
    &&& p(t[k])
    &&& forall|j: int| k < j < t.len() ==> !p(#[trigger] t[j])
}

/// The index of the first element that satisfies `p`, if any does.
pub open spec fn first_where<A>(t: Seq<A>, p: spec_fn(A) -> bool) -> Option<int> {
    if exists|k: int| is_first_where(t, p, k) {
        Some(choose|k: int| is_first_where(t, p, k))
    } else {
        None
    }
}

/// The index of the last element that satisfies `p`, if any does.
pub open spec fn last_where<A>(t: Seq<A>, p: spec_fn(A) -> bool) -> Option<int> {
    if exists|k: int| is_last_where(t, p, k) {
        Some(choose|k: int| is_last_where(t, p, k))
    } else {
        None
    }
}

/// An index found by a scan, as a position in the sequence.
pub open spec fn position(found: Option<usize>) -> Option<int> {
    match found {
        Some(k) => Some(k as int),
        None => None,
    }
}

/// An element that satisfies `p` with none before it is the first such row.
pub proof fn lemma_first_where_is<A>(t: Seq<A>, p: spec_fn(A) -> bool, k: int)
    requires
        is_first_where(t, p, k),
    ensures
        first_where(t, p) == Some(k),
{
    let c = choose|c: int| is_first_where(t, p, c);
    assert(is_first_where(t, p, c));
    if c < k {
        assert(!p(t[c]));
    } else if k < c {
        assert(!p(t[k]));
    }
}

/// Where no element satisfies `p`, there is no first such row.
pub proof fn lemma_first_where_none<A>(t: Seq<A>, p: spec_fn(A) -> bool)
    requires
        forall|j: int| 0 <= j < t.len() ==> !p(#[trigger] t[j]),
    ensures
        first_where(t, p) == None::<int>,
{
}

/// What `first_where` returns is the first such row, and `None` means that
/// no element satisfies `p`.
pub proof fn lemma_first_where<A>(t: Seq<A>, p: spec_fn(A) -> bool)
    ensures
        match first_where(t, p) {
            Some(k) => is_first_where(t, p, k),
            None => forall|j: int| 0 <= j < t.len() ==> !p(#[trigger] t[j]),
        },
{
    if !exists|k: int| is_first_where(t, p, k) {
        assert forall|j: int| 0 <= j < t.len() implies !p(#[trigger] t[j]) by {
            if p(t[j]) {
                lemma_some_first(t, p, j);
            }
        }
    }
}

/// Where some element up to `j` satisfies `p`, a first such row exists.
proof fn lemma_some_first<A>(t: Seq<A>, p: spec_fn(A) -> bool, j: int)
    requires
        0 <= j < t.len(),
        p(t[j]),
    ensures
        exists|k: int| is_first_where(t, p, k),
    decreases j,
{
    if exists|i: int| 0 <= i < j && p(t[i]) {
        let i = choose|i: int| 0 <= i < j && p(t[i]);
        lemma_some_first(t, p, i);
    } else {
        assert(is_first_where(t, p, j));
    }
}

/// An element that satisfies `p` with none after it is the last such row.
pub proof fn lemma_last_where_is<A>(t: Seq<A>, p: spec_fn(A) -> bool, k: int)
    requires
        is_last_where(t, p, k),
    ensures
        last_where(t, p) == Some(k),
{
    let c = choose|c: int| is_last_where(t, p, c);
    assert(is_last_where(t, p, c));
    if c < k {
        assert(!p(t[k]));
    } else if k < c {
        assert(!p(t[c]));
    }
}

/// Where no element satisfies `p`, there is no last such row.
pub proof fn lemma_last_where_none<A>(t: Seq<A>, p: spec_fn(A) -> bool)
    requires
        forall|j: int| 0 <= j < t.len() ==> !p(#[trigger] t[j]),
    ensures
        last_where(t, p) == None::<int>,
{
}

/// Where some element from `j` on satisfies `p`, a last such row exists.
proof fn lemma_some_last<A>(t: Seq<A>, p: spec_fn(A) -> bool, j: int)
    requires
        0 <= j < t.len(),
        p(t[j]),
    ensures
        exists|k: int| is_last_where(t, p, k),
    decreases t.len() - j,
{
    if exists|i: int| j < i < t.len() && p(t[i]) {
        let i = choose|i: int| j < i < t.len() && p(t[i]);
        lemma_some_last(t, p, i);
    } else {
        assert(is_last_where(t, p, j));
    }
}

/// What `last_where` returns is the last such row, and `None` means that no
/// row satisfies `p`.
pub proof fn lemma_last_where<A>(t: Seq<A>, p: spec_fn(A) -> bool)
    ensures
        match last_where(t, p) {
            Some(k) => is_last_where(t, p, k),
            None => forall|j: int| 0 <= j < t.len() ==> !p(#[trigger] t[j]),
        },
{
    if !exists|k: int| is_last_where(t, p, k) {
        assert forall|j: int| 0 <= j < t.len() implies !p(#[trigger] t[j]) by {
            if p(t[j]) {
                lemma_some_last(t, p, j);
            }
        }
    }
}

} // verus!
