//! Folding a sequence with a binary operation, and the monoid laws that
//! make the order of combination irrelevant.

use vstd::prelude::*;

verus! {

/// Left fold of `s` with `op`, starting from `id`:
/// `op(...op(op(id, s[0]), s[1])..., s[len-1])`.
pub open spec fn fold<T>(op: spec_fn(T, T) -> T, id: T, s: Seq<T>) -> T
    decreases s.len(),
{
    if s.len() == 0 {
        id
    } else {
        op(fold(op, id, s.drop_last()), s.last())
    }
}

/// `op` is associative and `id` is a two-sided identity for it.
pub open spec fn is_monoid<T>(op: spec_fn(T, T) -> T, id: T) -> bool {
    &&& forall|a: T, b: T, c: T| #[trigger] op(op(a, b), c) == op(a, #[trigger] op(b, c))
    &&& forall|a: T| #[trigger] op(id, a) == a
    &&& forall|a: T| #[trigger] op(a, id) == a
}

/// Folding a concatenation is combining the folds of its two parts.
pub proof fn lemma_fold_concat<T>(op: spec_fn(T, T) -> T, id: T, a: Seq<T>, b: Seq<T>)
    requires
        is_monoid(op, id),
    ensures
        fold(op, id, a + b) == op(fold(op, id, a), fold(op, id, b)),
    decreases b.len(),
{
    if b.len() == 0 {
        assert(a + b =~= a);
    } else {
        lemma_fold_concat(op, id, a, b.drop_last());
        assert((a + b).drop_last() =~= a + b.drop_last());
        assert((a + b).last() == b.last());
    }
}

/// The fold of a one-element sequence is that element.
pub proof fn lemma_fold_singleton<T>(op: spec_fn(T, T) -> T, id: T, x: T)
    requires
        is_monoid(op, id),
    ensures
        fold(op, id, seq![x]) == x,
{
    reveal_with_fuel(fold, 2);
    assert(seq![x].drop_last() =~= Seq::<T>::empty());
}

/// A sequence made only of identities folds to the identity.
pub proof fn lemma_fold_identities<T>(op: spec_fn(T, T) -> T, id: T, s: Seq<T>)
    requires
        is_monoid(op, id),
        forall|i: int| 0 <= i < s.len() ==> s[i] == id,
    ensures
        fold(op, id, s) == id,
    decreases s.len(),
{
    if s.len() > 0 {
        lemma_fold_identities(op, id, s.drop_last());
    }
}

/// Splitting an inclusive range `[l, r]` at `m` splits its fold:
/// the fold of `[l, r]` combines the folds of `[l, m]` and `[m + 1, r]`.
pub proof fn lemma_fold_range_split<T>(
    op: spec_fn(T, T) -> T,
    id: T,
    s: Seq<T>,
    l: int,
    m: int,
    r: int,
)
    requires
        is_monoid(op, id),
        0 <= l <= m < r < s.len(),
    ensures
        fold(op, id, s.subrange(l, r + 1)) == op(
            fold(op, id, s.subrange(l, m + 1)),
            fold(op, id, s.subrange(m + 1, r + 1)),
        ),
{
    assert(s.subrange(l, r + 1) =~= s.subrange(l, m + 1) + s.subrange(m + 1, r + 1));
    lemma_fold_concat(op, id, s.subrange(l, m + 1), s.subrange(m + 1, r + 1));
}

/// A range of one slot folds to the value in that slot.
pub proof fn lemma_fold_point<T>(op: spec_fn(T, T) -> T, id: T, s: Seq<T>, i: int)
    requires
        is_monoid(op, id),
        0 <= i < s.len(),
    ensures
        fold(op, id, s.subrange(i, i + 1)) == s[i],
{
    assert(s.subrange(i, i + 1) =~= seq![s[i]]);
    lemma_fold_singleton(op, id, s[i]);
}

/// Writing a slot outside `[l, r]` leaves the fold of `[l, r]` unchanged.
pub proof fn lemma_fold_update_outside<T>(
    op: spec_fn(T, T) -> T,
    id: T,
    s: Seq<T>,
    i: int,
    v: T,
    l: int,
    r: int,
)
    requires
        0 <= l <= r < s.len(),
        0 <= i < s.len(),
        i < l || r < i,
    ensures
        fold(op, id, s.update(i, v).subrange(l, r + 1)) == fold(op, id, s.subrange(l, r + 1)),
{
    assert(s.update(i, v).subrange(l, r + 1) =~= s.subrange(l, r + 1));
}

} // verus!
