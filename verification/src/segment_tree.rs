//! The segment tree itself: point updates and inclusive range queries over
//! a sequence of `n` values, combined with an associative operation.

use vstd::prelude::*;

use crate::fold::{fold, is_monoid, lemma_fold_concat, lemma_fold_singleton};
use crate::layout::{
    clip, fits, is_desc, lemma_clip_all, lemma_clip_children, lemma_clip_concat,
    lemma_desc_child, lemma_desc_self, lemma_desc_siblings, lemma_fits_root,
    lemma_node_seq_frame, lemma_node_seq_len, lemma_path_desc, lemma_wf_node_frame, mid_of,
    node_seq, on_path, wf_node,
};

verus! {

/// Every value that `combine` returns is what `op` gives for its arguments.
pub open spec fn computes<T, F: Fn(&T, &T) -> T>(combine: F, op: spec_fn(T, T) -> T) -> bool {
    forall|a: T, b: T, r: T| #[trigger] call_ensures(combine, (&a, &b), r) ==> r == op(a, b)
}

/// `combine` computes `op`, and `op` with `identity` is a monoid.
pub open spec fn is_monoid_of<T, F: Fn(&T, &T) -> T>(
    combine: F,
    identity: T,
    op: spec_fn(T, T) -> T,
) -> bool {
    computes(combine, op) && is_monoid(op, identity)
}

/// `combine` can be called on any two values.
pub open spec fn accepts_all<T, F: Fn(&T, &T) -> T>(combine: F) -> bool {
    forall|a: T, b: T| #[trigger] call_requires(combine, (&a, &b))
}

/// `combine` can be called on the folds of any two adjacent windows
/// `[i, j)` and `[j, k)` of `s`.
pub open spec fn accepts_adjacent_folds<T, F: Fn(&T, &T) -> T>(
    combine: F,
    op: spec_fn(T, T) -> T,
    identity: T,
    s: Seq<T>,
) -> bool {
    forall|i: int, j: int, k: int|
        0 <= i <= j <= k <= s.len() ==> #[trigger] call_requires(
            combine,
            (&fold(op, identity, s.subrange(i, j)), &fold(op, identity, s.subrange(j, k))),
        )
}

/// Every call that the tree makes over the contents `s` is admitted by
/// `combine`: either it accepts any arguments, or it computes a monoid whose
/// folds of adjacent windows of `s` it accepts.
pub open spec fn can_combine<T, F: Fn(&T, &T) -> T>(combine: F, identity: T, s: Seq<T>) -> bool {
    ||| accepts_all(combine)
    ||| exists|op: spec_fn(T, T) -> T|
        #[trigger] is_monoid_of(combine, identity, op) && accepts_adjacent_folds(
            combine,
            op,
            identity,
            s,
        )
}

/// `can_combine`, with the monoid that witnesses it (when one is needed) named.
spec fn can_combine_by<T, F: Fn(&T, &T) -> T>(
    combine: F,
    identity: T,
    op: spec_fn(T, T) -> T,
    s: Seq<T>,
) -> bool {
    accepts_all(combine) || (is_monoid_of(combine, identity, op) && accepts_adjacent_folds(
        combine,
        op,
        identity,
        s,
    ))
}

spec fn witness_op<T, F: Fn(&T, &T) -> T>(combine: F, identity: T, s: Seq<T>) -> spec_fn(
    T,
    T,
) -> T {
    choose|op: spec_fn(T, T) -> T|
        #[trigger] is_monoid_of(combine, identity, op) && accepts_adjacent_folds(
            combine,
            op,
            identity,
            s,
        )
}

proof fn lemma_witness<T, F: Fn(&T, &T) -> T>(combine: F, identity: T, s: Seq<T>)
    requires
        can_combine(combine, identity, s),
    ensures
        can_combine_by(combine, identity, witness_op(combine, identity, s), s),
{
}

/// Cloning a `T` gives back an equal value, as it does for plain data.
pub open spec fn clone_is_exact<T: Clone>() -> bool {
    forall|a: T, b: T| #[trigger] call_ensures(T::clone, (&a,), b) ==> a == b
}

/// Generic segment tree supporting any associative operation.
///
/// - `update(idx, val)`: O(log n) point update
/// - `query(l, r)`: O(log n) range query (inclusive)
#[verifier::reject_recursive_types(T)]
pub struct SegmentTree<T, F> where T: Clone, F: Fn(&T, &T) -> T {
    n: usize,
    tree: Vec<T>,
    identity: T,
    combine: F,
}

impl<T: Clone, F: Fn(&T, &T) -> T> View for SegmentTree<T, F> {
    type V = Seq<T>;

    /// The `n` values held by the tree, slot `0` first.
    closed spec fn view(&self) -> Seq<T> {
        node_seq(self.tree@, 1, 0, self.n - 1)
    }
}

/// Each internal node of the subtree holds the identity when every entry does.
proof fn lemma_uniform<T>(t: Seq<T>, op: spec_fn(T, T) -> T, id: T, node: int, start: int, end: int)
    requires
        fits(node, start, end, t.len() as int),
        start <= end,
        forall|j: int| 0 <= j < t.len() ==> t[j] == id,
        op(id, id) == id,
    ensures
        wf_node(t, op, node, start, end),
        node_seq(t, node, start, end) == Seq::new((end - start + 1) as nat, |i: int| id),
    decreases end - start,
{
    if start < end {
        let mid = mid_of(start, end);
        lemma_uniform(t, op, id, 2 * node, start, mid);
        lemma_uniform(t, op, id, 2 * node + 1, mid + 1, end);
        assert(node_seq(t, node, start, end) =~= Seq::new((end - start + 1) as nat, |i: int| id));
    } else {
        assert(node_seq(t, node, start, end) =~= Seq::new((end - start + 1) as nat, |i: int| id));
    }
}

/// The value at a well-formed node is the fold of the leaves under it.
proof fn lemma_node_value<T>(t: Seq<T>, op: spec_fn(T, T) -> T, id: T, node: int, start: int, end: int)
    requires
        wf_node(t, op, node, start, end),
        is_monoid(op, id),
        start <= end,
    ensures
        t[node] == fold(op, id, node_seq(t, node, start, end)),
    decreases end - start,
{
    if start < end {
        let mid = mid_of(start, end);
        lemma_node_value(t, op, id, 2 * node, start, mid);
        lemma_node_value(t, op, id, 2 * node + 1, mid + 1, end);
        lemma_fold_concat(op, id, node_seq(t, 2 * node, start, mid), node_seq(t, 2 * node + 1, mid + 1, end));
    } else {
        lemma_fold_singleton(op, id, t[node]);
    }
}

impl<T: Clone, F: Fn(&T, &T) -> T> SegmentTree<T, F> {
    /// The function the tree combines values with.
    pub closed spec fn combine_fn(&self) -> F {
        self.combine
    }

    /// The identity the tree was made with, the value of an empty range.
    pub closed spec fn neutral(&self) -> T {
        self.identity
    }

    /// The tree is laid out over its `n` slots, and for every monoid that
    /// `combine` computes, every internal node holds the combination of its
    /// children.
    pub closed spec fn wf(&self) -> bool {
        &&& 1 <= self.n
        &&& self.tree.len() == 4 * self.n
        &&& fits(1, 0, self.n - 1, self.tree.len() as int)
        &&& clone_is_exact::<T>()
        &&& forall|op: spec_fn(T, T) -> T|
            #[trigger] is_monoid_of(self.combine, self.identity, op) ==> wf_node(
                self.tree@,
                op,
                1,
                0,
                self.n - 1,
            )
    }

    proof fn lemma_view_len(&self)
        requires
            self.wf(),
        ensures
            self@.len() == self.n >= 1,
    {
        lemma_node_seq_len(self.tree@, 1, 0, self.n - 1);
    }

    /// Creates a tree of `n` slots, all initialised to `identity`.
    pub fn new(n: usize, identity: T, combine: F) -> (t: Self)
        requires
            n > 0,
            n <= usize::MAX / 4,
            clone_is_exact::<T>(),
        ensures
            t.wf(),
            t@ == Seq::new(n as nat, |i: int| identity),
            t.combine_fn() == combine,
            t.neutral() == identity,
    {
        let tree = vec![identity.clone(); 4 * n];
        proof {
            lemma_fits_root(n as int);
            assert forall|op: spec_fn(T, T) -> T|
                #[trigger] is_monoid_of(combine, identity, op) implies wf_node(
                tree@,
                op,
                1,
                0,
                n - 1,
            ) by {
                lemma_uniform(tree@, op, identity, 1, 0, n - 1);
            }
            lemma_uniform(tree@, |a: T, b: T| identity, identity, 1, 0, n - 1);
        }
        SegmentTree { n, tree, identity, combine }
    }

    /// Builds a tree holding the values of `data`, in O(n).
    pub fn from_data(data: &[T], identity: T, combine: F) -> (t: Self)
        requires
            data.len() > 0,
            data.len() <= usize::MAX / 4,
            clone_is_exact::<T>(),
            can_combine(combine, identity, data@),
        ensures
            t.wf(),
            t@ == data@,
            t.combine_fn() == combine,
            t.neutral() == identity,
    {
        let n = data.len();
        let tree = vec![identity.clone(); 4 * n];
        let mut st = SegmentTree { n, tree, identity, combine };
        let ghost op0 = witness_op(combine, identity, data@);
        proof {
            lemma_fits_root(n as int);
            lemma_witness(combine, identity, data@);
        }
        st.build(data, 1, 0, n - 1, Ghost(op0));
        proof {
            assert(data@.subrange(0, n as int) =~= data@);
            assert forall|op: spec_fn(T, T) -> T|
                #[trigger] is_monoid_of(st.combine, st.identity, op) implies wf_node(
                st.tree@,
                op,
                1,
                0,
                n - 1,
            ) by {
                assert(computes(st.combine, op));
            }
        }
        st
    }

    fn build(
        &mut self,
        data: &[T],
        node: usize,
        start: usize,
        end: usize,
        Ghost(op0): Ghost<spec_fn(T, T) -> T>,
    )
        requires
            start <= end < data.len(),
            node >= 1,
            fits(node as int, start as int, end as int, old(self).tree.len() as int),
            clone_is_exact::<T>(),
            can_combine_by(old(self).combine, old(self).identity, op0, data@),
        ensures
            final(self).n == old(self).n,
            final(self).identity == old(self).identity,
            final(self).combine == old(self).combine,
            final(self).tree.len() == old(self).tree.len(),
            node_seq(final(self).tree@, node as int, start as int, end as int) == data@.subrange(
                start as int,
                end + 1,
            ),
            forall|op: spec_fn(T, T) -> T|
                #[trigger] computes(final(self).combine, op) ==> wf_node(
                    final(self).tree@,
                    op,
                    node as int,
                    start as int,
                    end as int,
                ),
            forall|j: int|
                0 <= j < old(self).tree.len() && !is_desc(j, node as int) ==> final(self).tree@[j] == old(self).tree@[j],
        decreases end - start,
    {
        let ghost t0 = self.tree@;
        if start == end {
            self.tree.set(node, data[start].clone());
            proof {
                lemma_desc_self(node as int);
                assert(node_seq(self.tree@, node as int, start as int, end as int) =~= data@.subrange(
                    start as int,
                    end + 1,
                ));
            }
            return;
        }
        let mid: usize = start + (end - start) / 2;
        self.build(data, 2 * node, start, mid, Ghost(op0));
        let ghost t1 = self.tree@;
        self.build(data, 2 * node + 1, mid + 1, end, Ghost(op0));
        let ghost t2 = self.tree@;
        let ghost k = node as int;
        proof {
            assert forall|j: int| 0 <= j < t1.len() && is_desc(j, 2 * k) implies t2[j] == t1[j] by {
                lemma_desc_siblings(j, k);
            }
            lemma_node_seq_frame(t1, t2, 2 * k, start as int, mid as int);
            if !accepts_all(self.combine) {
                assert(computes(self.combine, op0));
                lemma_wf_node_frame(t1, t2, op0, 2 * k, start as int, mid as int);
                lemma_node_value(t2, op0, self.identity, 2 * k, start as int, mid as int);
                lemma_node_value(t2, op0, self.identity, 2 * k + 1, mid + 1, end as int);
                assert(call_requires(
                    self.combine,
                    (
                        &fold(op0, self.identity, data@.subrange(start as int, mid + 1)),
                        &fold(op0, self.identity, data@.subrange(mid + 1, end + 1)),
                    ),
                ));
            }
        }
        self.merge_children(node);
        proof {
            let t3 = self.tree@;
            lemma_desc_self(k);
            assert forall|j: int| 0 <= j < t1.len() && is_desc(j, 2 * k) implies t3[j] == t1[j] by {
                lemma_desc_siblings(j, k);
                lemma_desc_child(j, k);
            }
            assert forall|j: int| 0 <= j < t1.len() && is_desc(j, 2 * k + 1) implies t3[j]
                == t2[j] by {
                lemma_desc_child(j, k);
            }
            lemma_node_seq_frame(t1, t3, 2 * k, start as int, mid as int);
            lemma_node_seq_frame(t2, t3, 2 * k + 1, mid + 1, end as int);
            assert forall|op: spec_fn(T, T) -> T|
                #[trigger] computes(self.combine, op) implies wf_node(
                t3,
                op,
                k,
                start as int,
                end as int,
            ) by {
                lemma_wf_node_frame(t1, t3, op, 2 * k, start as int, mid as int);
                lemma_wf_node_frame(t2, t3, op, 2 * k + 1, mid + 1, end as int);
            }
            assert(node_seq(t3, k, start as int, end as int) =~= data@.subrange(
                start as int,
                end + 1,
            ));
            assert forall|j: int| 0 <= j < t0.len() && !is_desc(j, k) implies t3[j] == t0[j] by {
                if is_desc(j, 2 * k) || is_desc(j, 2 * k + 1) {
                    lemma_desc_child(j, k);
                }
            }
        }
    }

    /// Sets slot `idx` to `val` and recomputes the nodes above it.
    pub fn update(&mut self, idx: usize, val: T)
        requires
            old(self).wf(),
            idx < old(self)@.len(),
            can_combine(old(self).combine_fn(), old(self).neutral(), old(self)@.update(idx as int, val)),
        ensures
            final(self).wf(),
            final(self)@ == old(self)@.update(idx as int, val),
            final(self).combine_fn() == old(self).combine_fn(),
            final(self).neutral() == old(self).neutral(),
    {
        proof {
            self.lemma_view_len();
        }
        let ghost g = self@.update(idx as int, val);
        let ghost op0 = witness_op(self.combine, self.identity, g);
        proof {
            lemma_witness(self.combine, self.identity, g);
            assert(node_seq(self.tree@, 1, 0, self.n - 1).update(idx as int, val) =~= g.subrange(0, self.n as int));
        }
        let n = self.n;
        self.update_inner(1, 0, n - 1, idx, val, Ghost(op0), Ghost(g));
        proof {
            assert(self@ =~= g);
        }
    }

    fn update_inner(
        &mut self,
        node: usize,
        start: usize,
        end: usize,
        idx: usize,
        val: T,
        Ghost(op0): Ghost<spec_fn(T, T) -> T>,
        Ghost(g): Ghost<Seq<T>>,
    )
        requires
            start <= idx <= end < g.len(),
            node >= 1,
            fits(node as int, start as int, end as int, old(self).tree.len() as int),
            clone_is_exact::<T>(),
            can_combine_by(old(self).combine, old(self).identity, op0, g),
            node_seq(old(self).tree@, node as int, start as int, end as int).update(idx - start, val)
                == g.subrange(start as int, end + 1),
            forall|op: spec_fn(T, T) -> T|
                #[trigger] is_monoid_of(old(self).combine, old(self).identity, op) ==> wf_node(
                    old(self).tree@,
                    op,
                    node as int,
                    start as int,
                    end as int,
                ),
        ensures
            final(self).n == old(self).n,
            final(self).identity == old(self).identity,
            final(self).combine == old(self).combine,
            final(self).tree.len() == old(self).tree.len(),
            node_seq(final(self).tree@, node as int, start as int, end as int) == node_seq(
                old(self).tree@,
                node as int,
                start as int,
                end as int,
            ).update(idx - start, val),
            forall|op: spec_fn(T, T) -> T|
                #[trigger] is_monoid_of(final(self).combine, final(self).identity, op) ==> wf_node(
                    final(self).tree@,
                    op,
                    node as int,
                    start as int,
                    end as int,
                ),
            forall|j: int|
                0 <= j < old(self).tree.len() && !on_path(
                    j,
                    node as int,
                    start as int,
                    end as int,
                    idx as int,
                ) ==> final(self).tree@[j] == old(self).tree@[j],
        decreases end - start,
    {
        let ghost t0 = self.tree@;
        let ghost k = node as int;
        if start == end {
            self.tree.set(node, val);
            proof {
                assert(node_seq(self.tree@, k, start as int, end as int) =~= node_seq(
                    t0,
                    k,
                    start as int,
                    end as int,
                ).update(idx - start, val));
            }
            return;
        }
        let mid: usize = start + (end - start) / 2;
        proof {
            lemma_node_seq_len(t0, 2 * k, start as int, mid as int);
            lemma_node_seq_len(t0, 2 * k + 1, mid + 1, end as int);
            let sl = node_seq(t0, 2 * k, start as int, mid as int);
            let sr = node_seq(t0, 2 * k + 1, mid + 1, end as int);
            let whole = g.subrange(start as int, end + 1);
            assert(g.subrange(start as int, mid + 1) =~= whole.subrange(0, mid + 1 - start));
            assert(g.subrange(mid + 1, end + 1) =~= whole.subrange(mid + 1 - start, end + 1 - start));
            if idx <= mid {
                assert(whole =~= sl.update(idx - start, val) + sr);
                assert(sl.update(idx - start, val) =~= whole.subrange(0, mid + 1 - start));
                assert(sr =~= whole.subrange(mid + 1 - start, end + 1 - start));
            } else {
                assert(whole =~= sl + sr.update(idx - (mid + 1), val));
                assert(sl =~= whole.subrange(0, mid + 1 - start));
                assert(sr.update(idx - (mid + 1), val) =~= whole.subrange(mid + 1 - start, end + 1 - start));
            }
        }
        if idx <= mid {
            self.update_inner(2 * node, start, mid, idx, val, Ghost(op0), Ghost(g));
            proof {
                let t1 = self.tree@;
                assert forall|j: int|
                    0 <= j < t0.len() && !on_path(
                        j,
                        k,
                        start as int,
                        end as int,
                        idx as int,
                    ) implies t1[j] == t0[j] by {
                    assert(!on_path(j, 2 * k, start as int, mid as int, idx as int));
                }
                assert forall|j: int| 0 <= j < t0.len() && is_desc(j, 2 * k + 1) implies t1[j]
                    == t0[j] by {
                    if on_path(j, 2 * k, start as int, mid as int, idx as int) {
                        lemma_path_desc(j, 2 * k, start as int, mid as int, idx as int);
                        lemma_desc_siblings(j, k);
                    }
                }
                lemma_node_seq_frame(t0, t1, 2 * k + 1, mid + 1, end as int);
                assert forall|op: spec_fn(T, T) -> T|
                    #[trigger] is_monoid_of(self.combine, self.identity, op) implies wf_node(
                    t1,
                    op,
                    2 * k + 1,
                    mid + 1,
                    end as int,
                ) by {
                    lemma_wf_node_frame(t0, t1, op, 2 * k + 1, mid + 1, end as int);
                }
            }
        } else {
            self.update_inner(2 * node + 1, mid + 1, end, idx, val, Ghost(op0), Ghost(g));
            proof {
                let t1 = self.tree@;
                assert forall|j: int|
                    0 <= j < t0.len() && !on_path(
                        j,
                        k,
                        start as int,
                        end as int,
                        idx as int,
                    ) implies t1[j] == t0[j] by {
                    assert(!on_path(j, 2 * k + 1, mid + 1, end as int, idx as int));
                }
                assert forall|j: int| 0 <= j < t0.len() && is_desc(j, 2 * k) implies t1[j]
                    == t0[j] by {
                    if on_path(j, 2 * k + 1, mid + 1, end as int, idx as int) {
                        lemma_path_desc(j, 2 * k + 1, mid + 1, end as int, idx as int);
                        lemma_desc_siblings(j, k);
                    }
                }
                lemma_node_seq_frame(t0, t1, 2 * k, start as int, mid as int);
                assert forall|op: spec_fn(T, T) -> T|
                    #[trigger] is_monoid_of(self.combine, self.identity, op) implies wf_node(
                    t1,
                    op,
                    2 * k,
                    start as int,
                    mid as int,
                ) by {
                    lemma_wf_node_frame(t0, t1, op, 2 * k, start as int, mid as int);
                }
            }
        }
        let ghost t1 = self.tree@;
        proof {
            lemma_node_seq_len(t0, 2 * k, start as int, mid as int);
            assert(node_seq(t1, 2 * k, start as int, mid as int) == g.subrange(start as int, mid + 1));
            assert(node_seq(t1, 2 * k + 1, mid + 1, end as int) == g.subrange(mid + 1, end + 1));
            if !accepts_all(self.combine) {
                lemma_node_value(t1, op0, self.identity, 2 * k, start as int, mid as int);
                lemma_node_value(t1, op0, self.identity, 2 * k + 1, mid + 1, end as int);
                assert(call_requires(
                    self.combine,
                    (
                        &fold(op0, self.identity, g.subrange(start as int, mid + 1)),
                        &fold(op0, self.identity, g.subrange(mid + 1, end + 1)),
                    ),
                ));
            }
        }
        self.merge_children(node);
        proof {
            let t3 = self.tree@;
            lemma_desc_self(k);
            assert forall|j: int| 0 <= j < t1.len() && (is_desc(j, 2 * k) || is_desc(j, 2 * k + 1)) implies t3[j] == t1[j] by {
                lemma_desc_child(j, k);
            }
            lemma_node_seq_frame(t1, t3, 2 * k, start as int, mid as int);
            lemma_node_seq_frame(t1, t3, 2 * k + 1, mid + 1, end as int);
            assert forall|op: spec_fn(T, T) -> T|
                #[trigger] is_monoid_of(self.combine, self.identity, op) implies wf_node(
                t3,
                op,
                k,
                start as int,
                end as int,
            ) by {
                lemma_wf_node_frame(t1, t3, op, 2 * k, start as int, mid as int);
                lemma_wf_node_frame(t1, t3, op, 2 * k + 1, mid + 1, end as int);
            }
            lemma_node_seq_len(t0, 2 * k + 1, mid + 1, end as int);
            let sl = node_seq(t0, 2 * k, start as int, mid as int);
            let sr = node_seq(t0, 2 * k + 1, mid + 1, end as int);
            if idx <= mid {
                assert(node_seq(t3, k, start as int, end as int) =~= sl.update(idx - start, val)
                    + sr);
            } else {
                assert(node_seq(t3, k, start as int, end as int) =~= sl + sr.update(
                    idx - (mid + 1),
                    val,
                ));
            }
            assert(node_seq(t3, k, start as int, end as int) =~= node_seq(
                t0,
                k,
                start as int,
                end as int,
            ).update(idx - start, val));
            assert forall|j: int|
                0 <= j < t0.len() && !on_path(
                    j,
                    k,
                    start as int,
                    end as int,
                    idx as int,
                ) implies t3[j] == t0[j] by {
                assert(j != k);
            }
        }
    }

    /// Returns the combination of all values in the inclusive range `[l, r]`:
    /// for every monoid that `combine` computes, the fold of `[l, r]`.
    pub fn query(&self, l: usize, r: usize) -> (res: T)
        requires
            self.wf(),
            l <= r,
            r < self@.len(),
            can_combine(self.combine_fn(), self.neutral(), self@),
        ensures
            forall|op: spec_fn(T, T) -> T|
                #[trigger] is_monoid_of(self.combine_fn(), self.neutral(), op) ==> res == fold(
                    op,
                    self.neutral(),
                    self@.subrange(l as int, r + 1),
                ),
    {
        proof {
            self.lemma_view_len();
        }
        let ghost op0 = witness_op(self.combine, self.identity, self@);
        proof {
            lemma_witness(self.combine, self.identity, self@);
            assert(self@.subrange(0, self.n as int) =~= self@);
        }
        let res = self.query_inner(1, 0, self.n - 1, l, r, Ghost(op0));
        proof {
            assert(clip(self@, 0, l as int, r as int) =~= self@.subrange(l as int, r + 1));
        }
        res
    }

    fn query_inner(
        &self,
        node: usize,
        start: usize,
        end: usize,
        l: usize,
        r: usize,
        Ghost(op0): Ghost<spec_fn(T, T) -> T>,
    ) -> (res: T)
        requires
            self.wf(),
            node >= 1,
            l <= r,
            start <= end < self@.len(),
            fits(node as int, start as int, end as int, self.tree.len() as int),
            can_combine_by(self.combine, self.identity, op0, self@),
            node_seq(self.tree@, node as int, start as int, end as int) == self@.subrange(
                start as int,
                end + 1,
            ),
            forall|op: spec_fn(T, T) -> T|
                #[trigger] is_monoid_of(self.combine, self.identity, op) ==> wf_node(
                    self.tree@,
                    op,
                    node as int,
                    start as int,
                    end as int,
                ),
        ensures
            forall|op: spec_fn(T, T) -> T|
                #[trigger] is_monoid_of(self.combine, self.identity, op) ==> res == fold(
                    op,
                    self.identity,
                    clip(
                        node_seq(self.tree@, node as int, start as int, end as int),
                        start as int,
                        l as int,
                        r as int,
                    ),
                ),
        decreases end - start,
    {
        let ghost t = self.tree@;
        let ghost k = node as int;
        let ghost s = node_seq(t, k, start as int, end as int);
        proof {
            lemma_node_seq_len(t, k, start as int, end as int);
        }
        if r < start || end < l {
            proof {
                assert(clip(s, start as int, l as int, r as int) =~= Seq::<T>::empty());
            }
            return self.identity.clone();
        }
        if l <= start && end <= r {
            proof {
                lemma_clip_all(s, start as int, l as int, r as int);
                assert forall|op: spec_fn(T, T) -> T|
                    #[trigger] is_monoid_of(self.combine, self.identity, op) implies t[k] == fold(
                    op,
                    self.identity,
                    s,
                ) by {
                    lemma_node_value(t, op, self.identity, k, start as int, end as int);
                }
            }
            return self.tree[node].clone();
        }
        let mid: usize = start + (end - start) / 2;
        let ghost g = self@;
        let ghost sl = node_seq(t, 2 * k, start as int, mid as int);
        let ghost sr = node_seq(t, 2 * k + 1, mid + 1, end as int);
        proof {
            lemma_node_seq_len(t, 2 * k, start as int, mid as int);
            lemma_node_seq_len(t, 2 * k + 1, mid + 1, end as int);
            assert(s == sl + sr);
            assert(g.subrange(start as int, mid + 1) =~= s.subrange(0, mid + 1 - start));
            assert(g.subrange(mid + 1, end + 1) =~= s.subrange(mid + 1 - start, end + 1 - start));
            assert(sl =~= s.subrange(0, mid + 1 - start));
            assert(sr =~= s.subrange(mid + 1 - start, end + 1 - start));
        }
        let left = self.query_inner(2 * node, start, mid, l, r, Ghost(op0));
        let right = self.query_inner(2 * node + 1, mid + 1, end, l, r, Ghost(op0));
        proof {
            lemma_clip_children(g, start as int, mid as int, end as int, l as int, r as int);
            if !accepts_all(self.combine) {
                let lo = if l > start { l as int } else { start as int };
                let hi = if r < end { r + 1 } else { end + 1 };
                let cut = if mid + 1 < lo { lo } else if mid + 1 > hi { hi } else { mid + 1 };
                assert(left == fold(op0, self.identity, g.subrange(lo, cut)));
                assert(right == fold(op0, self.identity, g.subrange(cut, hi)));
                assert(call_requires(
                    self.combine,
                    (
                        &fold(op0, self.identity, g.subrange(lo, cut)),
                        &fold(op0, self.identity, g.subrange(cut, hi)),
                    ),
                ));
            }
        }
        let res = (self.combine)(&left, &right);
        proof {
            lemma_clip_concat(sl, sr, start as int, l as int, r as int);
            assert forall|op: spec_fn(T, T) -> T|
                #[trigger] is_monoid_of(self.combine, self.identity, op) implies res == fold(
                op,
                self.identity,
                clip(s, start as int, l as int, r as int),
            ) by {
                lemma_fold_concat(
                    op,
                    self.identity,
                    clip(sl, start as int, l as int, r as int),
                    clip(sr, mid + 1, l as int, r as int),
                );
            }
        }
        res
    }

    fn merge_children(&mut self, node: usize)
        requires
            2 * node + 1 < old(self).tree.len(),
            clone_is_exact::<T>(),
            call_requires(
                old(self).combine,
                (&old(self).tree@[2 * node], &old(self).tree@[2 * node + 1]),
            ),
        ensures
            final(self).n == old(self).n,
            final(self).identity == old(self).identity,
            final(self).combine == old(self).combine,
            final(self).tree@ == old(self).tree@.update(node as int, final(self).tree@[node as int]),
            call_ensures(
                old(self).combine,
                (&old(self).tree@[2 * node], &old(self).tree@[2 * node + 1]),
                final(self).tree@[node as int],
            ),
    {
        // Read both children before writing the parent.
        let left = self.tree[2 * node].clone();
        let right = self.tree[2 * node + 1].clone();
        let v = (self.combine)(&left, &right);
        self.tree.set(node, v);
    }

    /// The number of slots, at least one.
    pub fn len(&self) -> (r: usize)
        requires
            self.wf(),
        ensures
            r == self@.len(),
            r >= 1,
    {
        proof {
            self.lemma_view_len();
        }
        self.n
    }

    /// Whether the tree has no slots; a tree always has at least one.
    pub fn is_empty(&self) -> (b: bool)
        requires
            self.wf(),
        ensures
            b == (self@.len() == 0),
            !b,
    {
        proof {
            self.lemma_view_len();
        }
        self.n == 0
    }
}

} // verus!
