//! The implicit binary-tree layout of a segment tree in an array:
//! node `k` covers an inclusive range `[start, end]`, its children are
//! `2k` (covering `[start, mid]`) and `2k + 1` (covering `[mid + 1, end]`).

use vstd::prelude::*;

verus! {

/// The split point of the range `[start, end]`.
pub open spec fn mid_of(start: int, end: int) -> int {
    start + (end - start) / 2
}

/// The leaf values stored under `node` for the range `[start, end]`,
/// from left to right.
pub open spec fn node_seq<T>(t: Seq<T>, node: int, start: int, end: int) -> Seq<T>
    decreases end - start,
{
    if start >= end {
        seq![t[node]]
    } else {
        node_seq(t, 2 * node, start, mid_of(start, end)) + node_seq(
            t,
            2 * node + 1,
            mid_of(start, end) + 1,
            end,
        )
    }
}

/// Every node of the subtree rooted at `node` has an index below `size`.
pub open spec fn fits(node: int, start: int, end: int, size: int) -> bool
    decreases end - start,
{
    &&& 0 <= node < size
    &&& start < end ==> {
        &&& 2 * node + 1 < size
        &&& fits(2 * node, start, mid_of(start, end), size)
        &&& fits(2 * node + 1, mid_of(start, end) + 1, end, size)
    }
}

/// Every internal node of the subtree rooted at `node` holds the
/// combination of its two children.
pub open spec fn wf_node<T>(
    t: Seq<T>,
    op: spec_fn(T, T) -> T,
    node: int,
    start: int,
    end: int,
) -> bool
    decreases end - start,
{
    start < end ==> {
        &&& t[node] == op(t[2 * node], t[2 * node + 1])
        &&& wf_node(t, op, 2 * node, start, mid_of(start, end))
        &&& wf_node(t, op, 2 * node + 1, mid_of(start, end) + 1, end)
    }
}

/// Node `j` lies in the subtree rooted at node `k` (`k` itself included).
pub open spec fn is_desc(j: int, k: int) -> bool
    decreases j,
{
    if j <= 0 || k <= 0 || j < k {
        false
    } else if j == k {
        true
    } else {
        is_desc(j / 2, k)
    }
}

/// Node `j` lies on the path from `node` (covering `[start, end]`) down to
/// the leaf of slot `idx`.
pub open spec fn on_path(j: int, node: int, start: int, end: int, idx: int) -> bool
    decreases end - start,
{
    if j == node {
        true
    } else if start >= end {
        false
    } else if idx <= mid_of(start, end) {
        on_path(j, 2 * node, start, mid_of(start, end), idx)
    } else {
        on_path(j, 2 * node + 1, mid_of(start, end) + 1, end, idx)
    }
}

/// The part of `s`, whose elements sit at positions `start, start + 1, ...`,
/// that lies inside the inclusive range `[l, r]`.
pub open spec fn clip<T>(s: Seq<T>, start: int, l: int, r: int) -> Seq<T> {
    let lo = if l > start { l - start } else { 0 };
    let hi = if r - start + 1 < s.len() { r - start + 1 } else { s.len() as int };
    if lo < hi {
        s.subrange(lo, hi)
    } else {
        Seq::empty()
    }
}

pub proof fn lemma_node_seq_len<T>(t: Seq<T>, node: int, start: int, end: int)
    requires
        start <= end,
    ensures
        node_seq(t, node, start, end).len() == end - start + 1,
    decreases end - start,
{
    if start < end {
        lemma_node_seq_len(t, 2 * node, start, mid_of(start, end));
        lemma_node_seq_len(t, 2 * node + 1, mid_of(start, end) + 1, end);
    }
}

proof fn lemma_fits_scaled(node: int, start: int, end: int, n: int, p: int)
    requires
        1 <= p <= 2 * n,
        1 <= node < 2 * p,
        start <= end,
        (end - start) * p < n,
    ensures
        fits(node, start, end, 4 * n),
    decreases end - start,
{
    if start < end {
        let x = end - start;
        let mid = mid_of(start, end);
        assert(x * p >= p) by (nonlinear_arith)
            requires
                x >= 1,
                p >= 1,
        ;
        assert((mid - start) * (2 * p) <= x * p) by (nonlinear_arith)
            requires
                mid - start == x / 2,
                x >= 1,
                p >= 1,
        ;
        assert((end - (mid + 1)) * (2 * p) <= x * p) by (nonlinear_arith)
            requires
                end - (mid + 1) == x - x / 2 - 1,
                x >= 1,
                p >= 1,
        ;
        lemma_fits_scaled(2 * node, start, mid, n, 2 * p);
        lemma_fits_scaled(2 * node + 1, mid + 1, end, n, 2 * p);
    }
}

/// The whole tree over `n` leaves fits in an array of `4 * n` nodes.
pub proof fn lemma_fits_root(n: int)
    requires
        n >= 1,
    ensures
        fits(1, 0, n - 1, 4 * n),
{
    lemma_fits_scaled(1, 0, n - 1, n, 1);
}

pub proof fn lemma_desc_self(k: int)
    requires
        k >= 1,
    ensures
        is_desc(k, k),
{
}

pub proof fn lemma_desc_ge(j: int, k: int)
    requires
        is_desc(j, k),
    ensures
        j >= k >= 1,
    decreases j,
{
    if j != k {
        lemma_desc_ge(j / 2, k);
    }
}

/// A node under one of the children of `k` is under `k`, and is not `k`.
pub proof fn lemma_desc_child(j: int, k: int)
    requires
        k >= 1,
        is_desc(j, 2 * k) || is_desc(j, 2 * k + 1),
    ensures
        is_desc(j, k),
        j != k,
    decreases j,
{
    if is_desc(j, 2 * k) {
        lemma_desc_ge(j, 2 * k);
    } else {
        lemma_desc_ge(j, 2 * k + 1);
    }
    if j == 2 * k || j == 2 * k + 1 {
        assert(j / 2 == k);
        lemma_desc_self(k);
    } else {
        lemma_desc_child(j / 2, k);
    }
}

/// The subtrees of two siblings do not overlap.
pub proof fn lemma_desc_siblings(j: int, k: int)
    requires
        k >= 1,
        is_desc(j, 2 * k),
    ensures
        !is_desc(j, 2 * k + 1),
    decreases j,
{
    if j != 2 * k {
        lemma_desc_ge(j, 2 * k);
        if j == 2 * k + 1 {
            assert((2 * k + 1) / 2 == k);
            assert(!is_desc(k, 2 * k));
        } else {
            lemma_desc_siblings(j / 2, k);
        }
    }
}

/// The leaves under `node` depend only on the entries of its subtree.
pub proof fn lemma_node_seq_frame<T>(t1: Seq<T>, t2: Seq<T>, node: int, start: int, end: int)
    requires
        node >= 1,
        fits(node, start, end, t1.len() as int),
        t1.len() == t2.len(),
        forall|j: int| 0 <= j < t1.len() && is_desc(j, node) ==> t1[j] == t2[j],
    ensures
        node_seq(t1, node, start, end) == node_seq(t2, node, start, end),
    decreases end - start,
{
    lemma_desc_self(node);
    if start < end {
        assert forall|j: int| 0 <= j < t1.len() && is_desc(j, 2 * node) implies t1[j] == t2[j] by {
            lemma_desc_child(j, node);
        }
        assert forall|j: int| 0 <= j < t1.len() && is_desc(j, 2 * node + 1) implies t1[j]
            == t2[j] by {
            lemma_desc_child(j, node);
        }
        lemma_node_seq_frame(t1, t2, 2 * node, start, mid_of(start, end));
        lemma_node_seq_frame(t1, t2, 2 * node + 1, mid_of(start, end) + 1, end);
    }
}

/// Whether the subtree under `node` is well formed depends only on the
/// entries of that subtree.
pub proof fn lemma_wf_node_frame<T>(
    t1: Seq<T>,
    t2: Seq<T>,
    op: spec_fn(T, T) -> T,
    node: int,
    start: int,
    end: int,
)
    requires
        node >= 1,
        fits(node, start, end, t1.len() as int),
        t1.len() == t2.len(),
        forall|j: int| 0 <= j < t1.len() && is_desc(j, node) ==> t1[j] == t2[j],
        wf_node(t1, op, node, start, end),
    ensures
        wf_node(t2, op, node, start, end),
    decreases end - start,
{
    if start < end {
        lemma_desc_self(node);
        lemma_desc_self(2 * node);
        lemma_desc_self(2 * node + 1);
        lemma_desc_child(2 * node, node);
        lemma_desc_child(2 * node + 1, node);
        assert forall|j: int| 0 <= j < t1.len() && is_desc(j, 2 * node) implies t1[j] == t2[j] by {
            lemma_desc_child(j, node);
        }
        assert forall|j: int| 0 <= j < t1.len() && is_desc(j, 2 * node + 1) implies t1[j]
            == t2[j] by {
            lemma_desc_child(j, node);
        }
        lemma_wf_node_frame(t1, t2, op, 2 * node, start, mid_of(start, end));
        lemma_wf_node_frame(t1, t2, op, 2 * node + 1, mid_of(start, end) + 1, end);
    }
}

/// A node on the path below `node` lies in the subtree of `node`.
pub proof fn lemma_path_desc(j: int, node: int, start: int, end: int, idx: int)
    requires
        node >= 1,
        on_path(j, node, start, end, idx),
    ensures
        is_desc(j, node),
    decreases end - start,
{
    if j == node {
        lemma_desc_self(node);
    } else if idx <= mid_of(start, end) {
        lemma_path_desc(j, 2 * node, start, mid_of(start, end), idx);
        lemma_desc_child(j, node);
    } else {
        lemma_path_desc(j, 2 * node + 1, mid_of(start, end) + 1, end, idx);
        lemma_desc_child(j, node);
    }
}

/// Where `[l, r]` meets `[s, e]` and `[s, e]` splits at `mid`, the two
/// children's clipped parts are adjacent windows `[lo, cut)` and `[cut, hi)`
/// of the whole sequence `g`.
pub proof fn lemma_clip_children<T>(g: Seq<T>, s: int, mid: int, e: int, l: int, r: int)
    requires
        0 <= s <= mid < e < g.len(),
        l <= r,
        l <= e,
        s <= r,
    ensures
        ({
            let lo = if l > s { l } else { s };
            let hi = if r < e { r + 1 } else { e + 1 };
            let cut = if mid + 1 < lo { lo } else if mid + 1 > hi { hi } else { mid + 1 };
            &&& 0 <= lo <= cut <= hi <= g.len()
            &&& clip(g.subrange(s, mid + 1), s, l, r) == g.subrange(lo, cut)
            &&& clip(g.subrange(mid + 1, e + 1), mid + 1, l, r) == g.subrange(cut, hi)
        }),
{
    let lo = if l > s { l } else { s };
    let hi = if r < e { r + 1 } else { e + 1 };
    let cut = if mid + 1 < lo { lo } else if mid + 1 > hi { hi } else { mid + 1 };
    assert(clip(g.subrange(s, mid + 1), s, l, r) =~= g.subrange(lo, cut));
    assert(clip(g.subrange(mid + 1, e + 1), mid + 1, l, r) =~= g.subrange(cut, hi));
}

/// Clipping a concatenation clips each part at its own position.
pub proof fn lemma_clip_concat<T>(a: Seq<T>, b: Seq<T>, start: int, l: int, r: int)
    requires
        a.len() >= 1,
        b.len() >= 1,
    ensures
        clip(a + b, start, l, r) == clip(a, start, l, r) + clip(b, start + a.len(), l, r),
{
    let s = a + b;
    let lhs = clip(s, start, l, r);
    let rhs = clip(a, start, l, r) + clip(b, start + a.len(), l, r);
    assert(lhs =~= rhs);
}

/// Clipping a sequence to a range that covers it leaves it whole.
pub proof fn lemma_clip_all<T>(s: Seq<T>, start: int, l: int, r: int)
    requires
        s.len() >= 1,
        l <= start,
        start + s.len() - 1 <= r,
    ensures
        clip(s, start, l, r) == s,
{
    assert(clip(s, start, l, r) =~= s);
}

} // verus!
