//! The shape of the Huffman tree that `build_tree` leaves in `heap[heap_max..]`, read by
//! `gen_bitlen`: each node's parent sits at an earlier position, internal nodes have two
//! children and leaves none. Over that shape: node depths, the weights of the nodes whose
//! parent has been reached (the "frontier" of a top-down walk), leaf counts by code length,
//! the Kraft sum of a table of length counts, the canonical codes of a tree's lengths, and
//! the weighted sums behind zlib's bit-cost estimates.
use vstd::prelude::*;
use vstd::arithmetic::power2::{pow2, lemma_pow2_unfold, lemma_pow2_pos};
use crate::tables::{CtData, HEAP_SIZE, count_len, spec_canonical_code, spec_next_code};
use crate::bitwriter::low_bits;

verus! {

/// The node at heap position `g` has its parent (the index in its `dl` field) at a
/// position in `hm..g`.
pub open spec fn has_dad(heap: Seq<i32>, hm: int, tree: Seq<CtData>, g: int) -> bool {
    exists|p: int| hm <= p < g && #[trigger] heap[p] as int == tree[heap[g] as int].dl as int
}

/// The position of the parent of the node at heap position `g`.
pub open spec fn dad_pos(heap: Seq<i32>, hm: int, tree: Seq<CtData>, g: int) -> int {
    choose|p: int| hm <= p < g && #[trigger] heap[p] as int == tree[heap[g] as int].dl as int
}

/// The depth of the node at heap position `g` in the tree whose root is at position `hm`.
pub open spec fn depth_at(heap: Seq<i32>, hm: int, tree: Seq<CtData>, g: int) -> int
    decreases g - hm,
{
    if g <= hm {
        0
    } else {
        let p = dad_pos(heap, hm, tree, g);
        if hm <= p < g {
            depth_at(heap, hm, tree, p) + 1
        } else {
            0
        }
    }
}

/// No node appears twice in `heap[lo..]`.
pub open spec fn distinct_from(heap: Seq<i32>, lo: int) -> bool {
    forall|g1: int, g2: int|
        #![trigger heap[g1], heap[g2]]
        lo <= g1 < HEAP_SIZE && lo <= g2 < HEAP_SIZE && g1 != g2 ==> heap[g1] != heap[g2]
}

/// The number of positions in `lo..HEAP_SIZE` whose node has parent `y`.
pub open spec fn child_count(heap: Seq<i32>, tree: Seq<CtData>, lo: int, y: int) -> int
    decreases HEAP_SIZE - lo,
{
    if lo >= HEAP_SIZE {
        0
    } else {
        (if tree[heap[lo] as int].dl as int == y { 1int } else { 0 }) + child_count(heap, tree, lo + 1, y)
    }
}

/// `heap[hm..]` holds a full binary tree, root first, with each node's parent before it:
/// the leaves are the symbols `0..=max_code`, the internal nodes are at least `elems`.
pub open spec fn tree_shape(heap: Seq<i32>, hm: int, tree: Seq<CtData>, elems: int, max_code: int) -> bool {
    &&& heap.len() == HEAP_SIZE
    &&& 0 <= hm < HEAP_SIZE
    &&& 0 <= max_code < elems
    &&& distinct_from(heap, hm)
    &&& heap[hm] >= elems
    &&& forall|g: int|
        hm <= g < HEAP_SIZE ==> 0 <= #[trigger] heap[g] < tree.len() && (heap[g] <= max_code || heap[g] >= elems)
    &&& forall|g: int| hm < g < HEAP_SIZE ==> #[trigger] has_dad(heap, hm, tree, g)
    &&& forall|p: int|
        hm <= p < HEAP_SIZE ==> #[trigger] child_count(heap, tree, hm + 1, heap[p] as int) == if heap[p] >= elems {
            2int
        } else {
            0
        }
}

/// The sum of `wt(depth)` over the positions in `lo..HEAP_SIZE` whose parent is at a
/// position before `h`.
pub open spec fn front(heap: Seq<i32>, hm: int, tree: Seq<CtData>, lo: int, h: int, wt: spec_fn(int) -> int) -> int
    decreases HEAP_SIZE - lo,
{
    if lo >= HEAP_SIZE {
        0
    } else {
        (if dad_pos(heap, hm, tree, lo) < h { wt(depth_at(heap, hm, tree, lo)) } else { 0 }) + front(
            heap,
            hm,
            tree,
            lo + 1,
            h,
            wt,
        )
    }
}

/// The number of positions in `lo..HEAP_SIZE` whose parent is at position `h`.
pub open spec fn dad_count(heap: Seq<i32>, hm: int, tree: Seq<CtData>, lo: int, h: int) -> int
    decreases HEAP_SIZE - lo,
{
    if lo >= HEAP_SIZE {
        0
    } else {
        (if dad_pos(heap, hm, tree, lo) == h { 1int } else { 0 }) + dad_count(heap, hm, tree, lo + 1, h)
    }
}

/// The Kraft weight of a node at depth `d` for codes limited to `max` bits, doubled: a node
/// within the limit weighs `2^(max - d + 1)`, a node beyond it 1.
pub open spec fn kraft_wt(max: int) -> spec_fn(int) -> int {
    |d: int| if d <= max { pow2((max - d + 1) as nat) as int } else { 1int }
}

/// The weight of a node at or beyond the length limit: 2 at depth `max`, 1 beyond.
pub open spec fn deep_wt(max: int) -> spec_fn(int) -> int {
    |d: int| if d == max { 2int } else if d > max { 1int } else { 0int }
}

/// The number of positions in `hm+1..h` whose node is deeper than `max`.
pub open spec fn over_count(heap: Seq<i32>, hm: int, tree: Seq<CtData>, h: int, max: int) -> int
    decreases h - hm,
{
    if h <= hm + 1 {
        0
    } else {
        over_count(heap, hm, tree, h - 1, max) + if depth_at(heap, hm, tree, h - 1) > max { 1int } else { 0 }
    }
}

/// Some internal node in positions `hm+1..h` has depth at least `max - 1`.
pub open spec fn deep_inner(heap: Seq<i32>, hm: int, tree: Seq<CtData>, h: int, max: int, elems: int) -> bool {
    exists|g: int| hm < g < h && heap[g] >= elems && #[trigger] depth_at(heap, hm, tree, g) >= max - 1
}

/// The number of positions in `lo..hi` holding a symbol below `t` whose length in `tree`
/// is `b`.
pub open spec fn len_count(heap: Seq<i32>, tree: Seq<CtData>, lo: int, hi: int, t: int, b: int) -> int
    decreases hi - lo,
{
    if lo >= hi {
        0
    } else {
        (if 0 <= heap[lo] < t && tree[heap[lo] as int].dl as int == b { 1int } else { 0 }) + len_count(
            heap,
            tree,
            lo + 1,
            hi,
            t,
            b,
        )
    }
}

/// The number of positions in `lo..hi` holding a symbol below `t`.
pub open spec fn leaf_count(heap: Seq<i32>, lo: int, hi: int, t: int) -> int
    decreases hi - lo,
{
    if lo >= hi {
        0
    } else {
        (if 0 <= heap[lo] < t { 1int } else { 0 }) + leaf_count(heap, lo + 1, hi, t)
    }
}

/// `c[0] + ... + c[k-1]`.
pub open spec fn count_sum(c: Seq<u16>, k: int) -> int
    decreases k,
{
    if k <= 0 {
        0
    } else {
        count_sum(c, k - 1) + c[k - 1] as int
    }
}

/// The Kraft sum `c[1] 2^(m-1) + ... + c[k-1] 2^(m-k+1)` of length counts `c`, in units of
/// `2^-m`.
pub open spec fn kraft_sum(c: Seq<u16>, m: int, k: int) -> int
    decreases k,
{
    if k <= 1 {
        0
    } else {
        kraft_sum(c, m, k - 1) + c[k - 1] as int * pow2((m - (k - 1)) as nat) as int
    }
}

// ---------------------------------------------------------------------------------------
// Parents and depths.

/// The parent of a non-root node: where it is, and the depth it gives.
pub proof fn lemma_dad(heap: Seq<i32>, hm: int, tree: Seq<CtData>, g: int)
    requires
        hm < g,
        has_dad(heap, hm, tree, g),
    ensures
        hm <= dad_pos(heap, hm, tree, g) < g,
        heap[dad_pos(heap, hm, tree, g)] as int == tree[heap[g] as int].dl as int,
        depth_at(heap, hm, tree, g) == depth_at(heap, hm, tree, dad_pos(heap, hm, tree, g)) + 1,
{
}

/// The parent's position is the only one holding the parent.
pub proof fn lemma_dad_unique(heap: Seq<i32>, hm: int, tree: Seq<CtData>, g: int, p: int)
    requires
        hm < g < HEAP_SIZE,
        hm <= p < HEAP_SIZE,
        distinct_from(heap, hm),
        has_dad(heap, hm, tree, g),
        heap[p] as int == tree[heap[g] as int].dl as int,
    ensures
        dad_pos(heap, hm, tree, g) == p,
{
    lemma_dad(heap, hm, tree, g);
    let q = dad_pos(heap, hm, tree, g);
    if q != p {
        assert(heap[q] != heap[p]);
    }
}

/// A position with parent `y` in `lo..` makes `y`'s child count positive.
pub proof fn lemma_child_count_pos(heap: Seq<i32>, tree: Seq<CtData>, lo: int, y: int, g: int)
    requires
        lo <= g < HEAP_SIZE,
        tree[heap[g] as int].dl as int == y,
    ensures
        child_count(heap, tree, lo, y) >= 1,
    decreases g - lo,
{
    if lo < g {
        lemma_child_count_pos(heap, tree, lo + 1, y, g);
    }
    lemma_child_count_nonneg(heap, tree, lo + 1, y);
}

pub proof fn lemma_child_count_nonneg(heap: Seq<i32>, tree: Seq<CtData>, lo: int, y: int)
    ensures
        child_count(heap, tree, lo, y) >= 0,
    decreases HEAP_SIZE - lo,
{
    if lo < HEAP_SIZE {
        lemma_child_count_nonneg(heap, tree, lo + 1, y);
    }
}

/// A node's parent is an internal node.
pub proof fn lemma_dad_inner(heap: Seq<i32>, hm: int, tree: Seq<CtData>, elems: int, max_code: int, g: int)
    requires
        tree_shape(heap, hm, tree, elems, max_code),
        hm < g < HEAP_SIZE,
    ensures
        heap[dad_pos(heap, hm, tree, g)] >= elems,
{
    assert(has_dad(heap, hm, tree, g));
    lemma_dad(heap, hm, tree, g);
    let p = dad_pos(heap, hm, tree, g);
    lemma_child_count_pos(heap, tree, hm + 1, heap[p] as int, g);
    assert(child_count(heap, tree, hm + 1, heap[p] as int) == if heap[p] >= elems { 2int } else { 0 });
}

/// Child counts read only the positions counted and the parents of their nodes.
pub proof fn lemma_child_count_frame(h1: Seq<i32>, t1: Seq<CtData>, h2: Seq<i32>, t2: Seq<CtData>, lo: int, y: int)
    requires
        forall|g: int| lo <= g < HEAP_SIZE ==> #[trigger] h1[g] == h2[g] && t1[h1[g] as int].dl == t2[h1[g] as int].dl,
    ensures
        child_count(h1, t1, lo, y) == child_count(h2, t2, lo, y),
    decreases HEAP_SIZE - lo,
{
    if lo < HEAP_SIZE {
        assert(h1[lo] == h2[lo]);
        lemma_child_count_frame(h1, t1, h2, t2, lo + 1, y);
    }
}

// ---------------------------------------------------------------------------------------
// The frontier.

/// Before the root's position nothing is reached.
pub proof fn lemma_front_none(heap: Seq<i32>, hm: int, tree: Seq<CtData>, lo: int, wt: spec_fn(int) -> int)
    requires
        hm < lo,
        forall|g: int| lo <= g < HEAP_SIZE ==> #[trigger] has_dad(heap, hm, tree, g),
    ensures
        front(heap, hm, tree, lo, hm, wt) == 0,
    decreases HEAP_SIZE - lo,
{
    if lo < HEAP_SIZE {
        assert(has_dad(heap, hm, tree, lo));
        lemma_dad(heap, hm, tree, lo);
        lemma_front_none(heap, hm, tree, lo + 1, wt);
    }
}

/// Reaching position `h` adds its children to the frontier.
pub proof fn lemma_front_step(heap: Seq<i32>, hm: int, tree: Seq<CtData>, lo: int, h: int, wt: spec_fn(int) -> int)
    requires
        hm <= h < lo,
        forall|g: int| lo <= g < HEAP_SIZE ==> #[trigger] has_dad(heap, hm, tree, g),
    ensures
        front(heap, hm, tree, lo, h + 1, wt) == front(heap, hm, tree, lo, h, wt) + dad_count(heap, hm, tree, lo, h)
            * wt(depth_at(heap, hm, tree, h) + 1),
    decreases HEAP_SIZE - lo,
{
    if lo < HEAP_SIZE {
        assert(has_dad(heap, hm, tree, lo));
        lemma_dad(heap, hm, tree, lo);
        lemma_front_step(heap, hm, tree, lo + 1, h, wt);
        let c = dad_count(heap, hm, tree, lo + 1, h);
        let x = wt(depth_at(heap, hm, tree, h) + 1);
        assert((if dad_pos(heap, hm, tree, lo) == h { 1int } else { 0 }) * x + c * x == ((if dad_pos(
            heap,
            hm,
            tree,
            lo,
        ) == h { 1int } else { 0 }) + c) * x) by (nonlinear_arith);
    }
}

/// Children before position `h + 1` cannot have their parent at `h`; after it, having
/// parent `heap[h]` is having the parent's position `h`.
proof fn lemma_children_after(heap: Seq<i32>, hm: int, tree: Seq<CtData>, elems: int, max_code: int, lo: int, h: int)
    requires
        tree_shape(heap, hm, tree, elems, max_code),
        hm <= h < HEAP_SIZE,
        hm < lo <= h + 1,
    ensures
        child_count(heap, tree, lo, heap[h] as int) == child_count(heap, tree, h + 1, heap[h] as int),
    decreases h + 1 - lo,
{
    if lo < h + 1 {
        assert(has_dad(heap, hm, tree, lo));
        if tree[heap[lo] as int].dl as int == heap[h] as int {
            lemma_dad_unique(heap, hm, tree, lo, h);
            lemma_dad(heap, hm, tree, lo);
        }
        lemma_children_after(heap, hm, tree, elems, max_code, lo + 1, h);
    }
}

proof fn lemma_children_dad_count(heap: Seq<i32>, hm: int, tree: Seq<CtData>, elems: int, max_code: int, lo: int, h: int)
    requires
        tree_shape(heap, hm, tree, elems, max_code),
        hm <= h < lo,
    ensures
        child_count(heap, tree, lo, heap[h] as int) == dad_count(heap, hm, tree, lo, h),
    decreases HEAP_SIZE - lo,
{
    if lo < HEAP_SIZE {
        assert(has_dad(heap, hm, tree, lo));
        lemma_dad(heap, hm, tree, lo);
        if tree[heap[lo] as int].dl as int == heap[h] as int {
            lemma_dad_unique(heap, hm, tree, lo, h);
        }
        if dad_pos(heap, hm, tree, lo) == h {
        }
        lemma_children_dad_count(heap, hm, tree, elems, max_code, lo + 1, h);
    }
}

/// The positions after `h` with parent at `h`: two for an internal node, none for a leaf.
pub proof fn lemma_dad_count(heap: Seq<i32>, hm: int, tree: Seq<CtData>, elems: int, max_code: int, h: int)
    requires
        tree_shape(heap, hm, tree, elems, max_code),
        hm <= h < HEAP_SIZE,
    ensures
        dad_count(heap, hm, tree, h + 1, h) == if heap[h] >= elems { 2int } else { 0 },
{
    lemma_children_after(heap, hm, tree, elems, max_code, hm + 1, h);
    lemma_children_dad_count(heap, hm, tree, elems, max_code, h + 1, h);
    assert(child_count(heap, tree, hm + 1, heap[h] as int) == if heap[h] >= elems { 2int } else { 0 });
}

/// One step of the top-down walk: the frontier loses the node at `h` and gains its
/// children.
pub proof fn lemma_front_advance(
    heap: Seq<i32>,
    hm: int,
    tree: Seq<CtData>,
    elems: int,
    max_code: int,
    h: int,
    wt: spec_fn(int) -> int,
)
    requires
        tree_shape(heap, hm, tree, elems, max_code),
        hm < h < HEAP_SIZE,
    ensures
        front(heap, hm, tree, h + 1, h + 1, wt) == front(heap, hm, tree, h, h, wt) - wt(depth_at(heap, hm, tree, h))
            + (if heap[h] >= elems { 2 * wt(depth_at(heap, hm, tree, h) + 1) } else { 0 }),
{
    assert(has_dad(heap, hm, tree, h));
    lemma_dad(heap, hm, tree, h);
    lemma_front_step(heap, hm, tree, h + 1, h, wt);
    lemma_dad_count(heap, hm, tree, elems, max_code, h);
}

/// The frontier once the root is reached: its two children, at depth 1.
pub proof fn lemma_front_start(heap: Seq<i32>, hm: int, tree: Seq<CtData>, elems: int, max_code: int, wt: spec_fn(int) -> int)
    requires
        tree_shape(heap, hm, tree, elems, max_code),
    ensures
        front(heap, hm, tree, hm + 1, hm + 1, wt) == 2 * wt(1),
{
    lemma_front_step(heap, hm, tree, hm + 1, hm, wt);
    lemma_front_none(heap, hm, tree, hm + 1, wt);
    lemma_dad_count(heap, hm, tree, elems, max_code, hm);
}

// ---------------------------------------------------------------------------------------
// Counting positions.

/// Counting one position more at the top.
pub proof fn lemma_len_count_hi(heap: Seq<i32>, tree: Seq<CtData>, lo: int, hi: int, t: int, b: int)
    requires
        lo <= hi,
    ensures
        len_count(heap, tree, lo, hi + 1, t, b) == len_count(heap, tree, lo, hi, t, b) + if 0 <= heap[hi] < t
            && tree[heap[hi] as int].dl as int == b { 1int } else { 0 },
    decreases hi - lo,
{
    if lo < hi {
        lemma_len_count_hi(heap, tree, lo + 1, hi, t, b);
    } else {
        assert(len_count(heap, tree, hi + 1, hi + 1, t, b) == 0);
    }
}

pub proof fn lemma_leaf_count_hi(heap: Seq<i32>, lo: int, hi: int, t: int)
    requires
        lo <= hi,
    ensures
        leaf_count(heap, lo, hi + 1, t) == leaf_count(heap, lo, hi, t) + if 0 <= heap[hi] < t { 1int } else { 0 },
    decreases hi - lo,
{
    if lo < hi {
        lemma_leaf_count_hi(heap, lo + 1, hi, t);
    } else {
        assert(leaf_count(heap, hi + 1, hi + 1, t) == 0);
    }
}

/// Counts over `lo..hi` split at `mid`.
pub proof fn lemma_len_count_split(heap: Seq<i32>, tree: Seq<CtData>, lo: int, mid: int, hi: int, t: int, b: int)
    requires
        lo <= mid <= hi,
    ensures
        len_count(heap, tree, lo, hi, t, b) == len_count(heap, tree, lo, mid, t, b) + len_count(heap, tree, mid, hi, t, b),
    decreases mid - lo,
{
    if lo < mid {
        lemma_len_count_split(heap, tree, lo + 1, mid, hi, t, b);
    }
}

/// Where no symbol sits, no symbol of any length is counted.
pub proof fn lemma_len_count_no_leaf(heap: Seq<i32>, tree: Seq<CtData>, lo: int, hi: int, t: int, b: int)
    requires
        leaf_count(heap, lo, hi, t) == 0,
    ensures
        len_count(heap, tree, lo, hi, t, b) == 0,
    decreases hi - lo,
{
    if lo < hi {
        lemma_leaf_count_nonneg(heap, lo + 1, hi, t);
        lemma_len_count_no_leaf(heap, tree, lo + 1, hi, t, b);
    }
}

pub proof fn lemma_leaf_count_nonneg(heap: Seq<i32>, lo: int, hi: int, t: int)
    ensures
        0 <= leaf_count(heap, lo, hi, t) <= if lo <= hi { hi - lo } else { 0 },
    decreases hi - lo,
{
    if lo < hi {
        lemma_leaf_count_nonneg(heap, lo + 1, hi, t);
    }
}

/// Counts read only the lengths of the symbols at the positions counted.
pub proof fn lemma_len_count_frame(heap: Seq<i32>, t1: Seq<CtData>, t2: Seq<CtData>, lo: int, hi: int, t: int, b: int)
    requires
        forall|g: int| lo <= g < hi && 0 <= heap[g] < t ==> #[trigger] t1[heap[g] as int].dl == t2[heap[g] as int].dl,
    ensures
        len_count(heap, t1, lo, hi, t, b) == len_count(heap, t2, lo, hi, t, b),
    decreases hi - lo,
{
    if lo < hi {
        lemma_len_count_frame(heap, t1, t2, lo + 1, hi, t, b);
    }
}

/// The number of depths beyond `max` counted so far is at most the number of positions.
pub proof fn lemma_over_count_bound(heap: Seq<i32>, hm: int, tree: Seq<CtData>, h: int, max: int)
    ensures
        0 <= over_count(heap, hm, tree, h, max) <= if h > hm + 1 { h - hm - 1 } else { 0 },
    decreases h - hm,
{
    if h > hm + 1 {
        lemma_over_count_bound(heap, hm, tree, h - 1, max);
    }
}

// ---------------------------------------------------------------------------------------
// Length-count tables.

/// Changing one count changes the total by the difference.
pub proof fn lemma_count_sum_update(c: Seq<u16>, k: int, b0: int, v: u16)
    requires
        0 <= b0 < c.len(),
        k <= c.len(),
    ensures
        count_sum(c.update(b0, v), k) == count_sum(c, k) + if b0 < k { v - c[b0] } else { 0 },
    decreases k,
{
    if k > 0 {
        lemma_count_sum_update(c, k - 1, b0, v);
    }
}

/// Changing one count changes the Kraft sum by the difference times its weight.
pub proof fn lemma_kraft_sum_update(c: Seq<u16>, m: int, k: int, b0: int, v: u16)
    requires
        1 <= b0 < c.len(),
        k <= c.len(),
    ensures
        kraft_sum(c.update(b0, v), m, k) == kraft_sum(c, m, k) + if b0 < k {
            (v - c[b0]) * pow2((m - b0) as nat) as int
        } else {
            0
        },
    decreases k,
{
    if k > 1 {
        lemma_kraft_sum_update(c, m, k - 1, b0, v);
        let p = pow2((m - b0) as nat) as int;
        if k - 1 == b0 {
            assert(v as int * p == c[b0] as int * p + (v - c[b0]) * p) by (nonlinear_arith);
        }
    }
}

/// A single count is at most the total.
pub proof fn lemma_count_sum_ge(c: Seq<u16>, k: int, b: int)
    requires
        0 <= b < k <= c.len(),
    ensures
        count_sum(c, k) >= c[b],
    decreases k,
{
    lemma_count_sum_nonneg(c, k - 1);
    if b < k - 1 {
        lemma_count_sum_ge(c, k - 1, b);
    }
}

pub proof fn lemma_count_sum_nonneg(c: Seq<u16>, k: int)
    requires
        k <= c.len(),
    ensures
        count_sum(c, k) >= 0,
    decreases k,
{
    if k > 0 {
        lemma_count_sum_nonneg(c, k - 1);
    }
}

/// With no codes of any length below `k`, the Kraft sum up to `k` is zero.
pub proof fn lemma_kraft_sum_zero(c: Seq<u16>, m: int, k: int)
    requires
        k <= c.len(),
        forall|b: int| 1 <= b < k ==> #[trigger] c[b] == 0,
    ensures
        kraft_sum(c, m, k) == 0,
    decreases k,
{
    if k > 1 {
        lemma_kraft_sum_zero(c, m, k - 1);
    }
}

/// The Kraft sum in units of `2^-15` is `2^(15 - max)` times the one in units of `2^-max`.
pub proof fn lemma_kraft_sum_scale(c: Seq<u16>, max: int, k: int)
    requires
        1 <= max <= 15,
        k <= max + 1,
        k <= c.len(),
    ensures
        kraft_sum(c, 15, k) == pow2((15 - max) as nat) as int * kraft_sum(c, max, k),
    decreases k,
{
    if k > 1 {
        lemma_kraft_sum_scale(c, max, k - 1);
        let b = k - 1;
        vstd::arithmetic::power2::lemma_pow2_adds((15 - max) as nat, (max - b) as nat);
        let s = pow2((15 - max) as nat) as int;
        let q = pow2((max - b) as nat) as int;
        let x = c[b] as int;
        let r = kraft_sum(c, max, k - 1);
        assert(s * r + x * (s * q) == s * (r + x * q)) by (nonlinear_arith);
    }
}

/// Counts that are zero from `k1` on add nothing beyond `k1`.
pub proof fn lemma_count_sum_tail(c: Seq<u16>, k1: int, k2: int)
    requires
        0 <= k1 <= k2 <= c.len(),
        forall|b: int| k1 <= b < k2 ==> #[trigger] c[b] == 0,
    ensures
        count_sum(c, k2) == count_sum(c, k1),
    decreases k2 - k1,
{
    if k1 < k2 {
        lemma_count_sum_tail(c, k1, k2 - 1);
    }
}

// ---------------------------------------------------------------------------------------
// The top-down walk of `gen_bitlen`.

/// A depth capped at `max`.
pub open spec fn capped(d: int, max: int) -> int {
    if d > max { max } else { d }
}

/// Some position in `lo..HEAP_SIZE` holds `x`.
pub open spec fn at_pos(heap: Seq<i32>, lo: int, x: int) -> bool {
    exists|g: int| lo <= g < HEAP_SIZE && #[trigger] heap[g] as int == x
}

/// What the walk of `gen_bitlen` keeps, once the positions before `h` are done, with
/// length counts `c` and `ov` nodes found deeper than `max`:
/// - doubled, the Kraft sum of the counted leaves, less `ov`, plus the frontier's weight is
///   `2^(max+1)`;
/// - twice the leaves counted at `max`, less `ov`, plus the frontier's deep weight is not
///   negative, and at least 4 once an internal node of depth `max - 1` or more is done;
/// - a node deeper than `max` comes after such an internal node.
pub open spec fn walk_inv(
    heap: Seq<i32>,
    hm: int,
    tree: Seq<CtData>,
    elems: int,
    max: int,
    h: int,
    c: Seq<u16>,
    ov: int,
) -> bool {
    let phi = 2 * c[max] - ov + front(heap, hm, tree, h, h, deep_wt(max));
    &&& 2 * kraft_sum(c, max, max + 1) - ov + front(heap, hm, tree, h, h, kraft_wt(max)) == pow2((max + 1) as nat)
    &&& phi >= 0
    &&& deep_inner(heap, hm, tree, h, max, elems) ==> phi >= 4
    &&& ov > 0 ==> deep_inner(heap, hm, tree, h, max, elems)
}

pub proof fn lemma_depth_nonneg(heap: Seq<i32>, hm: int, tree: Seq<CtData>, g: int)
    ensures
        depth_at(heap, hm, tree, g) >= 0,
    decreases g - hm,
{
    if g > hm {
        let p = dad_pos(heap, hm, tree, g);
        if hm <= p < g {
            lemma_depth_nonneg(heap, hm, tree, p);
        }
    }
}

/// The walk starts with the root done and no leaf counted.
pub proof fn lemma_walk_start(heap: Seq<i32>, hm: int, tree: Seq<CtData>, elems: int, max_code: int, max: int, c: Seq<u16>)
    requires
        tree_shape(heap, hm, tree, elems, max_code),
        2 <= max <= 15,
        c.len() == 16,
        forall|b: int| 0 <= b < 16 ==> #[trigger] c[b] == 0,
    ensures
        walk_inv(heap, hm, tree, elems, max, hm + 1, c, 0),
{
    lemma_front_start(heap, hm, tree, elems, max_code, kraft_wt(max));
    lemma_front_start(heap, hm, tree, elems, max_code, deep_wt(max));
    lemma_kraft_sum_zero(c, max, max + 1);
    lemma_pow2_unfold((max + 1) as nat);
    assert(!deep_inner(heap, hm, tree, hm + 1, max, elems));
}

/// One node done: a leaf is counted at its capped depth, a node deeper than `max` is
/// counted in `ov`.
pub proof fn lemma_walk_step(
    heap: Seq<i32>,
    hm: int,
    tree: Seq<CtData>,
    elems: int,
    max_code: int,
    max: int,
    h: int,
    c: Seq<u16>,
    ov: int,
    c2: Seq<u16>,
    ov2: int,
)
    requires
        tree_shape(heap, hm, tree, elems, max_code),
        2 <= max <= 15,
        hm < h < HEAP_SIZE,
        c.len() == 16,
        walk_inv(heap, hm, tree, elems, max, h, c, ov),
        ov2 == ov + if depth_at(heap, hm, tree, h) > max { 1int } else { 0 },
        heap[h] <= max_code ==> c[capped(depth_at(heap, hm, tree, h), max)] < 65535 && c2 == c.update(
            capped(depth_at(heap, hm, tree, h), max),
            (c[capped(depth_at(heap, hm, tree, h), max)] + 1) as u16,
        ),
        heap[h] > max_code ==> c2 == c,
    ensures
        walk_inv(heap, hm, tree, elems, max, h + 1, c2, ov2),
{
    let d = depth_at(heap, hm, tree, h);
    let b = capped(d, max);
    assert(has_dad(heap, hm, tree, h));
    lemma_dad(heap, hm, tree, h);
    let p = dad_pos(heap, hm, tree, h);
    lemma_depth_nonneg(heap, hm, tree, p);
    assert(d >= 1);
    let leaf = heap[h] <= max_code;
    assert(leaf == !(heap[h] >= elems));
    lemma_front_advance(heap, hm, tree, elems, max_code, h, kraft_wt(max));
    lemma_front_advance(heap, hm, tree, elems, max_code, h, deep_wt(max));
    let f1 = front(heap, hm, tree, h, h, kraft_wt(max));
    let f2 = front(heap, hm, tree, h + 1, h + 1, kraft_wt(max));
    let g1 = front(heap, hm, tree, h, h, deep_wt(max));
    let g2 = front(heap, hm, tree, h + 1, h + 1, deep_wt(max));
    let k1 = kraft_sum(c, max, max + 1);
    let k2 = kraft_sum(c2, max, max + 1);
    if leaf {
        lemma_kraft_sum_update(c, max, max + 1, b, (c[b] + 1) as u16);
        assert(((c[b] + 1) as u16) as int == c[b] + 1);
        let pw = pow2((max - b) as nat) as int;
        let one: int = ((c[b] + 1) as u16) - c[b];
        assert(one == 1);
        assert(one * pw == pw) by (nonlinear_arith)
            requires
                one == 1,
        ;
        assert(k2 == k1 + pow2((max - b) as nat));
    } else {
        assert(k2 == k1);
    }
    assert(c2[max] == c[max] + if leaf && b == max { 1int } else { 0 });
    // The Kraft part.
    if d <= max {
        lemma_pow2_unfold((max - d + 1) as nat);
        if d < max {
            assert(kraft_wt(max)(d + 1) == pow2((max - d) as nat));
        } else {
            assert(kraft_wt(max)(d + 1) == 1);
            assert(pow2(0) == 1) by { vstd::arithmetic::power2::lemma2_to64(); }
        }
        assert(2 * k2 - ov2 + f2 == pow2((max + 1) as nat));
    } else {
        assert(pow2(0) == 1) by { vstd::arithmetic::power2::lemma2_to64(); }
        assert(2 * k2 - ov2 + f2 == pow2((max + 1) as nat));
    }
    // The deep part.
    let phi1 = 2 * c[max] - ov + g1;
    let phi2 = 2 * c2[max] - ov2 + g2;
    assert(phi2 >= phi1);
    assert(!leaf && d == max - 1 ==> phi2 == phi1 + 4);
    if deep_inner(heap, hm, tree, h + 1, max, elems) && !deep_inner(heap, hm, tree, h, max, elems) {
        let g = choose|g: int| hm < g < h + 1 && heap[g] >= elems && #[trigger] depth_at(heap, hm, tree, g) >= max - 1;
        if g < h {
            assert(deep_inner(heap, hm, tree, h, max, elems));
        }
        assert(g == h);
        if d >= max {
            lemma_dad_inner(heap, hm, tree, elems, max_code, h);
            assert(p > hm);
            assert(deep_inner(heap, hm, tree, h, max, elems));
        }
    }
    if deep_inner(heap, hm, tree, h, max, elems) {
        let g = choose|g: int| hm < g < h && heap[g] >= elems && #[trigger] depth_at(heap, hm, tree, g) >= max - 1;
        assert(deep_inner(heap, hm, tree, h + 1, max, elems));
    }
    if ov2 > 0 {
        if d > max {
            lemma_dad_inner(heap, hm, tree, elems, max_code, h);
            assert(p > hm);
            assert(depth_at(heap, hm, tree, p) >= max - 1);
            assert(deep_inner(heap, hm, tree, h + 1, max, elems));
        } else {
            assert(deep_inner(heap, hm, tree, h, max, elems));
            let g = choose|g: int| hm < g < h && heap[g] >= elems && #[trigger] depth_at(heap, hm, tree, g) >= max - 1;
            assert(deep_inner(heap, hm, tree, h + 1, max, elems));
        }
    }
}

/// At the end of the walk the frontier is empty: `2 K = 2^(max+1) + ov`, and when some
/// node went deeper than `max`, at least `ov/2 + 2` leaves are counted at `max`.
pub proof fn lemma_walk_end(heap: Seq<i32>, hm: int, tree: Seq<CtData>, elems: int, max: int, c: Seq<u16>, ov: int)
    requires
        walk_inv(heap, hm, tree, elems, max, HEAP_SIZE as int, c, ov),
    ensures
        2 * kraft_sum(c, max, max + 1) == pow2((max + 1) as nat) + ov,
        ov > 0 ==> 2 * c[max] - ov >= 4,
{
}

// ---------------------------------------------------------------------------------------
// The lengths `gen_bitlen` settles on.

/// The number of positions in `lo..hi` holding a symbol below `t` whose depth, capped at
/// `max`, is `b`.
pub open spec fn depth_count(heap: Seq<i32>, hm: int, tree: Seq<CtData>, lo: int, hi: int, t: int, max: int, b: int) -> int
    decreases hi - lo,
{
    if lo >= hi {
        0
    } else {
        (if 0 <= heap[lo] < t && capped(depth_at(heap, hm, tree, lo), max) == b { 1int } else { 0 })
            + depth_count(heap, hm, tree, lo + 1, hi, t, max, b)
    }
}

/// The number of symbols below `t` in the tree at each depth capped at `max`, for the
/// lengths `0..16`.
pub open spec fn depth_counts(heap: Seq<i32>, hm: int, tree: Seq<CtData>, t: int, max: int) -> Seq<int> {
    Seq::new(16, |b: int| depth_count(heap, hm, tree, hm + 1, HEAP_SIZE as int, t, max, b))
}

/// A table of `u16` counts, as integers.
pub open spec fn count_ints(c: Seq<u16>) -> Seq<int> {
    Seq::new(c.len(), |b: int| c[b] as int)
}

/// The largest length in `1..=b` with a nonzero count, or 0.
pub open spec fn top_nonzero(c: Seq<int>, b: int) -> int
    decreases b,
{
    if b <= 0 {
        0
    } else if c[b] != 0 {
        b
    } else {
        top_nonzero(c, b - 1)
    }
}

/// zlib's repair of the length counts `c` when `ov` nodes went deeper than `max`: while
/// some are left, a leaf at the largest length below `max` that has one moves one level
/// down, an overflowing leaf becomes its brother, and one leaf leaves length `max`; each
/// round settles two of them.
pub open spec fn repair(c: Seq<int>, max: int, ov: int) -> Seq<int>
    decreases ov + 1,
{
    if ov <= 0 {
        c
    } else {
        let b = top_nonzero(c, max - 1);
        let c1 = c.update(b, c[b] - 1);
        let c2 = c1.update(b + 1, c1[b + 1] + 2);
        repair(c2.update(max, c2[max] - 1), max, ov - 2)
    }
}

/// The length the recount of `gen_bitlen` gives the leaf that has `r` leaves after it in
/// the heap, with counts `c` from length `b` down: the last `c[b]` leaves get `b`, the
/// `c[b-1]` before them `b - 1`, and so on.
pub open spec fn len_by_rank(c: Seq<u16>, b: int, r: int) -> int
    decreases b,
{
    if b <= 0 {
        0
    } else if r < c[b] {
        b
    } else {
        len_by_rank(c, b - 1, r - c[b])
    }
}

/// Where every symbol's length is its capped depth, counting by length is counting by
/// capped depth.
pub proof fn lemma_len_count_depth(
    heap: Seq<i32>,
    hm: int,
    t0: Seq<CtData>,
    t1: Seq<CtData>,
    lo: int,
    hi: int,
    t: int,
    max: int,
    b: int,
)
    requires
        forall|g: int|
            lo <= g < hi && 0 <= heap[g] < t ==> #[trigger] t1[heap[g] as int].dl as int == capped(
                depth_at(heap, hm, t0, g),
                max,
            ),
    ensures
        len_count(heap, t1, lo, hi, t, b) == depth_count(heap, hm, t0, lo, hi, t, max, b),
    decreases hi - lo,
{
    if lo < hi {
        lemma_len_count_depth(heap, hm, t0, t1, lo + 1, hi, t, max, b);
    }
}

/// When no node is deeper than `max`, every depth is within it.
pub proof fn lemma_over_count_zero(heap: Seq<i32>, hm: int, tree: Seq<CtData>, h: int, max: int, g: int)
    requires
        over_count(heap, hm, tree, h, max) == 0,
        hm < g < h,
    ensures
        depth_at(heap, hm, tree, g) <= max,
    decreases h - hm,
{
    lemma_over_count_bound(heap, hm, tree, h - 1, max);
    if g < h - 1 {
        lemma_over_count_zero(heap, hm, tree, h - 1, max, g);
    }
}

/// Leaf counts over `lo..hi` split at `mid`.
pub proof fn lemma_leaf_count_split(heap: Seq<i32>, lo: int, mid: int, hi: int, t: int)
    requires
        lo <= mid <= hi,
    ensures
        leaf_count(heap, lo, hi, t) == leaf_count(heap, lo, mid, t) + leaf_count(heap, mid, hi, t),
    decreases mid - lo,
{
    if lo < mid {
        lemma_leaf_count_split(heap, lo + 1, mid, hi, t);
    }
}

/// A symbol at a position counts.
pub proof fn lemma_leaf_count_pos(heap: Seq<i32>, lo: int, hi: int, t: int, g: int)
    requires
        lo <= g < hi,
        0 <= heap[g] < t,
    ensures
        leaf_count(heap, lo, hi, t) >= 1,
    decreases hi - lo,
{
    lemma_leaf_count_nonneg(heap, lo + 1, hi, t);
    if lo < g {
        lemma_leaf_count_pos(heap, lo + 1, hi, t, g);
    }
}

/// Counts summed further are no smaller.
pub proof fn lemma_count_sum_mono(c: Seq<u16>, k1: int, k2: int)
    requires
        0 <= k1 <= k2 <= c.len(),
    ensures
        count_sum(c, k1) <= count_sum(c, k2),
    decreases k2 - k1,
{
    if k1 < k2 {
        lemma_count_sum_mono(c, k1, k2 - 1);
    }
}

/// The leaves after all those of lengths above `bits`, and `k` more, get length `bits`.
pub proof fn lemma_len_by_rank(c: Seq<u16>, b: int, bits: int, k: int)
    requires
        1 <= bits <= b < c.len(),
        0 <= k < c[bits],
    ensures
        len_by_rank(c, b, count_sum(c, b + 1) - count_sum(c, bits + 1) + k) == bits,
    decreases b - bits,
{
    if b > bits {
        lemma_count_sum_mono(c, bits + 1, b);
        lemma_len_by_rank(c, b - 1, bits, k);
    }
}

/// Depths read only the parents of the nodes in the tree.
pub proof fn lemma_depth_frame(heap: Seq<i32>, hm: int, ta: Seq<CtData>, tb: Seq<CtData>, g: int)
    requires
        distinct_from(heap, hm),
        forall|p: int| hm < p < HEAP_SIZE ==> #[trigger] has_dad(heap, hm, ta, p),
        forall|p: int| hm < p < HEAP_SIZE ==> #[trigger] ta[heap[p] as int].dl == tb[heap[p] as int].dl,
        g < HEAP_SIZE,
    ensures
        depth_at(heap, hm, ta, g) == depth_at(heap, hm, tb, g),
    decreases g - hm,
{
    if g > hm {
        assert(has_dad(heap, hm, ta, g));
        lemma_dad(heap, hm, ta, g);
        let p = dad_pos(heap, hm, ta, g);
        assert(ta[heap[g] as int].dl == tb[heap[g] as int].dl);
        assert(has_dad(heap, hm, tb, g));
        lemma_dad_unique(heap, hm, tb, g, p);
        lemma_depth_frame(heap, hm, ta, tb, p);
    }
}

/// Counts over depths read only the depths.
pub proof fn lemma_over_count_frame(heap: Seq<i32>, hm: int, ta: Seq<CtData>, tb: Seq<CtData>, h: int, max: int)
    requires
        h <= HEAP_SIZE,
        forall|g: int| hm < g < HEAP_SIZE ==> #[trigger] depth_at(heap, hm, ta, g) == depth_at(heap, hm, tb, g),
    ensures
        over_count(heap, hm, ta, h, max) == over_count(heap, hm, tb, h, max),
    decreases h - hm,
{
    if h > hm + 1 {
        assert(depth_at(heap, hm, ta, h - 1) == depth_at(heap, hm, tb, h - 1));
        lemma_over_count_frame(heap, hm, ta, tb, h - 1, max);
    }
}

pub proof fn lemma_depth_count_frame(
    heap: Seq<i32>,
    hm: int,
    ta: Seq<CtData>,
    tb: Seq<CtData>,
    lo: int,
    hi: int,
    t: int,
    max: int,
    b: int,
)
    requires
        hm < lo,
        hi <= HEAP_SIZE,
        forall|g: int| hm < g < HEAP_SIZE ==> #[trigger] depth_at(heap, hm, ta, g) == depth_at(heap, hm, tb, g),
    ensures
        depth_count(heap, hm, ta, lo, hi, t, max, b) == depth_count(heap, hm, tb, lo, hi, t, max, b),
    decreases hi - lo,
{
    if lo < hi {
        assert(depth_at(heap, hm, ta, lo) == depth_at(heap, hm, tb, lo));
        lemma_depth_count_frame(heap, hm, ta, tb, lo + 1, hi, t, max, b);
    }
}

// ---------------------------------------------------------------------------------------
// Codes of a tree, read from its lengths.

/// The number of codes of each length `1..=15` among the first `n` symbols of `t`, with 0
/// for length 0 (RFC 1951, 3.2.2, step 1).
pub open spec fn len_counts(t: Seq<CtData>, n: int) -> Seq<u16> {
    Seq::new(16, |b: int| if b == 0 { 0u16 } else { count_len(t, n, b) as u16 })
}

/// Every symbol below `n` with a nonzero length has, as its code, the canonical code of
/// the lengths of the symbols below `n` (RFC 1951, 3.2.2), stored bit-reversed.
pub open spec fn canonical_codes(t: Seq<CtData>, n: int) -> bool {
    forall|i: int|
        0 <= i < n && t[i].dl != 0 ==> #[trigger] low_bits(t[i].fc as u32, t[i].dl as nat) == low_bits(
            spec_canonical_code(t, len_counts(t, n), i),
            t[i].dl as nat,
        ).reverse()
}

/// The lengths of the symbols below `n` are at most 15 and fill the Kraft inequality
/// exactly: `sum 2^-len == 1`, so their canonical code is a complete prefix code.
pub open spec fn kraft_complete(t: Seq<CtData>, n: int) -> bool {
    &&& forall|i: int| 0 <= i < n ==> #[trigger] t[i].dl <= 15
    &&& kraft_sum(len_counts(t, n), 15, 16) == pow2(15)
}

pub proof fn lemma_count_len_bound(t: Seq<CtData>, n: int, b: int)
    ensures
        0 <= count_len(t, n, b) <= if n > 0 { n } else { 0 },
    decreases n,
{
    if n > 0 {
        lemma_count_len_bound(t, n - 1, b);
    }
}

/// Counts of lengths read only the lengths of the symbols counted.
pub proof fn lemma_count_len_frame(t1: Seq<CtData>, t2: Seq<CtData>, n: int, b: int)
    requires
        forall|i: int| 0 <= i < n ==> #[trigger] t1[i].dl == t2[i].dl,
    ensures
        count_len(t1, n, b) == count_len(t2, n, b),
    decreases n,
{
    if n > 0 {
        lemma_count_len_frame(t1, t2, n - 1, b);
    }
}

/// The canonical codes and the Kraft sum read only the lengths of the symbols below `n`.
pub proof fn lemma_codes_frame(t1: Seq<CtData>, t2: Seq<CtData>, n: int)
    requires
        n <= t1.len(),
        n <= t2.len(),
        forall|i: int| 0 <= i < n ==> #[trigger] t1[i] == t2[i],
    ensures
        canonical_codes(t1, n) == canonical_codes(t2, n),
        kraft_complete(t1, n) == kraft_complete(t2, n),
{
    assert forall|b: int| 0 <= b < 16 implies #[trigger] len_counts(t1, n)[b] == len_counts(t2, n)[b] by {
        lemma_count_len_frame(t1, t2, n, b);
    }
    assert(len_counts(t1, n) =~= len_counts(t2, n));
    assert forall|i: int| 0 <= i < n implies #[trigger] spec_canonical_code(t1, len_counts(t1, n), i)
        == spec_canonical_code(t2, len_counts(t2, n), i) by {
        lemma_count_len_frame(t1, t2, i, t1[i].dl as int);
    }
    if canonical_codes(t1, n) {
        assert forall|i: int| 0 <= i < n && t2[i].dl != 0 implies #[trigger] low_bits(t2[i].fc as u32, t2[i].dl as nat)
            == low_bits(spec_canonical_code(t2, len_counts(t2, n), i), t2[i].dl as nat).reverse() by {
            assert(t1[i] == t2[i]);
            assert(low_bits(t1[i].fc as u32, t1[i].dl as nat) == low_bits(
                spec_canonical_code(t1, len_counts(t1, n), i),
                t1[i].dl as nat,
            ).reverse());
        }
    }
    if canonical_codes(t2, n) {
        assert forall|i: int| 0 <= i < n && t1[i].dl != 0 implies #[trigger] low_bits(t1[i].fc as u32, t1[i].dl as nat)
            == low_bits(spec_canonical_code(t1, len_counts(t1, n), i), t1[i].dl as nat).reverse() by {
            assert(t1[i] == t2[i]);
            assert(low_bits(t2[i].fc as u32, t2[i].dl as nat) == low_bits(
                spec_canonical_code(t2, len_counts(t2, n), i),
                t2[i].dl as nat,
            ).reverse());
        }
    }
    if kraft_complete(t1, n) {
        assert forall|i: int| 0 <= i < n implies #[trigger] t2[i].dl <= 15 by {
            assert(t1[i] == t2[i]);
        }
    }
    if kraft_complete(t2, n) {
        assert forall|i: int| 0 <= i < n implies #[trigger] t1[i].dl <= 15 by {
            assert(t1[i] == t2[i]);
        }
    }
}

/// The number of positions in `lo..HEAP_SIZE` holding `x`.
pub open spec fn occ_count(heap: Seq<i32>, lo: int, x: int) -> int
    decreases HEAP_SIZE - lo,
{
    if lo >= HEAP_SIZE {
        0
    } else {
        (if heap[lo] as int == x { 1int } else { 0 }) + occ_count(heap, lo + 1, x)
    }
}

proof fn lemma_occ_none(heap: Seq<i32>, lo: int, x: int)
    requires
        forall|g: int| lo <= g < HEAP_SIZE ==> #[trigger] heap[g] as int != x,
    ensures
        occ_count(heap, lo, x) == 0,
    decreases HEAP_SIZE - lo,
{
    if lo < HEAP_SIZE {
        lemma_occ_none(heap, lo + 1, x);
    }
}

/// A value held once in a range of distinct values is counted once.
proof fn lemma_occ_one(heap: Seq<i32>, lo: int, x: int, g0: int)
    requires
        0 <= lo <= g0 < HEAP_SIZE,
        distinct_from(heap, lo),
        heap[g0] as int == x,
    ensures
        occ_count(heap, lo, x) == 1,
    decreases g0 - lo,
{
    if lo < g0 {
        assert(heap[lo] != heap[g0]);
        lemma_occ_one(heap, lo + 1, x, g0);
    } else {
        assert forall|g: int| lo + 1 <= g < HEAP_SIZE implies #[trigger] heap[g] as int != x by {
            assert(heap[g] != heap[g0]);
        }
        lemma_occ_none(heap, lo + 1, x);
    }
}

/// Raising the bound on the symbols counted from `k` to `k + 1` adds the positions of `k`.
proof fn lemma_len_count_bound_step(heap: Seq<i32>, tree: Seq<CtData>, lo: int, k: int, b: int)
    requires
        0 <= k,
    ensures
        len_count(heap, tree, lo, HEAP_SIZE as int, k + 1, b) == len_count(heap, tree, lo, HEAP_SIZE as int, k, b) + if tree[k].dl
            as int == b {
            occ_count(heap, lo, k)
        } else {
            0
        },
    decreases HEAP_SIZE - lo,
{
    if lo < HEAP_SIZE {
        lemma_len_count_bound_step(heap, tree, lo + 1, k, b);
    }
}

/// Counting by positions is counting by symbols, when each symbol of length `b` sits at
/// exactly one position.
pub proof fn lemma_len_count_symbols(heap: Seq<i32>, tree: Seq<CtData>, lo: int, t: int, b: int)
    requires
        0 <= lo,
        0 <= t,
        distinct_from(heap, lo),
        forall|x: int| 0 <= x < t && #[trigger] tree[x].dl as int == b ==> at_pos(heap, lo, x),
    ensures
        len_count(heap, tree, lo, HEAP_SIZE as int, t, b) == count_len(tree, t, b),
    decreases t,
{
    if t > 0 {
        lemma_len_count_symbols(heap, tree, lo, t - 1, b);
        lemma_len_count_bound_step(heap, tree, lo, t - 1, b);
        if tree[t - 1].dl as int == b {
            assert(at_pos(heap, lo, t - 1));
            let g0 = choose|g: int| lo <= g < HEAP_SIZE && #[trigger] heap[g] as int == t - 1;
            lemma_occ_one(heap, lo, t - 1, g0);
        }
    } else {
        lemma_len_count_zero(heap, tree, lo, b);
    }
}

proof fn lemma_len_count_zero(heap: Seq<i32>, tree: Seq<CtData>, lo: int, b: int)
    ensures
        len_count(heap, tree, lo, HEAP_SIZE as int, 0, b) == 0,
    decreases HEAP_SIZE - lo,
{
    if lo < HEAP_SIZE {
        lemma_len_count_zero(heap, tree, lo + 1, b);
    }
}

/// Counts that are zero from `k1` on add nothing to the Kraft sum beyond `k1`.
pub proof fn lemma_kraft_sum_tail(c: Seq<u16>, m: int, k1: int, k2: int)
    requires
        1 <= k1 <= k2 <= c.len(),
        forall|b: int| k1 <= b < k2 ==> #[trigger] c[b] == 0,
    ensures
        kraft_sum(c, m, k2) == kraft_sum(c, m, k1),
    decreases k2 - k1,
{
    if k1 < k2 {
        lemma_kraft_sum_tail(c, m, k1, k2 - 1);
    }
}

/// Symbols of length zero added at the end change neither the codes nor the Kraft sum.
pub proof fn lemma_codes_extend(t: Seq<CtData>, n1: int, n2: int)
    requires
        0 <= n1 <= n2 <= t.len(),
        forall|i: int| n1 <= i < n2 ==> #[trigger] t[i].dl == 0,
        canonical_codes(t, n1),
        kraft_complete(t, n1),
    ensures
        canonical_codes(t, n2),
        kraft_complete(t, n2),
{
    assert forall|b: int| 0 <= b < 16 implies #[trigger] len_counts(t, n2)[b] == len_counts(t, n1)[b] by {
        if b != 0 {
            lemma_count_len_zeros(t, n1, n2, b);
        }
    }
    assert(len_counts(t, n2) =~= len_counts(t, n1));
    assert forall|i: int| 0 <= i < n2 && t[i].dl != 0 implies #[trigger] low_bits(t[i].fc as u32, t[i].dl as nat)
        == low_bits(spec_canonical_code(t, len_counts(t, n2), i), t[i].dl as nat).reverse() by {
        assert(i < n1);
    }
    assert forall|i: int| 0 <= i < n2 implies #[trigger] t[i].dl <= 15 by {
        if i >= n1 {
            assert(t[i].dl == 0);
        }
    }
}

proof fn lemma_count_len_zeros(t: Seq<CtData>, n1: int, n2: int, b: int)
    requires
        0 <= n1 <= n2 <= t.len(),
        b != 0,
        forall|i: int| n1 <= i < n2 ==> #[trigger] t[i].dl == 0,
    ensures
        count_len(t, n2, b) == count_len(t, n1, b),
    decreases n2 - n1,
{
    if n1 < n2 {
        lemma_count_len_zeros(t, n1, n2 - 1, b);
        assert(t[n2 - 1].dl == 0);
    }
}

// ---------------------------------------------------------------------------------------
// Weighted sums: the bit costs that `gen_bitlen` adds up.

/// The sum of `w(symbol, element)` over the positions in `lo..hi` holding a symbol below
/// `t`.
pub open spec fn pos_sum(heap: Seq<i32>, tree: Seq<CtData>, lo: int, hi: int, t: int, w: spec_fn(int, CtData) -> int) -> int
    decreases hi - lo,
{
    if lo >= hi {
        0
    } else {
        (if 0 <= heap[lo] < t { w(heap[lo] as int, tree[heap[lo] as int]) } else { 0 }) + pos_sum(
            heap,
            tree,
            lo + 1,
            hi,
            t,
            w,
        )
    }
}

/// The sum of `w(n, tree[n])` over the symbols `n < t`.
pub open spec fn sym_sum(tree: Seq<CtData>, t: int, w: spec_fn(int, CtData) -> int) -> int
    decreases t,
{
    if t <= 0 {
        0
    } else {
        sym_sum(tree, t - 1, w) + w(t - 1, tree[t - 1])
    }
}

pub proof fn lemma_pos_sum_hi(heap: Seq<i32>, tree: Seq<CtData>, lo: int, hi: int, t: int, w: spec_fn(int, CtData) -> int)
    requires
        lo <= hi,
    ensures
        pos_sum(heap, tree, lo, hi + 1, t, w) == pos_sum(heap, tree, lo, hi, t, w) + if 0 <= heap[hi] < t {
            w(heap[hi] as int, tree[heap[hi] as int])
        } else {
            0
        },
    decreases hi - lo,
{
    if lo < hi {
        lemma_pos_sum_hi(heap, tree, lo + 1, hi, t, w);
    } else {
        assert(pos_sum(heap, tree, hi + 1, hi + 1, t, w) == 0);
    }
}

pub proof fn lemma_pos_sum_split(
    heap: Seq<i32>,
    tree: Seq<CtData>,
    lo: int,
    mid: int,
    hi: int,
    t: int,
    w: spec_fn(int, CtData) -> int,
)
    requires
        lo <= mid <= hi,
    ensures
        pos_sum(heap, tree, lo, hi, t, w) == pos_sum(heap, tree, lo, mid, t, w) + pos_sum(heap, tree, mid, hi, t, w),
    decreases mid - lo,
{
    if lo < mid {
        lemma_pos_sum_split(heap, tree, lo + 1, mid, hi, t, w);
    }
}

pub proof fn lemma_pos_sum_frame(
    heap: Seq<i32>,
    t1: Seq<CtData>,
    t2: Seq<CtData>,
    lo: int,
    hi: int,
    t: int,
    w: spec_fn(int, CtData) -> int,
)
    requires
        forall|g: int| lo <= g < hi && 0 <= heap[g] < t ==> #[trigger] t1[heap[g] as int] == t2[heap[g] as int],
    ensures
        pos_sum(heap, t1, lo, hi, t, w) == pos_sum(heap, t2, lo, hi, t, w),
    decreases hi - lo,
{
    if lo < hi {
        lemma_pos_sum_frame(heap, t1, t2, lo + 1, hi, t, w);
    }
}

/// Changing the element of a symbol held at one position of a range of distinct symbols
/// changes the sum by the difference of its weights.
pub proof fn lemma_pos_sum_update(
    heap: Seq<i32>,
    tree: Seq<CtData>,
    lo: int,
    hi: int,
    t: int,
    w: spec_fn(int, CtData) -> int,
    h0: int,
    c: CtData,
)
    requires
        0 <= lo <= h0 < hi <= HEAP_SIZE,
        heap.len() == HEAP_SIZE,
        distinct_from(heap, lo),
        0 <= heap[h0] < t,
        t <= tree.len(),
    ensures
        pos_sum(heap, tree.update(heap[h0] as int, c), lo, hi, t, w) == pos_sum(heap, tree, lo, hi, t, w) - w(
            heap[h0] as int,
            tree[heap[h0] as int],
        ) + w(heap[h0] as int, c),
{
    let x = heap[h0] as int;
    let t2 = tree.update(x, c);
    lemma_pos_sum_split(heap, tree, lo, h0, hi, t, w);
    lemma_pos_sum_split(heap, t2, lo, h0, hi, t, w);
    assert forall|g: int| lo <= g < h0 && 0 <= heap[g] < t implies #[trigger] t2[heap[g] as int] == tree[heap[g] as int] by {
        assert(heap[g] != heap[h0]);
    }
    lemma_pos_sum_frame(heap, t2, tree, lo, h0, t, w);
    assert forall|g: int| h0 + 1 <= g < hi && 0 <= heap[g] < t implies #[trigger] t2[heap[g] as int] == tree[heap[g] as int] by {
        assert(heap[g] != heap[h0]);
    }
    lemma_pos_sum_frame(heap, t2, tree, h0 + 1, hi, t, w);
}

/// The sum of `v` over the positions in `lo..HEAP_SIZE` holding `x`.
pub open spec fn occ_sum(heap: Seq<i32>, lo: int, x: int, v: int) -> int
    decreases HEAP_SIZE - lo,
{
    if lo >= HEAP_SIZE {
        0
    } else {
        (if heap[lo] as int == x { v } else { 0 }) + occ_sum(heap, lo + 1, x, v)
    }
}

proof fn lemma_occ_sum(heap: Seq<i32>, lo: int, x: int, v: int)
    requires
        0 <= lo,
        distinct_from(heap, lo),
    ensures
        occ_sum(heap, lo, x, v) == if at_pos(heap, lo, x) { v } else { 0 },
    decreases HEAP_SIZE - lo,
{
    if lo < HEAP_SIZE {
        lemma_occ_sum(heap, lo + 1, x, v);
        if heap[lo] as int == x {
            assert(at_pos(heap, lo, x));
            if at_pos(heap, lo + 1, x) {
                let g = choose|g: int| lo + 1 <= g < HEAP_SIZE && #[trigger] heap[g] as int == x;
                assert(heap[g] != heap[lo]);
            }
        } else {
            if at_pos(heap, lo, x) {
                let g = choose|g: int| lo <= g < HEAP_SIZE && #[trigger] heap[g] as int == x;
                assert(at_pos(heap, lo + 1, x));
            }
            if at_pos(heap, lo + 1, x) {
                let g = choose|g: int| lo + 1 <= g < HEAP_SIZE && #[trigger] heap[g] as int == x;
                assert(at_pos(heap, lo, x));
            }
        }
    } else {
        assert(!at_pos(heap, lo, x));
    }
}

proof fn lemma_pos_sum_bound_step(heap: Seq<i32>, tree: Seq<CtData>, lo: int, k: int, w: spec_fn(int, CtData) -> int)
    requires
        0 <= k,
    ensures
        pos_sum(heap, tree, lo, HEAP_SIZE as int, k + 1, w) == pos_sum(heap, tree, lo, HEAP_SIZE as int, k, w) + occ_sum(
            heap,
            lo,
            k,
            w(k, tree[k]),
        ),
    decreases HEAP_SIZE - lo,
{
    if lo < HEAP_SIZE {
        lemma_pos_sum_bound_step(heap, tree, lo + 1, k, w);
    }
}

proof fn lemma_pos_sum_zero(heap: Seq<i32>, tree: Seq<CtData>, lo: int, w: spec_fn(int, CtData) -> int)
    ensures
        pos_sum(heap, tree, lo, HEAP_SIZE as int, 0, w) == 0,
    decreases HEAP_SIZE - lo,
{
    if lo < HEAP_SIZE {
        lemma_pos_sum_zero(heap, tree, lo + 1, w);
    }
}

/// Summing by positions is summing by symbols, when each symbol of nonzero weight sits at
/// exactly one position.
pub proof fn lemma_pos_sum_symbols(heap: Seq<i32>, tree: Seq<CtData>, lo: int, t: int, w: spec_fn(int, CtData) -> int)
    requires
        0 <= lo,
        0 <= t,
        distinct_from(heap, lo),
        forall|x: int| 0 <= x < t && #[trigger] w(x, tree[x]) != 0 ==> at_pos(heap, lo, x),
    ensures
        pos_sum(heap, tree, lo, HEAP_SIZE as int, t, w) == sym_sum(tree, t, w),
    decreases t,
{
    if t > 0 {
        lemma_pos_sum_symbols(heap, tree, lo, t - 1, w);
        lemma_pos_sum_bound_step(heap, tree, lo, t - 1, w);
        lemma_occ_sum(heap, lo, t - 1, w(t - 1, tree[t - 1]));
    } else {
        lemma_pos_sum_zero(heap, tree, lo, w);
    }
}

/// Adding to a `u32` that holds `(base + s) mod 2^32` the remainder of `d` gives
/// `(base + s + d) mod 2^32`.
pub proof fn lemma_wrap_acc(a: u32, base: int, s: int, d: int, r: u32)
    requires
        a as int == (base + s) % 0x1_0000_0000,
        r == vstd::wrapping::u32_specs::wrapping_add(a, (d % 0x1_0000_0000) as u32),
    ensures
        r as int == (base + s + d) % 0x1_0000_0000,
{
    let m: int = 0x1_0000_0000;
    let dm = d % m;
    assert(0 <= dm < m);
    assert((dm as u32) as int == dm);
    assert(r as int == (a + dm) % m);
    vstd::arithmetic::div_mod::lemma_add_mod_noop(base + s, d, m);
    vstd::arithmetic::div_mod::lemma_mod_twice(base + s, m);
    vstd::arithmetic::div_mod::lemma_mod_twice(d, m);
    vstd::arithmetic::div_mod::lemma_add_mod_noop(a as int, dm, m);
}

/// Sums with the same terms are equal.
pub proof fn lemma_sym_sum_ext(
    t1: Seq<CtData>,
    t2: Seq<CtData>,
    t: int,
    w1: spec_fn(int, CtData) -> int,
    w2: spec_fn(int, CtData) -> int,
)
    requires
        forall|n: int| 0 <= n < t ==> #[trigger] w1(n, t1[n]) == w2(n, t2[n]),
    ensures
        sym_sum(t1, t, w1) == sym_sum(t2, t, w2),
    decreases t,
{
    if t > 0 {
        lemma_sym_sum_ext(t1, t2, t - 1, w1, w2);
        assert(w1(t - 1, t1[t - 1]) == w2(t - 1, t2[t - 1]));
    }
}

/// A sum whose terms are differences is the difference of the sums.
pub proof fn lemma_sym_sum_sub(
    tree: Seq<CtData>,
    t: int,
    w1: spec_fn(int, CtData) -> int,
    w2: spec_fn(int, CtData) -> int,
    w3: spec_fn(int, CtData) -> int,
)
    requires
        forall|n: int| 0 <= n < t ==> #[trigger] w1(n, tree[n]) - w2(n, tree[n]) == w3(n, tree[n]),
    ensures
        sym_sum(tree, t, w1) - sym_sum(tree, t, w2) == sym_sum(tree, t, w3),
    decreases t,
{
    if t > 0 {
        lemma_sym_sum_sub(tree, t - 1, w1, w2, w3);
        assert(w1(t - 1, tree[t - 1]) - w2(t - 1, tree[t - 1]) == w3(t - 1, tree[t - 1]));
    }
}

/// Terms that are zero from `t1` on add nothing beyond `t1`.
pub proof fn lemma_sym_sum_tail(tree: Seq<CtData>, t1: int, t2: int, w: spec_fn(int, CtData) -> int)
    requires
        0 <= t1 <= t2,
        forall|n: int| t1 <= n < t2 ==> #[trigger] w(n, tree[n]) == 0,
    ensures
        sym_sum(tree, t2, w) == sym_sum(tree, t1, w),
    decreases t2 - t1,
{
    if t1 < t2 {
        lemma_sym_sum_tail(tree, t1, t2 - 1, w);
        assert(w(t2 - 1, tree[t2 - 1]) == 0);
    }
}

/// Changing one element changes the sum by the difference of its terms.
pub proof fn lemma_sym_sum_update(tree: Seq<CtData>, t: int, i: int, c: CtData, w: spec_fn(int, CtData) -> int)
    requires
        0 <= i < tree.len(),
        t <= tree.len(),
    ensures
        sym_sum(tree.update(i, c), t, w) == sym_sum(tree, t, w) + if i < t { w(i, c) - w(i, tree[i]) } else { 0 },
    decreases t,
{
    if t > 0 {
        lemma_sym_sum_update(tree, t - 1, i, c, w);
    }
}

/// Subtracting from a `u32` that holds `(base + s) mod 2^32` gives `(base + s - d) mod 2^32`.
pub proof fn lemma_wrap_sub(a: u32, base: int, s: int, d: u32, r: u32)
    requires
        a as int == (base + s) % 0x1_0000_0000,
        r == vstd::wrapping::u32_specs::wrapping_sub(a, d),
    ensures
        r as int == (base + s - d) % 0x1_0000_0000,
{
    let m: int = 0x1_0000_0000;
    assert(r as int == (a - d) % m);
    vstd::arithmetic::div_mod::lemma_sub_mod_noop(base + s, d as int, m);
    vstd::arithmetic::div_mod::lemma_mod_twice(base + s, m);
    vstd::arithmetic::div_mod::lemma_small_mod(d as nat, m as nat);
}

/// `((a + x) mod 2^32 + y) mod 2^32 == (a + x + y) mod 2^32`.
pub proof fn lemma_mod_add_chain(a: int, x: int, y: int)
    ensures
        ((a + x) % 0x1_0000_0000 + y) % 0x1_0000_0000 == (a + x + y) % 0x1_0000_0000,
{
    let m: int = 0x1_0000_0000;
    vstd::arithmetic::div_mod::lemma_add_mod_noop(a + x, y, m);
    vstd::arithmetic::div_mod::lemma_add_mod_noop((a + x) % m, y, m);
    vstd::arithmetic::div_mod::lemma_mod_twice(a + x, m);
}

// ---------------------------------------------------------------------------------------
// Canonical codes that fill the Kraft inequality form a prefix code.

/// The first code of length `b`, scaled to 15 bits, is the Kraft sum of the shorter lengths.
proof fn lemma_next_code_kraft(c: Seq<u16>, b: int)
    requires
        c.len() == 16,
        c[0] == 0,
        0 <= b <= 15,
    ensures
        spec_next_code(c, b) * pow2((15 - b) as nat) == kraft_sum(c, 15, b + 0),
    decreases b,
{
    if b == 0 {
        assert(spec_next_code(c, 0) == 0);
    } else {
        lemma_next_code_kraft(c, b - 1);
        lemma_pow2_unfold((15 - b + 1) as nat);
        let p = pow2((15 - b) as nat) as int;
        let nc = spec_next_code(c, b - 1);
        let x = c[b - 1] as int;
        assert(spec_next_code(c, b) == (nc + x) * 2);
        assert((nc + x) * 2 * p == nc * (2 * p) + x * (2 * p)) by (nonlinear_arith);
        if b == 1 {
            assert(kraft_sum(c, 15, 1) == 0);
            assert(x == 0);
            assert(nc == 0);
            assert((nc + x) * 2 * p == 0) by (nonlinear_arith)
                requires
                    nc == 0,
                    x == 0,
            ;
        } else {
            assert(kraft_sum(c, 15, b) == kraft_sum(c, 15, b - 1) + x * pow2((15 - (b - 1)) as nat) as int);
        }
    }
}

/// Kraft sums grow with the lengths they cover.
proof fn lemma_kraft_sum_mono(c: Seq<u16>, m: int, k1: int, k2: int)
    requires
        k1 <= k2,
    ensures
        kraft_sum(c, m, k1) <= kraft_sum(c, m, k2),
    decreases k2 - k1,
{
    if k1 < k2 {
        lemma_kraft_sum_mono(c, m, k1, k2 - 1);
        if k2 > 1 {
            lemma_pow2_pos((m - (k2 - 1)) as nat);
            let x = c[k2 - 1] as int;
            let p = pow2((m - (k2 - 1)) as nat) as int;
            assert(x * p >= 0) by (nonlinear_arith)
                requires
                    x >= 0,
                    p > 0,
            ;
        }
    }
}

/// With the Kraft sum at most `2^15`, the codes of each length fit that length.
proof fn lemma_codes_fit(c: Seq<u16>, b: int)
    requires
        c.len() == 16,
        c[0] == 0,
        1 <= b <= 15,
        kraft_sum(c, 15, 16) <= pow2(15),
    ensures
        spec_next_code(c, b) + c[b] <= pow2(b as nat),
{
    lemma_next_code_kraft(c, b);
    lemma_kraft_sum_mono(c, 15, b + 1, 16);
    vstd::arithmetic::power2::lemma_pow2_adds(b as nat, (15 - b) as nat);
    lemma_pow2_pos((15 - b) as nat);
    let q = pow2((15 - b) as nat) as int;
    let nc = spec_next_code(c, b);
    let x = c[b] as int;
    let pb = pow2(b as nat) as int;
    assert(kraft_sum(c, 15, b + 1) == kraft_sum(c, 15, b) + x * q);
    assert((nc + x) * q == nc * q + x * q) by (nonlinear_arith);
    assert(nc + x <= pb) by (nonlinear_arith)
        requires
            (nc + x) * q <= pb * q,
            q > 0,
    ;
}

/// The first code of a longer length, shifted down to a shorter one, comes after all the
/// codes of the shorter length.
proof fn lemma_next_code_after(c: Seq<u16>, b1: int, b2: int)
    requires
        c.len() == 16,
        0 <= b1 < b2 <= 15,
    ensures
        spec_next_code(c, b2) >= (spec_next_code(c, b1) + c[b1]) * pow2((b2 - b1) as nat),
    decreases b2,
{
    lemma_pow2_unfold((b2 - b1) as nat);
    if b2 > b1 + 1 {
        lemma_next_code_after(c, b1, b2 - 1);
        let p = pow2((b2 - 1 - b1) as nat) as int;
        let a = spec_next_code(c, b1) + c[b1];
        let n1 = spec_next_code(c, b2 - 1);
        let x = c[b2 - 1] as int;
        assert(spec_next_code(c, b2) == (n1 + x) * 2);
        assert((n1 + x) * 2 >= a * (2 * p)) by (nonlinear_arith)
            requires
                n1 >= a * p,
                x >= 0,
        ;
    } else {
        assert(pow2(0) == 1) by { vstd::arithmetic::power2::lemma2_to64(); }
    }
}

/// The number of symbols of length `l` before `i` grows with `i`.
proof fn lemma_count_len_mono(t: Seq<CtData>, i: int, k: int, l: int)
    requires
        0 <= i <= k,
    ensures
        count_len(t, i, l) <= count_len(t, k, l),
        i < k && t[i].dl as int == l ==> count_len(t, i, l) + 1 <= count_len(t, k, l),
    decreases k - i,
{
    if i < k {
        lemma_count_len_mono(t, i, k - 1, l);
        if i == k - 1 {
            assert(count_len(t, k, l) == count_len(t, i, l) + if t[i].dl == l { 1int } else { 0 });
        }
    }
}

/// Two values below `2^l` with the same low `l` bits are equal.
proof fn lemma_low_bits_inj(a: u32, b: u32, l: nat)
    requires
        l < 32,
        a < pow2(l),
        b < pow2(l),
        low_bits(a, l) == low_bits(b, l),
    ensures
        a == b,
    decreases l,
{
    if l == 0 {
        assert(pow2(0) == 1) by { vstd::arithmetic::power2::lemma2_to64(); }
    } else {
        let a1 = a >> 1u32;
        let b1 = b >> 1u32;
        vstd::bits::lemma_u32_shr_is_div(a, 1u32);
        vstd::bits::lemma_u32_shr_is_div(b, 1u32);
        lemma_pow2_unfold(l);
        assert(pow2(1) == 2) by { vstd::arithmetic::power2::lemma2_to64(); }
        assert forall|k: int| 0 <= k < l - 1 implies #[trigger] low_bits(a1, (l - 1) as nat)[k] == low_bits(b1, (l - 1) as nat)[k] by {
            let ku = k as u32;
            assert(low_bits(a, l)[k + 1] == low_bits(b, l)[k + 1]);
            assert(((k + 1) as u32) == ku + 1);
            assert(low_bits(a, l)[k + 1] == ((a >> (ku + 1)) & 1u32 == 1u32));
            assert(low_bits(b, l)[k + 1] == ((b >> (ku + 1)) & 1u32 == 1u32));
            assert(low_bits(a1, (l - 1) as nat)[k] == ((a1 >> ku) & 1u32 == 1u32));
            assert(low_bits(b1, (l - 1) as nat)[k] == ((b1 >> ku) & 1u32 == 1u32));
            assert((a1 >> ku) == (a >> (ku + 1)) && (b1 >> ku) == (b >> (ku + 1))) by (bit_vector)
                requires
                    a1 == a >> 1u32,
                    b1 == b >> 1u32,
                    ku < 31,
            ;
        }
        assert(low_bits(a1, (l - 1) as nat) =~= low_bits(b1, (l - 1) as nat));
        lemma_low_bits_inj(a1, b1, (l - 1) as nat);
        assert(low_bits(a, l)[0] == low_bits(b, l)[0]);
        assert(low_bits(a, l)[0] == ((a >> 0u32) & 1u32 == 1u32));
        assert(low_bits(b, l)[0] == ((b >> 0u32) & 1u32 == 1u32));
        assert(a == b) by (bit_vector)
            requires
                a >> 1u32 == b >> 1u32,
                ((a >> 0u32) & 1u32 == 1u32) == ((b >> 0u32) & 1u32 == 1u32),
        ;
    }
}

/// The first `li` bits, most significant first, of an `l`-bit value are those of the value
/// shifted down by `l - li`.
proof fn lemma_low_bits_top(x: u32, l: nat, li: nat)
    requires
        li <= l < 32,
    ensures
        low_bits(x, l).reverse().subrange(0, li as int) == low_bits(x >> ((l - li) as u32), li).reverse(),
{
    let d = (l - li) as u32;
    let y = x >> d;
    assert forall|k: int| 0 <= k < li implies #[trigger] low_bits(x, l).reverse().subrange(0, li as int)[k]
        == low_bits(y, li).reverse()[k] by {
        let m = (li - 1 - k) as u32;
        assert((y >> m) == (x >> (d + m))) by (bit_vector)
            requires
                y == x >> d,
                d + m < 32,
        ;
        assert((l - 1 - k) as u32 == d + m);
    }
    assert(low_bits(x, l).reverse().subrange(0, li as int) =~= low_bits(y, li).reverse());
}

proof fn lemma_next_code_nonneg(c: Seq<u16>, b: int)
    ensures
        spec_next_code(c, b) >= 0,
    decreases b,
{
    if b > 0 {
        lemma_next_code_nonneg(c, b - 1);
    }
}

/// The canonical code of a symbol, when the lengths fill the Kraft inequality: the first code
/// of its length plus the number of earlier symbols of that length, below `2^len`.
proof fn lemma_canonical_value(t: Seq<CtData>, n: int, i: int)
    requires
        kraft_complete(t, n),
        n <= t.len(),
        n < 65536,
        0 <= i < n,
        1 <= t[i].dl,
    ensures
        spec_canonical_code(t, len_counts(t, n), i) as int == spec_next_code(len_counts(t, n), t[i].dl as int) + count_len(
            t,
            i,
            t[i].dl as int,
        ),
        spec_canonical_code(t, len_counts(t, n), i) < pow2(t[i].dl as nat),
{
    let c = len_counts(t, n);
    let l = t[i].dl as int;
    assert(l <= 15);
    lemma_count_len_bound(t, n, l);
    lemma_count_len_mono(t, i, n, l);
    assert(c[l] as int == count_len(t, n, l));
    lemma_codes_fit(c, l);
    lemma_next_code_nonneg(c, l);
    lemma_count_len_bound(t, i, l);
    vstd::arithmetic::power2::lemma_pow2_strictly_increases(l as nat, 16);
    assert(pow2(16) == 65536) by { vstd::arithmetic::power2::lemma2_to64(); }
    let nc = spec_next_code(c, l);
    let r = count_len(t, i, l);
    vstd::arithmetic::div_mod::lemma_small_mod(nc as nat, 65536);
    vstd::arithmetic::div_mod::lemma_small_mod((nc + r) as nat, 65536);
}

/// Law: when a tree's codes are the canonical codes of its lengths and the lengths fill the
/// Kraft inequality, no symbol's code, as sent, is the beginning of another symbol's code:
/// the codes form a prefix code, and a block's bits decode one way only.
pub proof fn lemma_prefix_free(t: Seq<CtData>, n: int, i: int, j: int)
    requires
        canonical_codes(t, n),
        kraft_complete(t, n),
        n <= t.len(),
        n < 65536,
        0 <= i < n,
        0 <= j < n,
        i != j,
        1 <= t[i].dl <= t[j].dl,
    ensures
        low_bits(t[j].fc as u32, t[j].dl as nat).subrange(0, t[i].dl as int) != low_bits(
            t[i].fc as u32,
            t[i].dl as nat,
        ),
{
    let c = len_counts(t, n);
    let li = t[i].dl as int;
    let lj = t[j].dl as int;
    assert(lj <= 15);
    lemma_canonical_value(t, n, i);
    lemma_canonical_value(t, n, j);
    let ci = spec_canonical_code(t, c, i);
    let cj = spec_canonical_code(t, c, j);
    let d = (lj - li) as u32;
    let x = cj >> d;
    vstd::bits::lemma_u32_shr_is_div(cj, d);
    lemma_pow2_pos(d as nat);
    vstd::arithmetic::power2::lemma_pow2_adds(li as nat, d as nat);
    let q = pow2(d as nat) as int;
    let pi = pow2(li as nat) as int;
    // The shifted code of `j` differs from the code of `i`, and both are below `2^li`.
    let cji = cj as int;
    let xi = x as int;
    assert(xi == cji / q);
    assert(li as nat + d as nat == lj as nat);
    assert(cji < pi * q);
    vstd::arithmetic::div_mod::lemma_fundamental_div_mod(cji, q);
    let rm = cji % q;
    assert(xi < pi) by (nonlinear_arith)
        requires
            cji == q * xi + rm,
            0 <= rm,
            cji < pi * q,
            q > 0,
    ;
    if li < lj {
        lemma_next_code_after(c, li, lj);
        lemma_count_len_mono(t, i, n, li);
        lemma_count_len_bound(t, n, li);
        let a = spec_next_code(c, li) + c[li];
        assert(ci < a);
        lemma_count_len_bound(t, j, lj);
        assert(pow2((lj - li) as nat) == q);
        assert(cj >= a * q);
        assert(xi >= a) by (nonlinear_arith)
            requires
                cji == q * xi + rm,
                rm < q,
                cji >= a * q,
                q > 0,
        ;
    } else {
        assert(d == 0);
        assert(q == 1) by { vstd::arithmetic::power2::lemma2_to64(); }
        vstd::arithmetic::div_mod::lemma_div_basics_2(cji);
        assert(cji / 1 == cji);
        assert(xi == cji);
        if i < j {
            lemma_count_len_mono(t, i, j, li);
        } else {
            lemma_count_len_mono(t, j, i, li);
        }
        assert(ci != cj);
    }
    assert(x != ci);
    if low_bits(t[j].fc as u32, lj as nat).subrange(0, li) == low_bits(t[i].fc as u32, li as nat) {
        lemma_low_bits_top(cj, lj as nat, li as nat);
        let bj = low_bits(x, li as nat);
        let bi = low_bits(ci, li as nat);
        assert(bj.reverse() == bi.reverse());
        assert(bj.reverse().reverse() =~= bj);
        assert(bi.reverse().reverse() =~= bi);
        lemma_low_bits_inj(x, ci, li as nat);
    }
}

/// Shifting right by 3 divides by 8.
pub proof fn lemma_shr3(x: u32)
    ensures
        x >> 3u32 == x / 8,
{
    vstd::bits::lemma_u32_shr_is_div(x, 3u32);
    assert(pow2(3) == 8) by { vstd::arithmetic::power2::lemma2_to64(); }
}

} // verus!
