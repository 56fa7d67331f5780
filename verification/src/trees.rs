//! Huffman trees: `build_tree` / `gen_bitlen` / `pqdownheap` (tree construction),
//! `scan_tree` / `send_tree` / `build_bl_tree` / `send_all_trees` (the code-length RLE),
//! `compress_block` (symbol emission) and `_tr_flush_block`, which picks a stored, fixed or
//! dynamic block by comparing their sizes.
use vstd::prelude::*;
use vstd::seq_lib::*;
use vstd::multiset::*;
use crate::bitwriter::{BitWriter, sent_after, lemma_sent_after_refl, lemma_sent_after_trans, low_bits, zero_bits, bytes_bits, lemma_bytes_bits_len, lemma_bytes_bits_concat, lemma_fits_bits};
use vstd::bits::lemma_u32_shr_is_div;
use vstd::arithmetic::power2::pow2;
use crate::tables::{length_code_covers, bl_order, spec_bl_order, spec_bl_pos, lemma_bl_pos, dist_code_covers, 
    CtData, StaticData, code_fits, gen_codes, count_len, spec_canonical_code, extra_lbits, extra_dbits, extra_blbits, spec_extra_lbits,
    spec_extra_dbits, spec_extra_blbits, HEAP_SIZE, MAX_BITS, MAX_BL_BITS, LITERALS, L_CODES, D_CODES,
    BL_CODES, END_BLOCK, REP_3_6, REPZ_3_10, REPZ_11_138, d_code, spec_d_code, spec_base_length, spec_base_dist,
};
use crate::deflate::{DeflateState, LIT_BUFSIZE};
use crate::heap_order::{heap_window, node_weights, used_list, forced_list, leaf_window, leaf_weights, heapify, merge_rounds, huffman_heap,
    lemma_sift_window, lemma_heapify_len, lemma_merge_window};
use crate::kraft::{lemma_shr3, lemma_prefix_free, lemma_mod_add_chain, pos_sum, sym_sum, lemma_sym_sum_ext, lemma_sym_sum_sub, lemma_sym_sum_tail, lemma_sym_sum_update,
    lemma_wrap_sub, lemma_wrap_acc, lemma_pos_sum_hi, lemma_pos_sum_frame, lemma_pos_sum_update,
    lemma_pos_sum_symbols, canonical_codes, kraft_complete, lemma_codes_extend, lemma_codes_frame, len_counts, lemma_len_count_symbols, lemma_count_len_frame,
    lemma_count_len_bound, lemma_kraft_sum_tail, lemma_kraft_sum_scale, tree_shape, distinct_from, child_count, lemma_child_count_frame, has_dad, dad_pos, depth_at, lemma_dad, lemma_depth_nonneg, capped, at_pos, len_count,
    leaf_count, count_sum, kraft_sum, over_count, walk_inv, lemma_walk_start, lemma_walk_step, lemma_walk_end,
    lemma_count_sum_tail, lemma_count_sum_ge, lemma_count_sum_nonneg, lemma_count_sum_update, lemma_kraft_sum_update,
    lemma_kraft_sum_zero, lemma_len_count_hi, lemma_len_count_frame, lemma_len_count_split, lemma_len_count_no_leaf,
    lemma_leaf_count_hi, lemma_leaf_count_nonneg, lemma_over_count_bound, depth_counts, count_ints, top_nonzero, repair,
    len_by_rank, lemma_len_count_depth, lemma_over_count_zero, lemma_leaf_count_split, lemma_leaf_count_pos, lemma_len_by_rank,
    lemma_depth_frame, lemma_over_count_frame, lemma_depth_count_frame};
use vstd::arithmetic::power2::lemma_pow2_unfold;

verus! {

pub const SMALLEST: usize = 1;

/// The part of the heap that holds nodes still to be combined: positions `1..=len`.
pub open spec fn heap_part(heap: Seq<i32>, len: int) -> Multiset<i32> {
    heap.subrange(1, len + 1).to_multiset()
}

/// Exchanging two elements keeps the multiset.
proof fn lemma_swap_multiset(s: Seq<i32>, a: int, b: int)
    requires
        0 <= a < s.len(),
        0 <= b < s.len(),
    ensures
        s.update(a, s[b]).update(b, s[a]).to_multiset() == s.to_multiset(),
{
    broadcast use group_to_multiset_ensures, group_multiset_axioms, group_multiset_properties;
    let t = s.update(a, s[b]);
    to_multiset_update(s, a, s[b]);
    to_multiset_update(t, b, s[a]);
    if a != b {
        assert(t[b] == s[b]);
    }
    assert(t.update(b, s[a]).to_multiset() =~= s.to_multiset());
}

/// Writing inside the heap part is a write in its subrange.
proof fn lemma_heap_part_update(heap: Seq<i32>, len: int, k: int, x: i32)
    requires
        1 <= k <= len < heap.len(),
    ensures
        heap.update(k, x).subrange(1, len + 1) == heap.subrange(1, len + 1).update(k - 1, x),
{
    assert(heap.update(k, x).subrange(1, len + 1) =~= heap.subrange(1, len + 1).update(k - 1, x));
}

/// The part of the heap that holds nodes already taken out, sorted by frequency:
/// positions `hm..HEAP_SIZE`.
pub open spec fn heap_upper(heap: Seq<i32>, hm: int) -> Multiset<i32> {
    heap.subrange(hm, HEAP_SIZE as int).to_multiset()
}

/// A heap position inside a part is counted by that part.
proof fn lemma_sub_member(s: Seq<i32>, lo: int, hi: int, i: int)
    requires
        0 <= lo <= i < hi <= s.len(),
    ensures
        s.subrange(lo, hi).to_multiset().count(s[i]) > 0,
{
    broadcast use group_to_multiset_ensures;
    assert(s.subrange(lo, hi)[i - lo] == s[i]);
    assert(s.subrange(lo, hi).contains(s[i]));
}

/// A value counted by a part sits at some position of it.
proof fn lemma_sub_witness(s: Seq<i32>, lo: int, hi: int, x: i32) -> (i: int)
    requires
        0 <= lo <= hi <= s.len(),
        s.subrange(lo, hi).to_multiset().count(x) > 0,
    ensures
        lo <= i < hi,
        s[i] == x,
{
    broadcast use group_to_multiset_ensures;
    let t = s.subrange(lo, hi);
    assert(t.contains(x));
    let j = choose|j: int| 0 <= j < t.len() && t[j] == x;
    lo + j
}

/// Writing outside a range leaves the range alone.
proof fn lemma_sub_update_outside(s: Seq<i32>, lo: int, hi: int, k: int, x: i32)
    requires
        0 <= lo <= hi <= s.len(),
        0 <= k < s.len(),
        k < lo || k >= hi,
    ensures
        s.update(k, x).subrange(lo, hi) == s.subrange(lo, hi),
{
    assert(s.update(k, x).subrange(lo, hi) =~= s.subrange(lo, hi));
}

/// Writing inside a range changes one element of its multiset.
proof fn lemma_sub_update_inside(s: Seq<i32>, lo: int, hi: int, k: int, x: i32)
    requires
        0 <= lo <= k < hi <= s.len(),
    ensures
        s.update(k, x).subrange(lo, hi).to_multiset() == s.subrange(lo, hi).to_multiset().insert(x).remove(
            s[k],
        ),
{
    assert(s.update(k, x).subrange(lo, hi) =~= s.subrange(lo, hi).update(k - lo, x));
    to_multiset_update(s.subrange(lo, hi), k - lo, x);
}

/// Growing a range by one position at its end adds that element.
proof fn lemma_sub_extend_hi(s: Seq<i32>, lo: int, hi: int)
    requires
        0 <= lo <= hi < s.len(),
    ensures
        s.subrange(lo, hi + 1).to_multiset() == s.subrange(lo, hi).to_multiset().insert(s[hi]),
{
    assert(s.subrange(lo, hi + 1) =~= s.subrange(lo, hi).push(s[hi]));
    to_multiset_build(s.subrange(lo, hi), s[hi]);
}

/// Growing a range by one position at its start adds that element.
proof fn lemma_sub_extend_lo(s: Seq<i32>, lo: int, hi: int)
    requires
        1 <= lo <= hi <= s.len(),
    ensures
        s.subrange(lo - 1, hi).to_multiset() == s.subrange(lo, hi).to_multiset().insert(s[lo - 1]),
{
    broadcast use group_to_multiset_ensures;
    let t = s.subrange(lo, hi);
    assert(s.subrange(lo - 1, hi) =~= t.insert(0, s[lo - 1]));
    to_multiset_insert(t, 0, s[lo - 1]);
}

/// A position of the heap part is counted by it.
proof fn lemma_part_member(heap: Seq<i32>, len: int, i: int)
    requires
        1 <= i <= len < heap.len(),
    ensures
        heap_part(heap, len).count(heap[i]) > 0,
{
    lemma_sub_member(heap, 1, len + 1, i);
}

/// A position of the upper part is counted by it.
proof fn lemma_upper_member(heap: Seq<i32>, hm: int, h: int)
    requires
        0 <= hm <= h < HEAP_SIZE,
        heap.len() == HEAP_SIZE,
    ensures
        heap_upper(heap, hm).count(heap[h]) > 0,
{
    lemma_sub_member(heap, hm, HEAP_SIZE as int, h);
}

/// Taking the top off the heap: the last node moves to the top and the part shrinks.
proof fn lemma_part_pop(h0: Seq<i32>, len: int)
    requires
        1 <= len < h0.len(),
    ensures
        heap_part(h0.update(1, h0[len]), len - 1) == heap_part(h0, len).remove(h0[1]),
{
    broadcast use group_multiset_axioms;
    let last = h0[len];
    let n = h0[1];
    let h1 = h0.update(1, last);
    lemma_part_member(h0, len, 1);
    lemma_sub_update_inside(h0, 1, len + 1, 1, last);
    lemma_sub_extend_hi(h1, 1, len);
    let t = heap_part(h1, len - 1);
    let p = heap_part(h0, len);
    assert(h1.subrange(1, len + 1).to_multiset() == t.insert(last));
    assert forall|y: i32| t.count(y) == p.remove(n).count(y) by {
        assert(t.insert(last).count(y) == p.insert(last).remove(n).count(y));
    }
    assert(t =~= p.remove(n));
}

/// Writing at a position below the upper part leaves it alone.
proof fn lemma_upper_frame(h: Seq<i32>, hm: int, k: int, x: i32)
    requires
        0 <= k < hm <= HEAP_SIZE,
        h.len() == HEAP_SIZE,
    ensures
        heap_upper(h.update(k, x), hm) == heap_upper(h, hm),
{
    lemma_sub_update_outside(h, hm, HEAP_SIZE as int, k, x);
}

/// Writing at a position above the heap part leaves it alone.
proof fn lemma_part_frame(h: Seq<i32>, len: int, k: int, x: i32)
    requires
        0 <= len < k < h.len(),
    ensures
        heap_part(h.update(k, x), len) == heap_part(h, len),
{
    lemma_sub_update_outside(h, 1, len + 1, k, x);
}

/// Putting a node just below the upper part adds it to that part.
proof fn lemma_upper_push(h: Seq<i32>, hm: int, x: i32)
    requires
        1 <= hm <= HEAP_SIZE,
        h.len() == HEAP_SIZE,
    ensures
        heap_upper(h.update(hm - 1, x), hm - 1) == heap_upper(h, hm).insert(x),
{
    lemma_sub_extend_lo(h.update(hm - 1, x), hm, HEAP_SIZE as int);
    lemma_sub_update_outside(h, hm, HEAP_SIZE as int, hm - 1, x);
}

/// Node `n` may stand above node `m` in the heap (`smaller`): a lower frequency, or the
/// same frequency and a depth no greater.
pub open spec fn node_le(tree: Seq<CtData>, depth: Seq<u8>, n: int, m: int) -> bool {
    tree[n].fc < tree[m].fc || (tree[n].fc == tree[m].fc && depth[n] <= depth[m])
}

/// zlib's sift-down of node `v` from position `k` of `heap[1..=len]` (`pqdownheap`): while
/// `k` has a child, take the smaller child (the right one when it is `smaller` than the left,
/// so on a tie the right one), stop if `v` is `smaller` than it (ties stop), else move the
/// child up into `k` and go on from the child's position; finally put `v` at `k`.
pub open spec fn sift(heap: Seq<i32>, len: int, k: int, v: i32, tree: Seq<CtData>, depth: Seq<u8>) -> Seq<i32>
    decreases len - k,
{
    if k < 1 || 2 * k > len {
        heap.update(k, v)
    } else {
        let j = if 2 * k < len && node_le(tree, depth, heap[2 * k + 1] as int, heap[2 * k] as int) {
            2 * k + 1
        } else {
            2 * k
        };
        if node_le(tree, depth, v as int, heap[j] as int) {
            heap.update(k, v)
        } else {
            sift(heap.update(k, heap[j]), len, j, v, tree, depth)
        }
    }
}

/// In `heap[1..=len]`, every element whose parent is at position `k` or beyond stands below
/// its parent.
pub open spec fn heap_ordered_from(heap: Seq<i32>, len: int, tree: Seq<CtData>, depth: Seq<u8>, k: int) -> bool {
    forall|i: int|
        2 <= i <= len && i / 2 >= k ==> #[trigger] node_le(tree, depth, heap[i / 2] as int, heap[i] as int)
}

/// `smaller(tree, n, m, depth)`: heap order, frequency first and depth as tie breaker.
pub fn smaller(tree: &Vec<CtData>, n: i32, m: i32, depth: &Vec<u8>) -> (r: bool)
    requires
        0 <= n < tree.len(),
        0 <= m < tree.len(),
        tree.len() <= depth.len(),
    ensures
        r == (tree[n as int].fc < tree[m as int].fc || (tree[n as int].fc == tree[m as int].fc
            && depth[n as int] <= depth[m as int])),
{
    let nu: usize = n as usize;
    let mu: usize = m as usize;
    tree[nu].fc < tree[mu].fc || (tree[nu].fc == tree[mu].fc && depth[nu] <= depth[mu])
}

/// The three kinds of Huffman tree that a dynamic block uses.
#[derive(Clone, Copy)]
pub enum TreeKind {
    Literal,
    Distance,
    BitLength,
}

/// Number of symbols of a tree kind.
pub open spec fn spec_elems(kind: TreeKind) -> int {
    match kind {
        TreeKind::Literal => 286,
        TreeKind::Distance => 30,
        TreeKind::BitLength => 19,
    }
}

/// Longest code allowed in a tree kind.
pub open spec fn spec_max_length(kind: TreeKind) -> int {
    match kind {
        TreeKind::Literal => 15,
        TreeKind::Distance => 15,
        TreeKind::BitLength => 7,
    }
}

/// First symbol with extra bits.
pub open spec fn spec_extra_base(kind: TreeKind) -> int {
    match kind {
        TreeKind::Literal => 257,
        _ => 0,
    }
}

/// Extra bits of symbol `n`.
pub open spec fn spec_extra_of(kind: TreeKind, n: int) -> int {
    match kind {
        TreeKind::Literal => if n >= 257 { spec_extra_lbits(n - 257) } else { 0 },
        TreeKind::Distance => spec_extra_dbits(n),
        TreeKind::BitLength => spec_extra_blbits(n),
    }
}

/// The tree's storage: its symbols and the internal nodes, `2 * elems + 1` elements.
pub open spec fn spec_tree_len(kind: TreeKind) -> int {
    2 * spec_elems(kind) + 1
}

/// The static-tree description of one tree kind (zlib's `static_tree_desc`).
pub struct Desc {
    pub has_stree: bool,
    pub extra_base: usize,
    pub elems: usize,
    pub max_length: i32,
}

/// The description of a tree kind.
pub fn desc_for(kind: TreeKind) -> (d: Desc)
    ensures
        d.has_stree == !(kind is BitLength),
        d.extra_base == spec_extra_base(kind),
        d.elems == spec_elems(kind),
        d.max_length == spec_max_length(kind),
{
    match kind {
        TreeKind::Literal => Desc { has_stree: true, extra_base: LITERALS + 1, elems: L_CODES, max_length: MAX_BITS as i32 },
        TreeKind::Distance => Desc { has_stree: true, extra_base: 0, elems: D_CODES, max_length: MAX_BITS as i32 },
        TreeKind::BitLength => Desc { has_stree: false, extra_base: 0, elems: BL_CODES, max_length: MAX_BL_BITS as i32 },
    }
}

/// Extra bits of symbol `n` of a tree kind.
fn desc_extra(kind: TreeKind, n: usize) -> (r: i32)
    requires
        n < spec_elems(kind),
    ensures
        r == spec_extra_of(kind, n as int),
        0 <= r <= 13,
{
    match kind {
        TreeKind::Literal => if n >= LITERALS + 1 { extra_lbits(n - (LITERALS + 1)) } else { 0 },
        TreeKind::Distance => extra_dbits(n),
        TreeKind::BitLength => extra_blbits(n),
    }
}

/// Code length of symbol `n` in the static tree of a tree kind.
pub open spec fn spec_stree_len(sd: StaticData, kind: TreeKind, n: int) -> int {
    match kind {
        TreeKind::Literal => sd.static_ltree[n].dl as int,
        _ => sd.static_dtree[n].dl as int,
    }
}

/// The cost in bits of a symbol with the element's frequency and code length, extra bits
/// included.
pub open spec fn opt_wt(kind: TreeKind) -> spec_fn(int, CtData) -> int {
    |n: int, c: CtData| c.fc as int * (c.dl as int + spec_extra_of(kind, n))
}

/// The cost in bits of a symbol with the element's frequency and the static tree's code
/// length, extra bits included.
pub open spec fn static_wt(sd: StaticData, kind: TreeKind) -> spec_fn(int, CtData) -> int {
    |n: int, c: CtData| c.fc as int * (spec_stree_len(sd, kind, n) + spec_extra_of(kind, n))
}

/// The bits that zlib's estimate counts for a symbol whose frequency in `ot` is its own, or
/// which was forced into the tree with frequency 1 (counted one bit short).
pub open spec fn built_wt(ot: Seq<CtData>, kind: TreeKind) -> spec_fn(int, CtData) -> int {
    |n: int, c: CtData|
        if ot[n].fc != 0 {
            ot[n].fc as int * (c.dl as int + spec_extra_of(kind, n))
        } else if c.dl >= 1 {
            c.dl as int + spec_extra_of(kind, n) - 1
        } else {
            0
        }
}

/// 1 for a symbol forced into the tree: no frequency in `ot`, one now.
pub open spec fn forced_wt(ot: Seq<CtData>) -> spec_fn(int, CtData) -> int {
    |n: int, c: CtData| if ot[n].fc == 0 && c.fc != 0 { 1int } else { 0int }
}

/// The static code length of a symbol forced into the tree.
pub open spec fn forced_swt(ot: Seq<CtData>, sd: StaticData, kind: TreeKind) -> spec_fn(int, CtData) -> int {
    |n: int, c: CtData| if ot[n].fc == 0 && c.fc != 0 { spec_stree_len(sd, kind, n) } else { 0int }
}

/// The costs that `build_tree` leaves in `opt_len` and `static_len`, from the ones that
/// the forced symbols and `gen_bitlen` left there.
proof fn lemma_built_costs(
    ot: Seq<CtData>,
    t1: Seq<CtData>,
    t2: Seq<CtData>,
    t3: Seq<CtData>,
    tf: Seq<CtData>,
    kind: TreeKind,
    sd: StaticData,
    max_code: int,
    opt_i: int,
    st_i: int,
    o1: int,
    s1: int,
    opt_f: int,
    st_f: int,
)
    requires
        0 <= max_code < spec_elems(kind),
        ot.len() >= spec_elems(kind),
        t1.len() >= spec_elems(kind),
        t2.len() >= spec_elems(kind),
        t3.len() >= spec_elems(kind),
        tf.len() >= spec_elems(kind),
        forall|n: int|
            0 <= n < spec_elems(kind) ==> #[trigger] t1[n].fc == ot[n].fc || (ot[n].fc == 0 && t1[n].fc == 1 && n <= 2),
        forall|n: int| 0 <= n < spec_elems(kind) ==> #[trigger] t2[n].fc == t1[n].fc,
        forall|n: int| 0 <= n < spec_elems(kind) ==> #[trigger] t3[n].fc == t1[n].fc,
        forall|n: int| 0 <= n < spec_elems(kind) ==> #[trigger] tf[n].dl == t3[n].dl,
        forall|n: int| 0 <= n <= max_code && #[trigger] t1[n].fc != 0 ==> t3[n].dl >= 1,
        forall|n: int| 0 <= n <= max_code && #[trigger] t1[n].fc == 0 ==> t3[n].dl == 0,
        forall|n: int| max_code < n < spec_elems(kind) ==> #[trigger] t1[n].fc == 0,
        o1 == (opt_i - sym_sum(t1, spec_elems(kind), forced_wt(ot))) % 0x1_0000_0000,
        !(kind is BitLength) ==> s1 == (st_i - sym_sum(t1, spec_elems(kind), forced_swt(ot, sd, kind))) % 0x1_0000_0000,
        kind is BitLength ==> s1 == st_i,
        opt_f == (o1 + sym_sum(t3, max_code + 1, opt_wt(kind))) % 0x1_0000_0000,
        st_f == if kind is BitLength { s1 } else { (s1 + sym_sum(t2, max_code + 1, static_wt(sd, kind))) % 0x1_0000_0000 },
    ensures
        opt_f == (opt_i + sym_sum(tf, max_code + 1, built_wt(ot, kind))) % 0x1_0000_0000,
        st_f == if kind is BitLength { st_i } else { (st_i + sym_sum(ot, max_code + 1, static_wt(sd, kind))) % 0x1_0000_0000 },
{
    let m: int = 0x1_0000_0000;
    let lim = max_code + 1;
    let elems = spec_elems(kind);
    let wo = opt_wt(kind);
    let wf = forced_wt(ot);
    let wb = built_wt(ot, kind);
    // The forced symbols are below `lim`.
    assert forall|n: int| lim <= n < elems implies #[trigger] wf(n, t1[n]) == 0 by {}
    lemma_sym_sum_tail(t1, lim, elems, wf);
    assert forall|n: int| 0 <= n < lim implies #[trigger] wf(n, t1[n]) == wf(n, t3[n]) by {}
    lemma_sym_sum_ext(t1, t3, lim, wf, wf);
    assert forall|n: int| 0 <= n < lim implies #[trigger] wo(n, t3[n]) - wf(n, t3[n]) == wb(n, t3[n]) by {
        let x = spec_extra_of(kind, n);
        let c = t3[n];
        if ot[n].fc != 0 {
            assert(t1[n].fc == ot[n].fc);
        } else if t1[n].fc != 0 {
            assert(c.fc == 1);
            assert(c.dl >= 1);
            assert(wo(n, c) == 1 * (c.dl as int + x));
        } else {
            assert(c.dl == 0);
            assert(wo(n, c) == 0 * (c.dl as int + x));
        }
    }
    lemma_sym_sum_sub(t3, lim, wo, wf, wb);
    assert forall|n: int| 0 <= n < lim implies #[trigger] wb(n, t3[n]) == wb(n, tf[n]) by {}
    lemma_sym_sum_ext(t3, tf, lim, wb, wb);
    let so = sym_sum(t3, lim, wo);
    let nf = sym_sum(t1, elems, wf);
    vstd::arithmetic::div_mod::lemma_add_mod_noop(opt_i - nf, so, m);
    vstd::arithmetic::div_mod::lemma_mod_twice(opt_i - nf, m);
    vstd::arithmetic::div_mod::lemma_mod_twice(so, m);
    vstd::arithmetic::div_mod::lemma_add_mod_noop(o1, so, m);
    if !(kind is BitLength) {
        let ws = static_wt(sd, kind);
        let wfs = forced_swt(ot, sd, kind);
        assert forall|n: int| lim <= n < elems implies #[trigger] wfs(n, t1[n]) == 0 by {}
        lemma_sym_sum_tail(t1, lim, elems, wfs);
        assert forall|n: int| 0 <= n < lim implies #[trigger] wfs(n, t1[n]) == wfs(n, t2[n]) by {}
        lemma_sym_sum_ext(t1, t2, lim, wfs, wfs);
        assert forall|n: int| 0 <= n < lim implies #[trigger] ws(n, t2[n]) - wfs(n, t2[n]) == ws(n, ot[n]) by {
            let x = spec_extra_of(kind, n);
            let l = spec_stree_len(sd, kind, n);
            if ot[n].fc == 0 && t1[n].fc != 0 {
                assert(x == 0);
                assert(ws(n, t2[n]) == 1 * (l + x));
                assert(ws(n, ot[n]) == 0 * (l + x));
            } else if ot[n].fc == 0 {
                assert(ws(n, t2[n]) == 0 * (l + x));
                assert(ws(n, ot[n]) == 0 * (l + x));
            } else {
                assert(t2[n].fc == ot[n].fc);
            }
        }
        let ss = sym_sum(t2, lim, ws);
        let nfs = sym_sum(t1, elems, wfs);
        lemma_sym_sum_sub_trees(t2, ot, lim, ws, wfs, ws);
        vstd::arithmetic::div_mod::lemma_add_mod_noop(st_i - nfs, ss, m);
        vstd::arithmetic::div_mod::lemma_mod_twice(st_i - nfs, m);
        vstd::arithmetic::div_mod::lemma_mod_twice(ss, m);
        vstd::arithmetic::div_mod::lemma_add_mod_noop(s1, ss, m);
    }
}

/// A sum whose terms are differences of terms on one tree equals a sum on another tree.
proof fn lemma_sym_sum_sub_trees(
    ta: Seq<CtData>,
    tb: Seq<CtData>,
    t: int,
    w1: spec_fn(int, CtData) -> int,
    w2: spec_fn(int, CtData) -> int,
    w3: spec_fn(int, CtData) -> int,
)
    requires
        forall|n: int| 0 <= n < t ==> #[trigger] w1(n, ta[n]) - w2(n, ta[n]) == w3(n, tb[n]),
    ensures
        sym_sum(ta, t, w1) - sym_sum(ta, t, w2) == sym_sum(tb, t, w3),
    decreases t,
{
    if t > 0 {
        lemma_sym_sum_sub_trees(ta, tb, t - 1, w1, w2, w3);
        assert(w1(t - 1, ta[t - 1]) - w2(t - 1, ta[t - 1]) == w3(t - 1, tb[t - 1]));
    }
}

fn stree_len(sd: &StaticData, kind: TreeKind, n: usize) -> (r: u16)
    requires
        sd.wf(),
        !(kind is BitLength),
        n < spec_elems(kind),
    ensures
        r <= 9,
        r as int == spec_stree_len(*sd, kind, n as int),
{
    match kind {
        TreeKind::Literal => sd.static_ltree[n].dl,
        _ => sd.static_dtree[n].dl,
    }
}

/// What the combining loop of `build_tree` keeps about the nodes taken out so far, in
/// `heap[hm..]`, while `node` is the next internal node to create:
/// - every symbol of nonzero frequency and every internal node made so far is once in the
///   heap part or the upper part, and nothing else is;
/// - each node taken out has as parent (its `dl`) an internal node already made, which, when
///   taken out too, sits before it;
/// - each internal node made so far is the parent of exactly two nodes taken out.
pub open spec fn combine_inv(
    heap: Seq<i32>,
    len: int,
    hm: int,
    tree: Seq<CtData>,
    t1: Seq<CtData>,
    elems: int,
    node: int,
) -> bool {
    &&& forall|x: i32|
        #[trigger] heap_part(heap, len).count(x) + heap_upper(heap, hm).count(x) == if (0 <= x < elems && t1[x as int].fc
            != 0) || (elems <= x < node) {
            1nat
        } else {
            0nat
        }
    &&& forall|g: int| hm <= g < HEAP_SIZE ==> elems <= #[trigger] tree[heap[g] as int].dl < node
    &&& forall|g: int, p: int|
        #![trigger heap[p], tree[heap[g] as int]]
        hm <= g < HEAP_SIZE && hm <= p < HEAP_SIZE && heap[p] as int == tree[heap[g] as int].dl as int ==> p < g
    &&& forall|y: int| #[trigger] child_count(heap, tree, hm, y) == if elems <= y < node { 2int } else { 0 }
}

/// The number of symbols below `n` with a nonzero frequency in `t`.
pub open spec fn used_count(t: Seq<CtData>, n: int) -> int
    decreases n,
{
    if n <= 0 {
        0
    } else {
        used_count(t, n - 1) + if t[n - 1].fc != 0 { 1int } else { 0 }
    }
}

/// The largest symbol below `n` with a nonzero frequency in `t`, or -1.
pub open spec fn used_max(t: Seq<CtData>, n: int) -> int
    decreases n,
{
    if n <= 0 {
        -1
    } else if t[n - 1].fc != 0 {
        n - 1
    } else {
        used_max(t, n - 1)
    }
}

/// The symbols that `build_tree` adds with frequency 1 so that at least two get a code:
/// symbols 0 and 1 when no symbol is used; when one is, the symbol after it if it is 0 or
/// 1, else symbol 0.
pub open spec fn forced_sym(t: Seq<CtData>, elems: int, x: int) -> bool {
    let c = used_count(t, elems);
    let s = used_max(t, elems);
    ||| c == 0 && (x == 0 || x == 1)
    ||| c == 1 && s < 2 && x == s + 1
    ||| c == 1 && s >= 2 && x == 0
}

/// The largest symbol in the tree that `build_tree` builds from the frequencies `t`: the
/// largest one used, or the one added after it, or 1 when none is used.
pub open spec fn tree_max(t: Seq<CtData>, elems: int) -> int {
    let c = used_count(t, elems);
    let s = used_max(t, elems);
    if c >= 2 {
        s
    } else if c == 1 {
        if s < 2 { s + 1 } else { s }
    } else {
        1
    }
}

/// The symbols added so far, with `len` nodes on the heap.
pub open spec fn forced_by(t: Seq<CtData>, elems: int, len: int, x: int) -> bool {
    let c = used_count(t, elems);
    &&& forced_sym(t, elems, x)
    &&& c == 1 ==> len >= 2
    &&& c == 0 ==> if x == 0 { len >= 1 } else { len >= 2 }
}

/// No symbol below `n` is used when none is counted; when one is, it is the largest.
proof fn lemma_used(t: Seq<CtData>, n: int, x: int)
    requires
        0 <= x < n,
    ensures
        used_count(t, n) >= 0,
        used_count(t, n) == 0 ==> t[x].fc == 0,
        used_count(t, n) == 1 && x != used_max(t, n) ==> t[x].fc == 0,
        x > used_max(t, n) ==> t[x].fc == 0,
        t[x].fc != 0 ==> used_count(t, n) >= 1 && used_max(t, n) >= x,
        used_max(t, n) >= 0 ==> t[used_max(t, n)].fc != 0 && used_max(t, n) < n,
    decreases n,
{
    if x < n - 1 {
        lemma_used(t, n - 1, x);
        if used_max(t, n - 1) >= 0 {
            lemma_used(t, n - 1, used_max(t, n - 1));
        }
    } else if n - 1 > 0 {
        lemma_used(t, n - 1, 0);
        if used_max(t, n - 1) >= 0 {
            lemma_used(t, n - 1, used_max(t, n - 1));
        }
    } else {
        assert(used_count(t, 0) == 0);
        assert(used_max(t, 0) == -1);
    }
}

/// The symbols in `heap[lo..]` are those with a frequency in `t` and the ones `build_tree`
/// adds.
#[verifier::opaque]
pub open spec fn leaves_are(heap: Seq<i32>, lo: int, t: Seq<CtData>, elems: int) -> bool {
    forall|x: int| 0 <= x < elems ==> (#[trigger] at_pos(heap, lo, x) <==> (t[x].fc != 0 || forced_sym(t, elems, x)))
}

/// The symbols on the heap are those with a frequency, and the ones added.
proof fn lemma_leaf_set(heap: Seq<i32>, lo: int, ot: Seq<CtData>, t1: Seq<CtData>, elems: int, max_code: int)
    requires
        forall|x: int| 0 <= x < elems ==> (#[trigger] t1[x].fc != 0 <==> (ot[x].fc != 0 || forced_sym(ot, elems, x))),
        forall|m: int| max_code < m < elems ==> #[trigger] t1[m].fc == 0,
        forall|n: int| 0 <= n <= max_code && #[trigger] t1[n].fc != 0 ==> at_pos(heap, lo, n),
        forall|g: int| lo <= g < HEAP_SIZE && 0 <= #[trigger] heap[g] < elems ==> t1[heap[g] as int].fc != 0,
    ensures
        leaves_are(heap, lo, ot, elems),
{
    reveal(leaves_are);
    assert forall|x: int| 0 <= x < elems implies (#[trigger] at_pos(heap, lo, x) <==> (ot[x].fc != 0 || forced_sym(ot, elems, x))) by {
        if at_pos(heap, lo, x) {
            let g = choose|g: int| lo <= g < HEAP_SIZE && #[trigger] heap[g] as int == x;
            assert(t1[heap[g] as int].fc != 0);
        }
        if t1[x].fc != 0 {
            assert(x <= max_code);
        }
    }
}

/// A layout of merges that gives `tree`'s code lengths from the frequencies `f`: the nodes
/// in `heap[hm..]` are those zlib's heap takes off, in its order (`huffman_heap`); its
/// leaves are the symbols used in `f` and those `build_tree` adds, all at most `max_code`;
/// the merges follow Huffman's rule; the lengths are the depths limited to `max` bits; and
/// the other symbols have no code.
#[verifier::opaque]
pub open spec fn huffman_layout(
    f: Seq<CtData>,
    tree: Seq<CtData>,
    elems: int,
    max: int,
    heap: Seq<i32>,
    hm: int,
    depth: Seq<u8>,
    counts: Seq<u16>,
    max_code: int,
) -> bool {
    &&& 0 <= max_code < elems <= tree.len()
    &&& heap.subrange(hm, HEAP_SIZE as int) == huffman_heap(f, elems)
    &&& leaves_are(heap, hm + 1, f, elems)
    &&& forall|g: int| hm <= g < HEAP_SIZE ==> #[trigger] heap[g] <= max_code || heap[g] >= elems
    &&& huffman_merges(heap, hm, merge_weights(f, tree, elems), depth, elems)
    &&& limited_lengths(heap, hm, elems, max_code, max, counts, tree)
    &&& forall|x: int| 0 <= x < elems && f[x].fc == 0 && !forced_sym(f, elems, x) ==> !(1 <= #[trigger] tree[x].dl <= 15)
}

/// `tree`'s code lengths are those that `build_tree` gives the frequencies `f` of its
/// `elems` symbols, limited to `max` bits: the lengths of the Huffman tree of the symbols
/// used that zlib's heap builds, merge by merge, ties broken as zlib breaks them.
pub open spec fn huffman_code(f: Seq<CtData>, tree: Seq<CtData>, elems: int, max: int) -> bool {
    exists|heap: Seq<i32>, hm: int, depth: Seq<u8>, counts: Seq<u16>, max_code: int|
        #[trigger] huffman_layout(f, tree, elems, max, heap, hm, depth, counts, max_code)
}

/// The layout that `build_tree` leaves gives the lengths of a tree that only the lengths of
/// symbols without a code, or without a frequency, differ from.
proof fn lemma_huffman_code_intro(
    f: Seq<CtData>,
    t1: Seq<CtData>,
    t2: Seq<CtData>,
    elems: int,
    max: int,
    heap: Seq<i32>,
    hm: int,
    depth: Seq<u8>,
    counts: Seq<u16>,
    max_code: int,
)
    requires
        0 <= max_code < elems <= t1.len(),
        heap.subrange(hm, HEAP_SIZE as int) == huffman_heap(f, elems),
        leaves_are(heap, hm + 1, f, elems),
        forall|g: int| hm <= g < HEAP_SIZE ==> #[trigger] heap[g] <= max_code || heap[g] >= elems,
        huffman_merges(heap, hm, merge_weights(f, t1, elems), depth, elems),
        limited_lengths(heap, hm, elems, max_code, max, counts, t1),
        forall|x: int| 0 <= x < elems && f[x].fc == 0 && !forced_sym(f, elems, x) ==> #[trigger] t1[x].dl == 0,
        t2.len() == t1.len(),
        forall|x: int| 0 <= x < t1.len() ==> #[trigger] t2[x].fc == t1[x].fc,
        forall|x: int| 0 <= x <= max_code ==> #[trigger] t2[x].dl == t1[x].dl,
        forall|x: int| 0 <= x < elems && #[trigger] t2[x].dl != t1[x].dl ==> !(1 <= t2[x].dl <= 15),
    ensures
        huffman_code(f, t2, elems, max),
{
    reveal(limited_lengths);
    assert(merge_weights(f, t2, elems) =~= merge_weights(f, t1, elems));
    assert forall|g: int|
        hm < g < HEAP_SIZE && 0 <= heap[g] <= max_code implies #[trigger] t2[heap[g] as int].dl == t1[heap[g] as int].dl by {}
    assert(limited_lengths(heap, hm, elems, max_code, max, counts, t2));
    assert forall|x: int| 0 <= x < elems && f[x].fc == 0 && !forced_sym(f, elems, x) implies !(1 <= #[trigger] t2[x].dl <= 15) by {
        assert(t1[x].dl == 0);
    }
    reveal(huffman_layout);
    assert(huffman_layout(f, t2, elems, max, heap, hm, depth, counts, max_code));
}

/// The merges of `build_tree`, as laid out in `heap[hm..]`: at step `i` the two nodes taken
/// off the heap go to positions `HEAP_SIZE - 1 - 2i` and `HEAP_SIZE - 2 - 2i`, and the
/// internal node `elems + i` made of them has the sum of their frequencies (in 16 bits) and
/// one more than the larger of their depths (in 8 bits). Huffman's rule: each node taken off
/// stands no higher, by frequency then depth, than any node still on the heap then, that is
/// one at an earlier position that existed by then (a symbol, or a node made earlier).
#[verifier::opaque]
pub open spec fn huffman_merges(heap: Seq<i32>, hm: int, tree: Seq<CtData>, depth: Seq<u8>, elems: int) -> bool {
    &&& forall|i: int|
        0 <= i && hm <= HEAP_SIZE - 2 - 2 * i ==> #[trigger] tree[elems + i].fc as int == (tree[heap[HEAP_SIZE - 1
            - 2 * i] as int].fc + tree[heap[HEAP_SIZE - 2 - 2 * i] as int].fc) % 0x10000 && depth[elems + i] as int
            == (max_depth(depth, heap[HEAP_SIZE - 1 - 2 * i] as int, heap[HEAP_SIZE - 2 - 2 * i] as int) + 1) % 0x100
    &&& forall|q: int, g: int|
        #![trigger heap[q], heap[g]]
        hm < q < HEAP_SIZE && hm <= g < q && heap[g] < elems + (HEAP_SIZE - 1 - q) / 2 ==> node_le(
            tree,
            depth,
            heap[q] as int,
            heap[g] as int,
        )
}

/// The larger depth of nodes `a` and `b`.
pub open spec fn max_depth(depth: Seq<u8>, a: int, b: int) -> int {
    if depth[a] >= depth[b] { depth[a] as int } else { depth[b] as int }
}

/// The frequencies that `build_tree` merged, read from the tree it was given and the one it
/// leaves: a symbol's frequency (1 for a symbol it had to add), and the sum it stored in
/// each internal node.
pub open spec fn merge_weights(old_tree: Seq<CtData>, tree: Seq<CtData>, elems: int) -> Seq<CtData> {
    Seq::new(
        tree.len(),
        |x: int|
            CtData {
                fc: if x < elems {
                    if old_tree[x].fc != 0 { old_tree[x].fc } else { 1u16 }
                } else {
                    tree[x].fc
                },
                dl: 0u16,
            },
    )
}

/// The merges read only the frequencies of the nodes in the tree.
proof fn lemma_merges_frame(heap: Seq<i32>, hm: int, ta: Seq<CtData>, tb: Seq<CtData>, depth: Seq<u8>, elems: int)
    requires
        huffman_merges(heap, hm, ta, depth, elems),
        forall|g: int| hm <= g < HEAP_SIZE ==> #[trigger] tb[heap[g] as int].fc == ta[heap[g] as int].fc,
        forall|i: int| 0 <= i && hm <= HEAP_SIZE - 2 - 2 * i ==> #[trigger] tb[elems + i].fc == ta[elems + i].fc,
    ensures
        huffman_merges(heap, hm, tb, depth, elems),
{
    reveal(huffman_merges);
    assert forall|i: int| 0 <= i && hm <= HEAP_SIZE - 2 - 2 * i implies #[trigger] tb[elems + i].fc as int == (tb[heap[HEAP_SIZE - 1
        - 2 * i] as int].fc + tb[heap[HEAP_SIZE - 2 - 2 * i] as int].fc) % 0x10000 && depth[elems + i] as int == (max_depth(
        depth,
        heap[HEAP_SIZE - 1 - 2 * i] as int,
        heap[HEAP_SIZE - 2 - 2 * i] as int,
    ) + 1) % 0x100 by {
        assert(ta[elems + i].fc as int == (ta[heap[HEAP_SIZE - 1 - 2 * i] as int].fc + ta[heap[HEAP_SIZE - 2 - 2 * i] as int].fc)
            % 0x10000);
        assert(tb[elems + i].fc == ta[elems + i].fc);
        assert(tb[heap[HEAP_SIZE - 1 - 2 * i] as int].fc == ta[heap[HEAP_SIZE - 1 - 2 * i] as int].fc);
        assert(tb[heap[HEAP_SIZE - 2 - 2 * i] as int].fc == ta[heap[HEAP_SIZE - 2 - 2 * i] as int].fc);
    }
    assert forall|q: int, g: int|
        hm < q < HEAP_SIZE && hm <= g < q && heap[g] < elems + (HEAP_SIZE - 1 - q) / 2 implies node_le(
        tb,
        depth,
        #[trigger] heap[q] as int,
        #[trigger] heap[g] as int,
    ) by {
        assert(node_le(ta, depth, heap[q] as int, heap[g] as int));
        assert(tb[heap[q] as int].fc == ta[heap[q] as int].fc);
        assert(tb[heap[g] as int].fc == ta[heap[g] as int].fc);
    }
}

/// The root, made at the last step, goes just below the nodes taken off.
proof fn lemma_merges_root(h7: Seq<i32>, hm7: int, t: Seq<CtData>, d: Seq<u8>, elems: int, k: int)
    requires
        huffman_merges(h7, hm7, t, d, elems),
        h7.len() == HEAP_SIZE,
        k >= 1,
        0 <= elems < 1000,
        2 <= hm7 == HEAP_SIZE - 2 * k,
    ensures
        huffman_merges(h7.update(hm7 - 1, (elems + k - 1) as i32), hm7 - 1, t, d, elems),
{
    reveal(huffman_merges);
    let h8 = h7.update(hm7 - 1, (elems + k - 1) as i32);
    assert forall|i: int| 0 <= i && hm7 - 1 <= HEAP_SIZE - 2 - 2 * i implies #[trigger] t[elems + i].fc as int == (t[h8[HEAP_SIZE - 1
        - 2 * i] as int].fc + t[h8[HEAP_SIZE - 2 - 2 * i] as int].fc) % 0x10000 && d[elems + i] as int == (max_depth(
        d,
        h8[HEAP_SIZE - 1 - 2 * i] as int,
        h8[HEAP_SIZE - 2 - 2 * i] as int,
    ) + 1) % 0x100 by {
        assert(hm7 <= HEAP_SIZE - 2 - 2 * i);
        assert(h8[HEAP_SIZE - 1 - 2 * i] == h7[HEAP_SIZE - 1 - 2 * i]);
        assert(h8[HEAP_SIZE - 2 - 2 * i] == h7[HEAP_SIZE - 2 - 2 * i]);
        assert(t[elems + i].fc as int == (t[h7[HEAP_SIZE - 1 - 2 * i] as int].fc + t[h7[HEAP_SIZE - 2 - 2 * i] as int].fc)
            % 0x10000);
    }
    assert forall|q: int, g: int|
        hm7 - 1 < q < HEAP_SIZE && hm7 - 1 <= g < q && h8[g] < elems + (HEAP_SIZE - 1 - q) / 2 implies node_le(
        t,
        d,
        #[trigger] h8[q] as int,
        #[trigger] h8[g] as int,
    ) by {
        assert((HEAP_SIZE - 1 - q) / 2 <= k - 1);
        assert(g != hm7 - 1);
        assert(h8[q] == h7[q]);
        assert(h8[g] == h7[g]);
        assert(node_le(t, d, h7[q] as int, h7[g] as int));
    }
}

/// The parents that the merges give: the node at position `q` in `heap[hm+1..]` is a child
/// of the node made at step `(HEAP_SIZE - 1 - q) / 2`.
pub open spec fn merge_tree(heap: Seq<i32>, hm: int, elems: int) -> Seq<CtData> {
    Seq::new(
        HEAP_SIZE as nat,
        |x: int| CtData { fc: 0u16, dl: (elems + (HEAP_SIZE - 1 - pos_after(heap, hm, x)) / 2) as u16 },
    )
}

/// A position in `heap[hm+1..]` that holds `x`.
pub open spec fn pos_after(heap: Seq<i32>, hm: int, x: int) -> int {
    choose|q: int| hm < q < HEAP_SIZE && heap[q] as int == x
}

/// The code lengths that `gen_bitlen` gives the symbols below `max_code + 1` of the tree that
/// the merges lay out in `heap[hm..]`, limited to `max` bits, with `counts` the number of
/// symbols of each length: each symbol's depth when no node is deeper than `max`; else the
/// counts of the capped depths, repaired as zlib does, given out from the end of the heap
/// back, the longest lengths first.
#[verifier::opaque]
pub open spec fn limited_lengths(
    heap: Seq<i32>,
    hm: int,
    elems: int,
    max_code: int,
    max: int,
    counts: Seq<u16>,
    tree: Seq<CtData>,
) -> bool {
    let mt = merge_tree(heap, hm, elems);
    let ov = over_count(heap, hm, mt, HEAP_SIZE as int, max);
    &&& forall|b: int|
        1 <= b < 16 ==> #[trigger] counts[b] as int == repair(depth_counts(heap, hm, mt, max_code + 1, max), max, ov)[b]
    &&& forall|g: int|
        hm < g < HEAP_SIZE && 0 <= heap[g] <= max_code ==> #[trigger] tree[heap[g] as int].dl as int == if ov == 0 {
            depth_at(heap, hm, mt, g)
        } else {
            len_by_rank(counts, max, leaf_count(heap, g + 1, HEAP_SIZE as int, max_code + 1))
        }
}

/// In the tree of the merges, a node's parent is the one made at the step that took it off.
proof fn lemma_merge_tree_dl(heap: Seq<i32>, hm: int, elems: int, g: int)
    requires
        heap.len() == HEAP_SIZE,
        distinct_from(heap, hm),
        0 <= hm < g < HEAP_SIZE,
        0 <= heap[g] < HEAP_SIZE,
        0 <= elems < 1000,
    ensures
        merge_tree(heap, hm, elems)[heap[g] as int].dl as int == elems + (HEAP_SIZE - 1 - g) / 2,
{
    let x = heap[g] as int;
    assert(exists|q: int| hm < q < HEAP_SIZE && heap[q] as int == x) by {
        assert(hm < g < HEAP_SIZE && heap[g] as int == x);
    }
    let q = pos_after(heap, hm, x);
    if q != g {
        assert(heap[q] != heap[g]);
    }
    assert(q == g);
    let v: int = elems + (HEAP_SIZE - 1 - g) / 2;
    assert(0 <= v < 0x10000);
    assert(merge_tree(heap, hm, elems)[x] == CtData { fc: 0u16, dl: v as u16 });
}

/// One merge records its parent in the two nodes it takes off.
proof fn lemma_dads_step(
    h0: Seq<i32>,
    len0: int,
    hm0: int,
    t0: Seq<CtData>,
    hn: Seq<i32>,
    tn: Seq<CtData>,
    elems: int,
    node0: int,
    n: i32,
    m: i32,
)
    requires
        h0.len() == HEAP_SIZE,
        1 <= len0 < hm0 - 2,
        hm0 <= HEAP_SIZE,
        0 <= elems <= node0,
        hm0 == HEAP_SIZE - 2 * (node0 - elems),
        forall|g: int| hm0 <= g < HEAP_SIZE ==> #[trigger] t0[h0[g] as int].dl as int == elems + (HEAP_SIZE - 1 - g) / 2,
        forall|g: int| hm0 <= g < HEAP_SIZE ==> #[trigger] hn[g] == h0[g],
        hn[hm0 - 1] == n,
        hn[hm0 - 2] == m,
        heap_part(h0, len0).count(n) > 0,
        heap_part(h0, len0).count(m) > 0,
        forall|x: i32| #[trigger] heap_part(h0, len0).count(x) + heap_upper(h0, hm0).count(x) <= 1,
        forall|x: i32| #[trigger] heap_upper(h0, hm0).count(x) > 0 ==> x < node0,
        forall|x: int| 0 <= x < tn.len() && x != n && x != m && x != node0 ==> #[trigger] tn[x].dl == t0[x].dl,
        tn.len() == t0.len(),
        0 <= n < tn.len(),
        0 <= m < tn.len(),
        tn[n as int].dl == node0,
        tn[m as int].dl == node0,
        forall|g: int| hm0 <= g < HEAP_SIZE ==> 0 <= #[trigger] h0[g] < t0.len(),
    ensures
        forall|g: int| hm0 - 2 <= g < HEAP_SIZE ==> #[trigger] tn[hn[g] as int].dl as int == elems + (HEAP_SIZE - 1 - g) / 2,
{
    assert forall|g: int| hm0 - 2 <= g < HEAP_SIZE implies #[trigger] tn[hn[g] as int].dl as int == elems + (HEAP_SIZE - 1 - g)
        / 2 by {
        if g >= hm0 {
            let x = h0[g];
            lemma_upper_member(h0, hm0, g);
            assert(heap_upper(h0, hm0).count(x) > 0);
            assert(x != n);
            assert(x != m);
            assert(x != node0 as i32);
            assert(tn[x as int].dl == t0[x as int].dl);
            assert(t0[h0[g] as int].dl as int == elems + (HEAP_SIZE - 1 - g) / 2);
        }
    }
}

/// Every node taken off the heap (at a position `hm..`) stands no higher than each node in
/// `heap[1..=len]` that existed when it was taken off.
#[verifier::opaque]
pub open spec fn below_removed(heap: Seq<i32>, len: int, hm: int, tree: Seq<CtData>, depth: Seq<u8>, elems: int) -> bool {
    forall|q: int, j: int|
        #![trigger heap[q], heap[j]]
        hm <= q < HEAP_SIZE && 1 <= j <= len && heap[j] < elems + (HEAP_SIZE - 1 - q) / 2 ==> node_le(
            tree,
            depth,
            heap[q] as int,
            heap[j] as int,
        )
}

/// The top of an ordered heap stands no higher than any of its nodes.
proof fn lemma_heap_min(heap: Seq<i32>, len: int, tree: Seq<CtData>, depth: Seq<u8>, j: int)
    requires
        heap_ordered_from(heap, len, tree, depth, 1),
        1 <= j <= len,
    ensures
        node_le(tree, depth, heap[1] as int, heap[j] as int),
    decreases j,
{
    if j > 1 {
        lemma_heap_min(heap, len, tree, depth, j / 2);
        assert(node_le(tree, depth, heap[j / 2] as int, heap[j] as int));
    }
}

/// Changing the frequencies and depths only of nodes from `node` on keeps the order of the
/// heap's lower levels, with a new node at the top.
proof fn lemma_order_new_top(
    heap: Seq<i32>,
    hnew: Seq<i32>,
    len: int,
    t0: Seq<CtData>,
    d0: Seq<u8>,
    t1: Seq<CtData>,
    d1: Seq<u8>,
    node: int,
)
    requires
        heap_ordered_from(heap, len, t0, d0, 1),
        forall|j: int| 2 <= j <= len ==> #[trigger] hnew[j] == heap[j],
        forall|j: int| 1 <= j <= len ==> 0 <= #[trigger] heap[j] < node,
        forall|y: int| 0 <= y < node ==> #[trigger] t1[y].fc == t0[y].fc,
        forall|y: int| 0 <= y < node ==> #[trigger] d1[y] == d0[y],
    ensures
        heap_ordered_from(hnew, len, t1, d1, 2),
{
    assert forall|i: int| 2 <= i <= len && i / 2 >= 2 implies #[trigger] node_le(t1, d1, hnew[i / 2] as int, hnew[i] as int) by {
        assert(node_le(t0, d0, heap[i / 2] as int, heap[i] as int));
        assert(hnew[i / 2] == heap[i / 2]);
        assert(hnew[i] == heap[i]);
        assert(0 <= heap[i / 2] < node);
        assert(0 <= heap[i] < node);
        assert(t1[heap[i / 2] as int].fc == t0[heap[i / 2] as int].fc);
        assert(t1[heap[i] as int].fc == t0[heap[i] as int].fc);
        assert(d1[heap[i / 2] as int] == d0[heap[i / 2] as int]);
        assert(d1[heap[i] as int] == d0[heap[i] as int]);
    }
}

/// Taking the top off (the last node moved up) leaves the lower levels ordered.
proof fn lemma_order_pop(h0: Seq<i32>, len: int, t: Seq<CtData>, d: Seq<u8>)
    requires
        heap_ordered_from(h0, len, t, d, 1),
        1 <= len < h0.len(),
    ensures
        heap_ordered_from(h0.update(1, h0[len]), len - 1, t, d, 2),
{
    let h = h0.update(1, h0[len]);
    assert forall|i: int| 2 <= i <= len - 1 && i / 2 >= 2 implies #[trigger] node_le(t, d, h[i / 2] as int, h[i] as int) by {
        assert(node_le(t, d, h0[i / 2] as int, h0[i] as int));
    }
}

/// One merge keeps Huffman's rule: the top of the heap goes off first, then the new top,
/// and the node made of them has their frequencies summed and one more than their depth.
#[verifier::spinoff_prover]
#[verifier::rlimit(40)]
proof fn lemma_merge_step(
    h0: Seq<i32>,
    len0: int,
    hm0: int,
    t0: Seq<CtData>,
    d0: Seq<u8>,
    h3: Seq<i32>,
    hn: Seq<i32>,
    tn: Seq<CtData>,
    dn: Seq<u8>,
    elems: int,
    node0: int,
    n: i32,
    m: i32,
)
    requires
        h0.len() == HEAP_SIZE,
        h3.len() == HEAP_SIZE,
        hn.len() == HEAP_SIZE,
        2 <= len0,
        len0 + 2 < hm0 <= HEAP_SIZE,
        0 <= elems <= node0 < 1000,
        hm0 == HEAP_SIZE - 2 * (node0 - elems),
        heap_ordered_from(h0, len0, t0, d0, 1),
        huffman_merges(h0, hm0, t0, d0, elems),
        below_removed(h0, len0, hm0, t0, d0, elems),
        n == h0[1],
        heap_part(h3, len0 - 1) == heap_part(h0, len0).remove(n),
        heap_ordered_from(h3, len0 - 1, t0, d0, 1),
        m == h3[1],
        hn[hm0 - 1] == n,
        hn[hm0 - 2] == m,
        forall|g: int| hm0 <= g < HEAP_SIZE ==> #[trigger] hn[g] == h0[g],
        heap_part(hn, len0 - 1) == heap_part(h3, len0 - 1).insert(node0 as i32).remove(m),
        forall|x: i32| #[trigger] heap_part(h0, len0).count(x) > 0 ==> 0 <= x < node0,
        forall|x: i32| #[trigger] heap_part(h0, len0).count(x) <= 1,
        forall|g: int| hm0 <= g < HEAP_SIZE ==> 0 <= #[trigger] h0[g] < node0,
        node0 < tn.len(),
        node0 < dn.len(),
        tn.len() == t0.len(),
        dn.len() == d0.len(),
        forall|y: int| 0 <= y < node0 ==> #[trigger] tn[y].fc == t0[y].fc,
        forall|y: int| 0 <= y < node0 ==> #[trigger] dn[y] == d0[y],
        tn[node0].fc as int == (t0[n as int].fc + t0[m as int].fc) % 0x10000,
        dn[node0] as int == (max_depth(d0, n as int, m as int) + 1) % 0x100,
    ensures
        huffman_merges(hn, hm0 - 2, tn, dn, elems),
        below_removed(hn, len0 - 1, hm0 - 2, tn, dn, elems),
{
    reveal(huffman_merges);
    reveal(below_removed);
    broadcast use group_multiset_axioms;
    let p0 = heap_part(h0, len0);
    let p1 = heap_part(h3, len0 - 1);
    lemma_part_member(h0, len0, 1);
    lemma_part_member(h3, len0 - 1, 1);
    assert(p1.count(m) > 0);
    assert(p0.count(m) > 0);
    let jm = lemma_sub_witness(h0, 1, len0 + 1, m);
    lemma_heap_min(h0, len0, t0, d0, jm);
    assert(0 <= n < node0);
    assert(0 <= m < node0);
    let k = node0 - elems;
    // The sums and depths of the nodes made so far.
    assert forall|i: int| 0 <= i && hm0 - 2 <= HEAP_SIZE - 2 - 2 * i implies #[trigger] tn[elems + i].fc as int == (tn[hn[HEAP_SIZE
        - 1 - 2 * i] as int].fc + tn[hn[HEAP_SIZE - 2 - 2 * i] as int].fc) % 0x10000 && dn[elems + i] as int == (max_depth(
        dn,
        hn[HEAP_SIZE - 1 - 2 * i] as int,
        hn[HEAP_SIZE - 2 - 2 * i] as int,
    ) + 1) % 0x100 by {
        if i < k {
            let a = h0[HEAP_SIZE - 1 - 2 * i];
            let b = h0[HEAP_SIZE - 2 - 2 * i];
            assert(t0[elems + i].fc as int == (t0[a as int].fc + t0[b as int].fc) % 0x10000);
            assert(hn[HEAP_SIZE - 1 - 2 * i] == a);
            assert(hn[HEAP_SIZE - 2 - 2 * i] == b);
            assert(tn[a as int].fc == t0[a as int].fc);
            assert(tn[b as int].fc == t0[b as int].fc);
            assert(dn[a as int] == d0[a as int]);
            assert(dn[b as int] == d0[b as int]);
            assert(tn[elems + i].fc == t0[elems + i].fc);
            assert(dn[elems + i] == d0[elems + i]);
        } else {
            assert(i == k);
            assert(tn[n as int].fc == t0[n as int].fc);
            assert(tn[m as int].fc == t0[m as int].fc);
            assert(dn[n as int] == d0[n as int]);
            assert(dn[m as int] == d0[m as int]);
        }
    }
    // Huffman's rule among the nodes taken off.
    assert forall|q: int, g: int|
        hm0 - 2 < q < HEAP_SIZE && hm0 - 2 <= g < q && hn[g] < elems + (HEAP_SIZE - 1 - q) / 2 implies node_le(
        tn,
        dn,
        #[trigger] hn[q] as int,
        #[trigger] hn[g] as int,
    ) by {
        let x = hn[q];
        let y = hn[g];
        if q >= hm0 {
            assert(x == h0[q]);
            assert(0 <= x < node0);
            if g >= hm0 {
                assert(y == h0[g]);
                assert(node_le(t0, d0, h0[q] as int, h0[g] as int));
            } else if g == hm0 - 1 {
                assert(node_le(t0, d0, h0[q] as int, h0[1] as int));
            } else {
                assert(node_le(t0, d0, h0[q] as int, h0[jm] as int));
            }
            assert(tn[x as int].fc == t0[x as int].fc);
            assert(tn[y as int].fc == t0[y as int].fc);
            assert(dn[x as int] == d0[x as int]);
            assert(dn[y as int] == d0[y as int]);
        } else {
            assert(q == hm0 - 1 && g == hm0 - 2);
            assert(tn[n as int].fc == t0[n as int].fc);
            assert(tn[m as int].fc == t0[m as int].fc);
            assert(dn[n as int] == d0[n as int]);
            assert(dn[m as int] == d0[m as int]);
        }
    }
    // Every node taken off stands no higher than the nodes left on the heap.
    assert forall|q: int, j: int|
        hm0 - 2 <= q < HEAP_SIZE && 1 <= j <= len0 - 1 && hn[j] < elems + (HEAP_SIZE - 1 - q) / 2 implies node_le(
        tn,
        dn,
        #[trigger] hn[q] as int,
        #[trigger] hn[j] as int,
    ) by {
        let x = hn[q];
        let y = hn[j];
        lemma_part_member(hn, len0 - 1, j);
        assert((HEAP_SIZE - 1 - q) / 2 <= k);
        assert(y != node0 as i32);
        assert(p1.count(y) > 0);
        assert(p1.count(m) <= p0.count(m));
        assert(y != m);
        assert(p0.count(y) > 0);
        assert(0 <= y < node0);
        let j0 = lemma_sub_witness(h0, 1, len0 + 1, y);
        if q >= hm0 {
            assert(x == h0[q]);
            assert(node_le(t0, d0, h0[q] as int, h0[j0] as int));
        } else if q == hm0 - 1 {
            lemma_heap_min(h0, len0, t0, d0, j0);
        } else {
            let j3 = lemma_sub_witness(h3, 1, len0, y);
            lemma_heap_min(h3, len0 - 1, t0, d0, j3);
        }
        assert(0 <= x < node0);
        assert(tn[x as int].fc == t0[x as int].fc);
        assert(tn[y as int].fc == t0[y as int].fc);
        assert(dn[x as int] == d0[x as int]);
        assert(dn[y as int] == d0[y as int]);
    }
}

/// A range in which no value is counted twice holds no value twice.
proof fn lemma_distinct_of_counts(s: Seq<i32>, lo: int)
    requires
        0 <= lo <= HEAP_SIZE,
        s.len() == HEAP_SIZE,
        forall|x: i32| #[trigger] s.subrange(lo, HEAP_SIZE as int).to_multiset().count(x) <= 1,
    ensures
        distinct_from(s, lo),
{
    assert forall|g1: int, g2: int| lo <= g1 < HEAP_SIZE && lo <= g2 < HEAP_SIZE && g1 != g2 implies #[trigger] s[g1]
        != #[trigger] s[g2] by {
        if s[g1] == s[g2] {
            let i = if g1 < g2 { g1 } else { g2 };
            let j = if g1 < g2 { g2 } else { g1 };
            let a = s.subrange(lo, j);
            let b = s.subrange(j, HEAP_SIZE as int);
            assert(s.subrange(lo, HEAP_SIZE as int) =~= a + b);
            vstd::seq_lib::lemma_multiset_commutative(a, b);
            lemma_sub_member(s, lo, j, i);
            lemma_sub_member(s, j, HEAP_SIZE as int, j);
            broadcast use group_multiset_axioms;
            assert(s.subrange(lo, HEAP_SIZE as int).to_multiset().count(s[i]) >= 2);
        }
    }
}

/// One round of combining keeps `combine_inv`: `n` and `m` leave the heap part for the
/// upper part with parent `node`, which enters the heap part.
proof fn lemma_combine_step(
    h0: Seq<i32>,
    len0: int,
    hm0: int,
    t0: Seq<CtData>,
    hf: Seq<i32>,
    tf: Seq<CtData>,
    t1: Seq<CtData>,
    elems: int,
    node0: int,
    n: i32,
    m: i32,
)
    requires
        combine_inv(h0, len0, hm0, t0, t1, elems, node0),
        h0.len() == HEAP_SIZE,
        hf.len() == HEAP_SIZE,
        1 <= len0,
        len0 + 2 < hm0 <= HEAP_SIZE,
        elems <= node0 < 1000,
        heap_part(h0, len0).count(n) > 0,
        heap_part(h0, len0).remove(n).count(m) > 0,
        heap_part(hf, len0 - 1) == heap_part(h0, len0).remove(n).insert(node0 as i32).remove(m),
        heap_upper(hf, hm0 - 2) == heap_upper(h0, hm0).insert(n).insert(m),
        hf[hm0 - 1] == n,
        hf[hm0 - 2] == m,
        forall|g: int| hm0 <= g < HEAP_SIZE ==> #[trigger] hf[g] == h0[g],
        tf.len() == t0.len(),
        forall|x: int| 0 <= x < tf.len() && x != n && x != m && x != node0 ==> #[trigger] tf[x].dl == t0[x].dl,
        0 <= n < tf.len(),
        0 <= m < tf.len(),
        tf[n as int].dl == node0,
        tf[m as int].dl == node0,
        forall|g: int| hm0 <= g < HEAP_SIZE ==> 0 <= #[trigger] h0[g] < t0.len(),
    ensures
        combine_inv(hf, len0 - 1, hm0 - 2, tf, t1, elems, node0 + 1),
{
    broadcast use group_multiset_axioms;
    let p0 = heap_part(h0, len0);
    let up0 = heap_upper(h0, hm0);
    let pf = heap_part(hf, len0 - 1);
    let upf = heap_upper(hf, hm0 - 2);
    assert(p0.count(n) + up0.count(n) <= 1);
    assert(p0.count(n) == 1 && up0.count(n) == 0);
    assert(p0.remove(n).count(m) > 0);
    assert(m != n);
    assert(p0.count(m) == 1 && up0.count(m) == 0);
    assert(p0.count(node0 as i32) + up0.count(node0 as i32) == 0);
    assert forall|x: i32| #[trigger] pf.count(x) + upf.count(x) == if (0 <= x < elems && t1[x as int].fc != 0) || (elems
        <= x < node0 + 1) {
        1nat
    } else {
        0nat
    } by {
        assert(p0.count(x) + up0.count(x) == if (0 <= x < elems && t1[x as int].fc != 0) || (elems <= x < node0) {
            1nat
        } else {
            0nat
        });
    }
    // The nodes already in the upper part are none of `n`, `m`, `node0`.
    assert forall|g: int| hm0 <= g < HEAP_SIZE implies #[trigger] tf[hf[g] as int].dl == t0[h0[g] as int].dl by {
        lemma_sub_member(h0, hm0, HEAP_SIZE as int, g);
        let x = h0[g];
        assert(up0.count(x) > 0);
        assert(x != n && x != m);
        assert(x as int != node0);
    }
    assert forall|g: int| hm0 - 2 <= g < HEAP_SIZE implies elems <= #[trigger] tf[hf[g] as int].dl < node0 + 1 by {
        if g >= hm0 {
            assert(tf[hf[g] as int].dl == t0[h0[g] as int].dl);
        }
    }
    assert forall|g: int, p: int|
        #![trigger hf[p], tf[hf[g] as int]]
        hm0 - 2 <= g < HEAP_SIZE && hm0 - 2 <= p < HEAP_SIZE && hf[p] as int == tf[hf[g] as int].dl as int implies p < g by {
        if g >= hm0 {
            assert(tf[hf[g] as int].dl == t0[h0[g] as int].dl);
            if p >= hm0 {
                assert(h0[p] == hf[p]);
            }
        } else {
            // The parent of `n` and `m` is `node0`, which is in no part yet.
            if p >= hm0 {
                lemma_sub_member(h0, hm0, HEAP_SIZE as int, p);
                assert(up0.count(hf[p]) > 0);
            } else {
                assert(p == hm0 - 1 || p == hm0 - 2);
                assert(p0.count(hf[p]) > 0);
            }
        }
    }
    assert forall|y: int| #[trigger] child_count(hf, tf, hm0 - 2, y) == if elems <= y < node0 + 1 { 2int } else {
        0
    } by {
        assert forall|g: int| hm0 <= g < HEAP_SIZE implies #[trigger] hf[g] == h0[g] && tf[hf[g] as int].dl == t0[hf[g] as int].dl by {
            assert(tf[hf[g] as int].dl == t0[h0[g] as int].dl);
        }
        lemma_child_count_frame(hf, tf, h0, t0, hm0, y);
        assert(child_count(hf, tf, hm0 - 2, y) == (if tf[m as int].dl as int == y { 1int } else { 0 }) + child_count(
            hf,
            tf,
            hm0 - 1,
            y,
        ));
        assert(child_count(hf, tf, hm0 - 1, y) == (if tf[n as int].dl as int == y { 1int } else { 0 }) + child_count(
            hf,
            tf,
            hm0,
            y,
        ));
    }
}

/// With the root put just below the upper part, `heap[hm..]` has the shape `gen_bitlen`
/// reads.
proof fn lemma_shape_final(
    h7: Seq<i32>,
    hm7: int,
    tree: Seq<CtData>,
    t1: Seq<CtData>,
    elems: int,
    node: int,
    max_code: int,
)
    requires
        combine_inv(h7, 1, hm7, tree, t1, elems, node),
        h7.len() == HEAP_SIZE,
        3 <= hm7 <= HEAP_SIZE,
        0 <= max_code < elems < node,
        h7[1] as int == node - 1,
        forall|g: int|
            hm7 - 1 <= g < HEAP_SIZE ==> 0 <= #[trigger] h7.update(hm7 - 1, h7[1])[g] < tree.len() && (h7.update(
                hm7 - 1,
                h7[1],
            )[g] <= max_code || h7.update(hm7 - 1, h7[1])[g] >= elems),
    ensures
        tree_shape(h7.update(hm7 - 1, h7[1]), hm7 - 1, tree, elems, max_code),
{
    broadcast use group_multiset_axioms;
    let root = h7[1];
    let h8 = h7.update(hm7 - 1, root);
    let hm8 = hm7 - 1;
    let p7 = heap_part(h7, 1);
    let up7 = heap_upper(h7, hm7);
    lemma_part_member(h7, 1, 1);
    lemma_upper_push(h7, hm7, root);
    assert(heap_upper(h8, hm8) == up7.insert(root));
    assert(p7.count(root) + up7.count(root) == 1);
    assert(up7.count(root) == 0);
    assert forall|x: i32| #[trigger] h8.subrange(hm8, HEAP_SIZE as int).to_multiset().count(x) <= 1 by {
        assert(p7.count(x) + up7.count(x) <= 1);
    }
    lemma_distinct_of_counts(h8, hm8);
    assert forall|g: int| hm7 <= g < HEAP_SIZE implies #[trigger] h8[g] == h7[g] by {}
    assert forall|g: int| hm8 < g < HEAP_SIZE implies #[trigger] has_dad(h8, hm8, tree, g) by {
        let y = tree[h8[g] as int].dl as int;
        assert(h8[g] == h7[g]);
        assert(elems <= tree[h7[g] as int].dl < node);
        let yi = y as i32;
        assert(p7.count(yi) + up7.count(yi) == 1);
        if up7.count(yi) > 0 {
            let p = lemma_sub_witness(h7, hm7, HEAP_SIZE as int, yi);
            assert(h7[p] as int == tree[h7[g] as int].dl as int);
            assert(p < g);
            assert(h8[p] == h7[p]);
            assert(h8[p] as int == tree[h8[g] as int].dl as int);
        } else {
            let i = lemma_sub_witness(h7, 1, 2, yi);
            assert(i == 1);
            assert(h8[hm8] as int == tree[h8[g] as int].dl as int);
        }
    }
    assert forall|p: int| hm8 <= p < HEAP_SIZE implies #[trigger] child_count(h8, tree, hm8 + 1, h8[p] as int) == if h8[p]
        >= elems {
        2int
    } else {
        0
    } by {
        lemma_child_count_frame(h8, tree, h7, tree, hm7, h8[p] as int);
        assert(child_count(h7, tree, hm7, h8[p] as int) == if elems <= h8[p] < node { 2int } else { 0 });
        if p > hm8 {
            lemma_sub_member(h7, hm7, HEAP_SIZE as int, p);
            assert(up7.count(h7[p]) > 0);
            assert(p7.count(h7[p]) + up7.count(h7[p]) == if (0 <= h7[p] < elems && t1[h7[p] as int].fc != 0) || (
            elems <= h7[p] < node) {
                1nat
            } else {
                0nat
            });
        }
    }
}

impl DeflateState {
    /// The heap arrays have their sizes.
    pub open spec fn heap_arrays_ok(&self) -> bool {
        &&& self.heap.len() == HEAP_SIZE
        &&& self.depth.len() == HEAP_SIZE
        &&& self.bl_count.len() == MAX_BITS + 1
    }

    /// `gen_bitlen(tree)`: compute the code lengths of the tree in `heap[heap_max..]`,
    /// limited to the kind's maximum length, count them in `bl_count`, and add the block's
    /// cost with these codes and with the static codes to `opt_len` and `static_len`.
    ///
    /// Every node in `heap[heap_max + 1..]` that is a symbol gets a length in
    /// `1..=max_length`; no other symbol's length changes except to such a value.
    /// `bl_count[b]` is the number of symbols given length `b`, and these counts fill the
    /// Kraft inequality exactly: the lengths are those of a complete prefix code.
    ///
    /// Exactly: each internal node's `dl` becomes its depth, capped at `max_length`. When no
    /// node is deeper than `max_length`, each symbol's length is its depth. Otherwise the
    /// counts of the capped depths are repaired as zlib does (`repair`), and the symbols,
    /// from the end of the heap back, get the longest lengths first (`len_by_rank`).
    pub fn gen_bitlen(&mut self, tree: &mut Vec<CtData>, kind: TreeKind, max_code: i32)
        requires
            old(self).heap_arrays_ok(),
            old(self).sd.wf(),
            old(tree).len() == spec_tree_len(kind),
            0 <= max_code < spec_elems(kind),
            1 <= old(self).heap_max < HEAP_SIZE,
            forall|h: int|
                old(self).heap_max <= h < HEAP_SIZE ==> 0 <= #[trigger] old(self).heap[h] < old(tree).len()
                    && (old(self).heap[h] <= max_code || old(self).heap[h] >= spec_elems(kind)),
            old(self).heap[old(self).heap_max as int] > max_code,
            forall|h: int|
                old(self).heap_max < h < HEAP_SIZE ==> (#[trigger] old(tree)[old(self).heap[h] as int]).dl
                    < old(tree).len(),
            tree_shape(old(self).heap@, old(self).heap_max as int, old(tree)@, spec_elems(kind), max_code as int),
            HEAP_SIZE - old(self).heap_max <= 2 * spec_elems(kind),
            forall|n: int|
                0 <= n <= max_code && #[trigger] old(tree)[n].fc != 0 ==> at_pos(
                    old(self).heap@,
                    old(self).heap_max + 1,
                    n,
                ),
        ensures
            *final(self) == (DeflateState {
                bl_count: final(self).bl_count,
                opt_len: final(self).opt_len,
                static_len: final(self).static_len,
                ..*old(self)
            }),
            final(self).bl_count.len() == MAX_BITS + 1,
            final(tree).len() == old(tree).len(),
            forall|n: int| 0 <= n < final(tree).len() ==> #[trigger] final(tree)[n].fc == old(tree)[n].fc,
            forall|n: int|
                0 <= n <= max_code ==> #[trigger] final(tree)[n].dl == old(tree)[n].dl || (1
                    <= final(tree)[n].dl <= spec_max_length(kind)),
            forall|n: int|
                max_code < n < spec_elems(kind) ==> #[trigger] final(tree)[n] == old(tree)[n],
            forall|h: int|
                old(self).heap_max < h < HEAP_SIZE && old(self).heap[h] <= max_code ==> 1 <= (
                #[trigger] final(tree)[old(self).heap[h] as int]).dl <= spec_max_length(kind),
            forall|b: int|
                1 <= b < 16 ==> #[trigger] final(self).bl_count[b] as int == len_count(
                    old(self).heap@,
                    final(tree)@,
                    old(self).heap_max + 1,
                    HEAP_SIZE as int,
                    max_code + 1,
                    b,
                ),
            final(self).bl_count[0] == 0,
            forall|b: int| spec_max_length(kind) < b < 16 ==> #[trigger] final(self).bl_count[b] == 0,
            kraft_sum(final(self).bl_count@, spec_max_length(kind), spec_max_length(kind) + 1) == pow2(
                spec_max_length(kind) as nat,
            ),
            forall|n: int|
                0 <= n < final(tree).len() && #[trigger] final(tree)[n].dl != old(tree)[n].dl ==> at_pos(
                    old(self).heap@,
                    old(self).heap_max as int,
                    n,
                ),
            final(self).opt_len as int == (old(self).opt_len + sym_sum(final(tree)@, max_code + 1, opt_wt(kind)))
                % 0x1_0000_0000,
            final(self).static_len as int == if kind is BitLength {
                old(self).static_len as int
            } else {
                (old(self).static_len + sym_sum(old(tree)@, max_code + 1, static_wt(old(self).sd, kind))) % 0x1_0000_0000
            },
            forall|g: int|
                old(self).heap_max <= g < HEAP_SIZE && old(self).heap[g] > max_code ==> #[trigger] final(tree)[old(
                self).heap[g] as int].dl as int == capped(
                    depth_at(old(self).heap@, old(self).heap_max as int, old(tree)@, g),
                    spec_max_length(kind),
                ),
            forall|b: int|
                1 <= b < 16 ==> #[trigger] final(self).bl_count[b] as int == repair(
                    depth_counts(old(self).heap@, old(self).heap_max as int, old(tree)@, max_code + 1, spec_max_length(kind)),
                    spec_max_length(kind),
                    over_count(old(self).heap@, old(self).heap_max as int, old(tree)@, HEAP_SIZE as int, spec_max_length(kind)),
                )[b],
            forall|g: int|
                old(self).heap_max < g < HEAP_SIZE && 0 <= old(self).heap[g] <= max_code ==> #[trigger] final(tree)[old(
                self).heap[g] as int].dl as int == if over_count(
                    old(self).heap@,
                    old(self).heap_max as int,
                    old(tree)@,
                    HEAP_SIZE as int,
                    spec_max_length(kind),
                ) == 0 {
                    depth_at(old(self).heap@, old(self).heap_max as int, old(tree)@, g)
                } else {
                    len_by_rank(
                        final(self).bl_count@,
                        spec_max_length(kind),
                        leaf_count(old(self).heap@, g + 1, HEAP_SIZE as int, max_code + 1),
                    )
                },
    {
        let d: Desc = desc_for(kind);
        let base: usize = d.extra_base;
        let max_length: i32 = d.max_length;
        let mut overflow: i32 = 0;
        let ghost old_tree = tree@;
        let ghost hm = self.heap_max as int;
        let ghost old_heap = self.heap@;
        let ghost elems = spec_elems(kind);
        let ghost mx = spec_max_length(kind);
        let ghost lim = max_code + 1;
        let ghost opt0 = self.opt_len as int;
        let ghost st0 = self.static_len as int;
        let ghost wopt = opt_wt(kind);
        let ghost wst = static_wt(self.sd, kind);
        assert(2 <= mx <= 15);
        proof {
            vstd::arithmetic::div_mod::lemma_small_mod(opt0 as nat, 0x1_0000_0000nat);
            vstd::arithmetic::div_mod::lemma_small_mod(st0 as nat, 0x1_0000_0000nat);
        }

        let mut bits: usize = 0;
        while bits <= MAX_BITS
            invariant
                self.heap_arrays_ok(),
                *self == (DeflateState { bl_count: self.bl_count, ..*old(self) }),
                bits <= MAX_BITS + 1,
                forall|b: int| 0 <= b < bits ==> #[trigger] self.bl_count[b] == 0,
            decreases MAX_BITS + 1 - bits,
        {
            self.bl_count.set(bits, 0);
            bits += 1;
        }

        // The root of the heap has length 0.
        let root: usize = self.heap[self.heap_max] as usize;
        let rd: CtData = CtData { fc: tree[root].fc, dl: 0 };
        tree.set(root, rd);
        proof {
            lemma_walk_start(old_heap, hm, old_tree, elems, max_code as int, mx, self.bl_count@);
            lemma_count_sum_tail(self.bl_count@, 0, 16);
            assert forall|g: int| hm + 1 <= g < HEAP_SIZE implies #[trigger] tree[old_heap[g] as int].dl
                == old_tree[old_heap[g] as int].dl by {
                assert(old_heap[g] != old_heap[hm]);
            }
            assert forall|n: int| 0 <= n < tree.len() && #[trigger] tree[n].dl != old_tree[n].dl implies at_pos(
                old_heap,
                hm,
                n,
            ) by {
                assert(old_heap[hm] as int == n);
            }
        }

        let mut h: usize = self.heap_max + 1;
        while h < HEAP_SIZE
            invariant
                self.heap@ == old_heap,
                self.heap_max == hm,
                self.heap_arrays_ok(),
                self.sd.wf(),
                *self == (DeflateState {
                    bl_count: self.bl_count,
                    opt_len: self.opt_len,
                    static_len: self.static_len,
                    ..*old(self)
                }),
                hm < h <= HEAP_SIZE,
                0 <= overflow <= h,
                d.extra_base == spec_extra_base(kind),
                d.max_length == spec_max_length(kind),
                d.has_stree == !(kind is BitLength),
                base == d.extra_base,
                max_length == d.max_length,
                tree.len() == old_tree.len(),
                old_tree.len() == spec_tree_len(kind),
                0 <= max_code < spec_elems(kind),
                forall|g: int|
                    hm <= g < HEAP_SIZE ==> 0 <= #[trigger] old_heap[g] < old_tree.len() && (old_heap[g]
                        <= max_code || old_heap[g] >= spec_elems(kind)),
                old_heap[hm] > max_code,
                forall|g: int| hm < g < HEAP_SIZE ==> (#[trigger] tree[old_heap[g] as int]).dl < tree.len(),
                forall|n: int| 0 <= n < tree.len() ==> #[trigger] tree[n].fc == old_tree[n].fc,
                forall|n: int|
                    0 <= n <= max_code ==> #[trigger] tree[n].dl == old_tree[n].dl || (1 <= tree[n].dl
                        <= spec_max_length(kind)),
                forall|n: int| max_code < n < spec_elems(kind) ==> #[trigger] tree[n] == old_tree[n],
                forall|g: int|
                    hm < g < h && old_heap[g] <= max_code ==> 1 <= (#[trigger] tree[old_heap[g] as int]).dl
                        <= spec_max_length(kind),
                tree_shape(old_heap, hm, old_tree, elems, max_code as int),
                elems == spec_elems(kind),
                mx == spec_max_length(kind),
                2 <= mx <= 15,
                lim == max_code + 1,
                HEAP_SIZE - hm <= 2 * elems,
                forall|g: int|
                    hm <= g < h ==> #[trigger] tree[old_heap[g] as int].dl as int == capped(
                        depth_at(old_heap, hm, old_tree, g),
                        mx,
                    ),
                forall|g: int|
                    h <= g < HEAP_SIZE ==> #[trigger] tree[old_heap[g] as int].dl == old_tree[old_heap[g] as int].dl,
                forall|b: int|
                    0 <= b < 16 ==> #[trigger] self.bl_count[b] as int == len_count(old_heap, tree@, hm + 1, h as int, lim, b),
                self.bl_count[0] == 0,
                forall|b: int| mx < b < 16 ==> #[trigger] self.bl_count[b] == 0,
                count_sum(self.bl_count@, 16) == leaf_count(old_heap, hm + 1, h as int, lim),
                overflow == over_count(old_heap, hm, old_tree, h as int, mx),
                walk_inv(old_heap, hm, old_tree, elems, mx, h as int, self.bl_count@, overflow as int),
                forall|n: int| 0 <= n < tree.len() && #[trigger] tree[n].dl != old_tree[n].dl ==> at_pos(old_heap, hm, n),
                opt0 == old(self).opt_len,
                st0 == old(self).static_len,
                wopt == opt_wt(kind),
                wst == static_wt(old(self).sd, kind),
                self.opt_len as int == (opt0 + pos_sum(old_heap, tree@, hm + 1, h as int, lim, wopt)) % 0x1_0000_0000,
                self.static_len as int == if d.has_stree {
                    (st0 + pos_sum(old_heap, old_tree, hm + 1, h as int, lim, wst)) % 0x1_0000_0000
                } else {
                    st0
                },
            decreases HEAP_SIZE - h,
        {
            let ghost c0 = self.bl_count@;
            let ghost tr0 = tree@;
            let ghost ov0 = overflow as int;
            let ghost dep = depth_at(old_heap, hm, old_tree, h as int);
            let n: usize = self.heap[h] as usize;
            let dad: usize = tree[n].dl as usize;
            proof {
                assert(has_dad(old_heap, hm, old_tree, h as int));
                lemma_dad(old_heap, hm, old_tree, h as int);
                let p = dad_pos(old_heap, hm, old_tree, h as int);
                assert(old_heap[p] as int == dad);
                assert(tree[old_heap[p] as int].dl as int == capped(depth_at(old_heap, hm, old_tree, p), mx));
                lemma_depth_nonneg(old_heap, hm, old_tree, p);
                lemma_over_count_bound(old_heap, hm, old_tree, h as int, mx);
                lemma_leaf_count_nonneg(old_heap, hm + 1, h as int, lim);
            }
            let mut bits: i32 = tree[dad].dl as i32 + 1;
            if bits > max_length {
                bits = max_length;
                overflow += 1;
            }
            proof {
                assert(bits as int == capped(dep, mx));
                assert(overflow as int == ov0 + if dep > mx { 1int } else { 0 });
            }
            let nd: CtData = CtData { fc: tree[n].fc, dl: bits as u16 };
            tree.set(n, nd);
            if n as i32 <= max_code {
                proof {
                    lemma_count_sum_ge(c0, 16, bits as int);
                }
                self.bl_count.set(bits as usize, self.bl_count[bits as usize].wrapping_add(1));
                let mut xbits: i32 = 0;
                if n >= base {
                    xbits = desc_extra(kind, n);
                }
                let f: u32 = tree[n].fc as u32;
                let ghost o1 = self.opt_len;
                let ghost p1 = pos_sum(old_heap, tr0, hm + 1, h as int, lim, wopt);
                proof {
                    let k = (bits + xbits) as int;
                    assert(0 <= f * k <= 65535 * 28) by (nonlinear_arith)
                        requires
                            0 <= f <= 65535,
                            0 <= k <= 28,
                    ;
                    vstd::arithmetic::div_mod::lemma_small_mod((f * k) as nat, 0x1_0000_0000nat);
                }
                self.opt_len = self.opt_len.wrapping_add(f.wrapping_mul((bits + xbits) as u32));
                proof {
                    lemma_wrap_acc(o1, opt0, p1, f * (bits + xbits), self.opt_len);
                }
                if d.has_stree {
                    let sl: u16 = stree_len(&self.sd, kind, n);
                    let ghost s1 = self.static_len;
                    proof {
                        let k = (sl as i32 + xbits) as int;
                        assert(0 <= f * k <= 65535 * 28) by (nonlinear_arith)
                            requires
                                0 <= f <= 65535,
                                0 <= k <= 28,
                        ;
                        vstd::arithmetic::div_mod::lemma_small_mod((f * k) as nat, 0x1_0000_0000nat);
                    }
                    self.static_len = self.static_len.wrapping_add(f.wrapping_mul((sl as i32 + xbits) as u32));
                    proof {
                        lemma_wrap_acc(
                            s1,
                            st0,
                            pos_sum(old_heap, old_tree, hm + 1, h as int, lim, wst),
                            f * (sl + xbits),
                            self.static_len,
                        );
                    }
                }
            }
            proof {
                let hh = h as int;
                lemma_pos_sum_hi(old_heap, tree@, hm + 1, hh, lim, wopt);
                lemma_pos_sum_frame(old_heap, tree@, tr0, hm + 1, hh, lim, wopt);
                lemma_pos_sum_hi(old_heap, old_tree, hm + 1, hh, lim, wst);
                assert(tree@[n as int].fc == old_tree[n as int].fc);
                lemma_walk_step(old_heap, hm, old_tree, elems, max_code as int, mx, hh, c0, ov0, self.bl_count@, overflow as int);
                assert forall|g: int| hm <= g < hh implies #[trigger] tree@[old_heap[g] as int] == tr0[old_heap[g] as int] by {
                    assert(old_heap[g] != old_heap[hh]);
                }
                assert forall|b: int| 0 <= b < 16 implies #[trigger] self.bl_count[b] as int == len_count(
                    old_heap,
                    tree@,
                    hm + 1,
                    hh + 1,
                    lim,
                    b,
                ) by {
                    lemma_len_count_hi(old_heap, tree@, hm + 1, hh, lim, b);
                    lemma_len_count_frame(old_heap, tree@, tr0, hm + 1, hh, lim, b);
                }
                lemma_leaf_count_hi(old_heap, hm + 1, hh, lim);
                if n as i32 <= max_code {
                    lemma_count_sum_update(c0, 16, bits as int, (c0[bits as int] + 1) as u16);
                }
                assert forall|g: int| hh + 1 <= g < HEAP_SIZE implies #[trigger] tree[old_heap[g] as int].dl
                    == old_tree[old_heap[g] as int].dl by {
                    assert(old_heap[g] != old_heap[hh]);
                }
                assert forall|n2: int| 0 <= n2 < tree.len() && #[trigger] tree[n2].dl != old_tree[n2].dl implies at_pos(
                    old_heap,
                    hm,
                    n2,
                ) by {
                    if n2 == n {
                        assert(old_heap[hh] as int == n2);
                    } else {
                        assert(tr0[n2].dl != old_tree[n2].dl);
                    }
                }
            }
            h += 1;
        }
        proof {
            lemma_walk_end(old_heap, hm, old_tree, elems, mx, self.bl_count@, overflow as int);
            lemma_pow2_unfold((mx + 1) as nat);
            assert forall|g1: int, g2: int|
                hm + 1 <= g1 < HEAP_SIZE && hm + 1 <= g2 < HEAP_SIZE && g1 != g2 implies #[trigger] old_heap[g1]
                != #[trigger] old_heap[g2] by {}
            assert(distinct_from(old_heap, hm + 1));
            assert forall|x: int| 0 <= x < lim && #[trigger] wopt(x, tree@[x]) != 0 implies at_pos(old_heap, hm + 1, x) by {
                let c = tree@[x];
                assert(wopt(x, c) == c.fc as int * (c.dl as int + spec_extra_of(kind, x)));
                if c.fc == 0 {
                    assert(wopt(x, c) == 0);
                }
                assert(old_tree[x].fc != 0);
            }
            lemma_pos_sum_symbols(old_heap, tree@, hm + 1, lim, wopt);
            assert forall|x: int| 0 <= x < lim && #[trigger] wst(x, old_tree[x]) != 0 implies at_pos(old_heap, hm + 1, x) by {
                let c = old_tree[x];
                assert(wst(x, c) == c.fc as int * (spec_stree_len(old(self).sd, kind, x) + spec_extra_of(kind, x)));
                if c.fc == 0 {
                    assert(wst(x, c) == 0);
                }
            }
            lemma_pos_sum_symbols(old_heap, old_tree, hm + 1, lim, wst);
        }
        let ghost o_end = self.opt_len;
        let ghost s_end = self.static_len;
        let ghost init = depth_counts(old_heap, hm, old_tree, lim, mx);
        let ghost ov0 = overflow as int;
        let ghost t1 = tree@;
        proof {
            assert forall|b: int| 0 <= b < 16 implies #[trigger] self.bl_count[b] as int == init[b] by {
                lemma_len_count_depth(old_heap, hm, old_tree, tree@, hm + 1, HEAP_SIZE as int, lim, mx, b);
            }
            assert(count_ints(self.bl_count@) =~= init);
        }
        if overflow == 0 {
            proof {
                assert forall|g: int|
                    hm < g < HEAP_SIZE && 0 <= old_heap[g] <= max_code implies #[trigger] tree[old_heap[g] as int].dl as int
                    == depth_at(old_heap, hm, old_tree, g) by {
                    lemma_over_count_zero(old_heap, hm, old_tree, HEAP_SIZE as int, mx, g);
                }
            }
            return;
        }

        let ghost nleaves = leaf_count(old_heap, hm + 1, HEAP_SIZE as int, lim);
        proof {
            lemma_leaf_count_nonneg(old_heap, hm + 1, HEAP_SIZE as int, lim);
            vstd::arithmetic::power2::lemma2_to64();
            assert(nleaves < pow2(mx as nat));
        }

        // Find the first bit length which could increase, and move one leaf down the
        // tree and one overflow item up as its brother; the search stops at length 0,
        // which it never reaches: while some node is too deep the Kraft sum exceeds
        // `2^max`, and the leaves alone at length `max` cannot make it so.
        loop
            invariant_except_break
                0 < overflow <= HEAP_SIZE,
                2 * self.bl_count[mx] - overflow >= 2,
            invariant
                self.heap@ == old_heap,
                self.heap_max == hm,
                self.heap_arrays_ok(),
                *self == (DeflateState {
                    bl_count: self.bl_count,
                    opt_len: self.opt_len,
                    static_len: self.static_len,
                    ..*old(self)
                }),
                max_length == mx,
                2 <= mx <= 15,
                0 <= overflow,
                2 * kraft_sum(self.bl_count@, mx, mx + 1) == pow2((mx + 1) as nat) + overflow,
                pow2((mx + 1) as nat) == 2 * pow2(mx as nat),
                count_sum(self.bl_count@, 16) == nleaves,
                nleaves < pow2(mx as nat),
                0 <= nleaves <= HEAP_SIZE,
                self.bl_count[0] == 0,
                forall|b: int| mx < b < 16 ==> #[trigger] self.bl_count[b] == 0,
                self.opt_len == o_end,
                self.static_len == s_end,
                repair(count_ints(self.bl_count@), mx, overflow as int) == repair(init, mx, ov0),
            ensures
                overflow == 0,
            decreases overflow,
        {
            let mut bits: i32 = max_length - 1;
            while bits > 0 && self.bl_count[bits as usize] == 0
                invariant
                    0 <= bits < max_length,
                    max_length == mx,
                    2 <= mx <= 15,
                    self.bl_count.len() == MAX_BITS + 1,
                    forall|b: int| bits < b < mx ==> #[trigger] self.bl_count[b] == 0,
                    top_nonzero(count_ints(self.bl_count@), mx - 1) == top_nonzero(count_ints(self.bl_count@), bits as int),
                decreases bits,
            {
                bits -= 1;
            }
            let ghost c0 = self.bl_count@;
            assert(top_nonzero(count_ints(c0), mx - 1) == bits);
            proof {
                if bits == 0 {
                    lemma_kraft_sum_zero(c0, mx, mx);
                    assert(pow2(0) == 1) by { vstd::arithmetic::power2::lemma2_to64(); }
                    let x = c0[mx] as int;
                    let p0 = pow2(0) as int;
                    assert(x * p0 == x) by (nonlinear_arith)
                        requires
                            p0 == 1,
                    ;
                    assert(kraft_sum(c0, mx, mx + 1) == kraft_sum(c0, mx, mx) + x * pow2((mx - mx) as nat) as int);
                    assert(kraft_sum(c0, mx, mx + 1) == c0[mx] as int);
                    lemma_count_sum_ge(c0, 16, mx);
                    assert(false);
                }
                lemma_count_sum_ge(c0, 16, bits as int + 1);
                lemma_count_sum_ge(c0, 16, mx);
            }
            let b: usize = bits as usize;
            self.bl_count.set(b, self.bl_count[b].wrapping_sub(1));
            let ghost c1 = self.bl_count@;
            self.bl_count.set(b + 1, self.bl_count[b + 1].wrapping_add(2));
            let ghost c2 = self.bl_count@;
            let ml: usize = max_length as usize;
            self.bl_count.set(ml, self.bl_count[ml].wrapping_sub(1));
            proof {
                let bi = b as int;
                lemma_kraft_sum_update(c0, mx, mx + 1, bi, c1[bi]);
                lemma_kraft_sum_update(c1, mx, mx + 1, bi + 1, c2[bi + 1]);
                lemma_kraft_sum_update(c2, mx, mx + 1, mx, self.bl_count[mx]);
                lemma_count_sum_update(c0, 16, bi, c1[bi]);
                lemma_count_sum_update(c1, 16, bi + 1, c2[bi + 1]);
                lemma_count_sum_update(c2, 16, mx, self.bl_count[mx]);
                lemma_pow2_unfold((mx - bi) as nat);
                assert(pow2(0) == 1) by { vstd::arithmetic::power2::lemma2_to64(); }
                let pw = pow2((mx - bi - 1) as nat) as int;
                let pw2 = pow2((mx - bi) as nat) as int;
                let p0 = pow2(0) as int;
                assert(pw2 == 2 * pw);
                assert(c1[bi] as int == c0[bi] - 1);
                assert(c2[bi + 1] as int == c1[bi + 1] + 2);
                assert(self.bl_count[mx] as int == c2[mx] - 1);
                let d1: int = c1[bi] - c0[bi];
                let d2: int = c2[bi + 1] - c1[bi + 1];
                let d3: int = self.bl_count[mx] - c2[mx];
                assert(d1 * pw2 == -pw2 && d2 * pw == 2 * pw && d3 * p0 == -1) by (nonlinear_arith)
                    requires
                        d1 == -1,
                        d2 == 2,
                        d3 == -1,
                        p0 == 1,
                ;
                let ci = count_ints(c0);
                let ci1 = ci.update(bi, ci[bi] - 1);
                let ci2 = ci1.update(bi + 1, ci1[bi + 1] + 2);
                assert(count_ints(self.bl_count@) =~= ci2.update(mx, ci2[mx] - 1));
            }
            overflow -= 2;
            if overflow <= 0 {
                break;
            }
        }

        // Recompute all bit lengths, scanning in increasing frequency: the last
        // `bl_count[max]` leaves get length `max`, the ones before them `max - 1`, and so on.
        proof {
            lemma_count_sum_tail(self.bl_count@, mx + 1, 16);
        }
        let ghost cnt = self.bl_count@;
        let mut h: usize = HEAP_SIZE;
        let mut bits: i32 = max_length;
        while bits >= 1
            invariant
                self.heap@ == old_heap,
                self.heap_max == hm,
                self.heap_arrays_ok(),
                *self == (DeflateState {
                    bl_count: self.bl_count,
                    opt_len: self.opt_len,
                    static_len: self.static_len,
                    ..*old(self)
                }),
                0 <= bits <= max_length,
                max_length == spec_max_length(kind),
                hm < h <= HEAP_SIZE,
                tree.len() == old_tree.len(),
                old_tree.len() == spec_tree_len(kind),
                0 <= max_code < spec_elems(kind),
                forall|g: int|
                    hm <= g < HEAP_SIZE ==> 0 <= #[trigger] old_heap[g] < old_tree.len() && (old_heap[g]
                        <= max_code || old_heap[g] >= spec_elems(kind)),
                forall|n: int| 0 <= n < tree.len() ==> #[trigger] tree[n].fc == old_tree[n].fc,
                forall|n: int|
                    0 <= n <= max_code ==> #[trigger] tree[n].dl == old_tree[n].dl || (1 <= tree[n].dl
                        <= spec_max_length(kind)),
                forall|n: int| max_code < n < spec_elems(kind) ==> #[trigger] tree[n] == old_tree[n],
                forall|g: int|
                    hm < g < HEAP_SIZE && old_heap[g] <= max_code ==> 1 <= (#[trigger] tree[old_heap[g] as int]).dl
                        <= spec_max_length(kind),
                tree_shape(old_heap, hm, old_tree, elems, max_code as int),
                mx == spec_max_length(kind),
                2 <= mx <= 15,
                lim == max_code + 1,
                self.bl_count@ == cnt,
                cnt.len() == 16,
                cnt[0] == 0,
                forall|b: int| mx < b < 16 ==> #[trigger] cnt[b] == 0,
                kraft_sum(cnt, mx, mx + 1) == pow2(mx as nat),
                self.static_len == s_end,
                distinct_from(old_heap, hm + 1),
                wopt == opt_wt(kind),
                opt0 == old(self).opt_len,
                self.opt_len as int == (opt0 + pos_sum(old_heap, tree@, hm + 1, HEAP_SIZE as int, lim, wopt)) % 0x1_0000_0000,
                leaf_count(old_heap, hm + 1, h as int, lim) == count_sum(cnt, bits + 1),
                count_sum(cnt, 16) == leaf_count(old_heap, hm + 1, HEAP_SIZE as int, lim),
                forall|g: int|
                    hm <= g < HEAP_SIZE && old_heap[g] > max_code ==> #[trigger] tree[old_heap[g] as int].dl as int
                        == capped(depth_at(old_heap, hm, old_tree, g), mx),
                forall|g: int|
                    h <= g < HEAP_SIZE && 0 <= old_heap[g] < lim ==> #[trigger] tree[old_heap[g] as int].dl as int
                        == len_by_rank(cnt, mx, leaf_count(old_heap, g + 1, HEAP_SIZE as int, lim)),
                forall|b: int|
                    1 <= b < 16 ==> #[trigger] len_count(old_heap, tree@, h as int, HEAP_SIZE as int, lim, b) == if bits
                        < b <= mx {
                        cnt[b] as int
                    } else {
                        0
                    },
                forall|n: int| 0 <= n < tree.len() && #[trigger] tree[n].dl != old_tree[n].dl ==> at_pos(old_heap, hm, n),
            decreases bits,
        {
            let mut n: u16 = self.bl_count[bits as usize];
            while n != 0 && h > self.heap_max + 1
                invariant
                    self.heap@ == old_heap,
                    self.heap_max == hm,
                    self.heap_arrays_ok(),
                    *self == (DeflateState {
                        bl_count: self.bl_count,
                        opt_len: self.opt_len,
                        static_len: self.static_len,
                        ..*old(self)
                    }),
                    1 <= bits <= max_length,
                    max_length == spec_max_length(kind),
                    hm < h <= HEAP_SIZE,
                    tree.len() == old_tree.len(),
                    old_tree.len() == spec_tree_len(kind),
                    0 <= max_code < spec_elems(kind),
                    forall|g: int|
                        hm <= g < HEAP_SIZE ==> 0 <= #[trigger] old_heap[g] < old_tree.len() && (old_heap[g]
                            <= max_code || old_heap[g] >= spec_elems(kind)),
                    forall|n: int| 0 <= n < tree.len() ==> #[trigger] tree[n].fc == old_tree[n].fc,
                    forall|n: int|
                        0 <= n <= max_code ==> #[trigger] tree[n].dl == old_tree[n].dl || (1 <= tree[n].dl
                            <= spec_max_length(kind)),
                    forall|n: int| max_code < n < spec_elems(kind) ==> #[trigger] tree[n] == old_tree[n],
                    forall|g: int|
                        hm < g < HEAP_SIZE && old_heap[g] <= max_code ==> 1 <= (
                        #[trigger] tree[old_heap[g] as int]).dl <= spec_max_length(kind),
                    tree_shape(old_heap, hm, old_tree, elems, max_code as int),
                    mx == spec_max_length(kind),
                    lim == max_code + 1,
                    self.bl_count@ == cnt,
                    cnt.len() == 16,
                    n <= cnt[bits as int],
                    self.static_len == s_end,
                    distinct_from(old_heap, hm + 1),
                    wopt == opt_wt(kind),
                    opt0 == old(self).opt_len,
                    self.opt_len as int == (opt0 + pos_sum(old_heap, tree@, hm + 1, HEAP_SIZE as int, lim, wopt))
                        % 0x1_0000_0000,
                    leaf_count(old_heap, hm + 1, h as int, lim) == count_sum(cnt, bits as int) + n,
                    count_sum(cnt, 16) == leaf_count(old_heap, hm + 1, HEAP_SIZE as int, lim),
                    forall|b: int| mx < b < 16 ==> #[trigger] cnt[b] == 0,
                    forall|g: int|
                        hm <= g < HEAP_SIZE && old_heap[g] > max_code ==> #[trigger] tree[old_heap[g] as int].dl as int
                            == capped(depth_at(old_heap, hm, old_tree, g), mx),
                    forall|g: int|
                        h <= g < HEAP_SIZE && 0 <= old_heap[g] < lim ==> #[trigger] tree[old_heap[g] as int].dl as int
                            == len_by_rank(cnt, mx, leaf_count(old_heap, g + 1, HEAP_SIZE as int, lim)),
                    forall|b: int|
                        1 <= b < 16 ==> #[trigger] len_count(old_heap, tree@, h as int, HEAP_SIZE as int, lim, b) == if bits
                            < b <= mx {
                            cnt[b] as int
                        } else if b == bits {
                            cnt[b] - n
                        } else {
                            0
                        },
                    forall|n: int| 0 <= n < tree.len() && #[trigger] tree[n].dl != old_tree[n].dl ==> at_pos(old_heap, hm, n),
                decreases h,
            {
                let ghost tr0 = tree@;
                h -= 1;
                let m: usize = self.heap[h] as usize;
                proof {
                    lemma_leaf_count_hi(old_heap, hm + 1, h as int, lim);
                    lemma_count_sum_nonneg(cnt, bits as int);
                    assert forall|b: int| 1 <= b < 16 implies #[trigger] len_count(
                        old_heap,
                        tree@,
                        h as int,
                        HEAP_SIZE as int,
                        lim,
                        b,
                    ) == (if 0 <= old_heap[h as int] < lim && tree@[old_heap[h as int] as int].dl as int == b {
                        1int
                    } else {
                        0
                    }) + len_count(old_heap, tree@, h + 1, HEAP_SIZE as int, lim, b) by {}
                }
                if m as i32 > max_code {
                    continue;
                }
                if tree[m].dl as i32 != bits {
                    let ghost o1 = self.opt_len;
                    let ghost dl0 = tree[m as int].dl as int;
                    let ghost f0 = tree[m as int].fc as int;
                    let delta: u32 = (bits as u32).wrapping_sub(tree[m].dl as u32).wrapping_mul(tree[m].fc as u32);
                    let nm: CtData = CtData { fc: tree[m].fc, dl: bits as u16 };
                    proof {
                        let mm: int = 0x1_0000_0000;
                        let dd = bits - dl0;
                        assert((bits as u32).wrapping_sub(tree[m as int].dl as u32) as int == dd % mm);
                        vstd::arithmetic::div_mod::lemma_mul_mod_noop_left(dd, f0, mm);
                        assert(dd * f0 == f0 * dd) by (nonlinear_arith);
                        assert(delta as int == (f0 * dd) % mm);
                        lemma_wrap_acc(o1, opt0, pos_sum(old_heap, tree@, hm + 1, HEAP_SIZE as int, lim, wopt), f0 * dd, o1.wrapping_add(delta));
                        lemma_pos_sum_update(old_heap, tree@, hm + 1, HEAP_SIZE as int, lim, wopt, h as int, nm);
                        let x = spec_extra_of(kind, m as int);
                        let bi = bits as int;
                        assert(f0 * (bi + x) - f0 * (dl0 + x) == f0 * dd) by (nonlinear_arith)
                            requires
                                dd == bi - dl0,
                        ;
                    }
                    self.opt_len = self.opt_len.wrapping_add(delta);
                    tree.set(m, nm);
                }
                proof {
                    let hh = h as int;
                    assert(tree[m as int].dl as int == bits);
                    assert forall|b: int| 1 <= b < 16 implies #[trigger] len_count(
                        old_heap,
                        tree@,
                        hh,
                        HEAP_SIZE as int,
                        lim,
                        b,
                    ) == if bits < b <= mx {
                        cnt[b] as int
                    } else if b == bits {
                        cnt[b] - (n - 1)
                    } else {
                        0
                    } by {
                        assert forall|g: int| hh + 1 <= g < HEAP_SIZE && 0 <= old_heap[g] < lim implies #[trigger] tree@[old_heap[g] as int].dl
                            == tr0[old_heap[g] as int].dl by {
                            assert(old_heap[g] != old_heap[hh]);
                        }
                        lemma_len_count_frame(old_heap, tree@, tr0, hh + 1, HEAP_SIZE as int, lim, b);
                        assert(len_count(old_heap, tree@, hh, HEAP_SIZE as int, lim, b) == (if 0 <= old_heap[hh] < lim
                            && tree@[old_heap[hh] as int].dl as int == b {
                            1int
                        } else {
                            0
                        }) + len_count(old_heap, tree@, hh + 1, HEAP_SIZE as int, lim, b));
                    }
                    assert forall|n2: int| 0 <= n2 < tree.len() && #[trigger] tree[n2].dl != old_tree[n2].dl implies at_pos(
                        old_heap,
                        hm,
                        n2,
                    ) by {
                        if n2 == m {
                            assert(old_heap[hh] as int == n2);
                        } else {
                            assert(tr0[n2].dl != old_tree[n2].dl);
                        }
                    }
                }
                proof {
                    let hh = h as int;
                    let k: int = cnt[bits as int] - n;
                    lemma_leaf_count_split(old_heap, hm + 1, hh + 1, HEAP_SIZE as int, lim);
                    lemma_count_sum_tail(cnt, mx + 1, 16);
                    lemma_len_by_rank(cnt, mx, bits as int, k);
                    assert(leaf_count(old_heap, hh + 1, HEAP_SIZE as int, lim) == count_sum(cnt, mx + 1) - count_sum(
                        cnt,
                        bits + 1,
                    ) + k);
                    assert forall|g: int|
                        hh <= g < HEAP_SIZE && 0 <= old_heap[g] < lim implies #[trigger] tree[old_heap[g] as int].dl as int
                        == len_by_rank(cnt, mx, leaf_count(old_heap, g + 1, HEAP_SIZE as int, lim)) by {
                        if g > hh {
                            assert(old_heap[g] != old_heap[hh]);
                            assert(tree[old_heap[g] as int] == tr0[old_heap[g] as int]);
                        }
                    }
                    assert forall|g: int|
                        hm <= g < HEAP_SIZE && old_heap[g] > max_code implies #[trigger] tree[old_heap[g] as int].dl as int
                        == capped(depth_at(old_heap, hm, old_tree, g), mx) by {
                        assert(tree[old_heap[g] as int] == tr0[old_heap[g] as int]);
                    }
                }
                n -= 1;
            }
            proof {
                if h <= hm + 1 {
                    assert(leaf_count(old_heap, hm + 1, h as int, lim) == 0);
                }
                lemma_count_sum_nonneg(cnt, bits as int);
                assert(n == 0);
            }
            bits -= 1;
        }
        proof {
            assert(count_sum(cnt, 0) == 0);
            assert(count_sum(cnt, 1) == 0);
            assert forall|g: int|
                hm < g < HEAP_SIZE && 0 <= old_heap[g] <= max_code implies #[trigger] tree[old_heap[g] as int].dl as int
                == len_by_rank(cnt, mx, leaf_count(old_heap, g + 1, HEAP_SIZE as int, lim)) by {
                if g < h {
                    lemma_leaf_count_pos(old_heap, hm + 1, h as int, lim, g);
                }
            }
            assert forall|b: int| 1 <= b < 16 implies #[trigger] self.bl_count[b] as int == len_count(
                old_heap,
                tree@,
                hm + 1,
                HEAP_SIZE as int,
                lim,
                b,
            ) by {
                lemma_len_count_split(old_heap, tree@, hm + 1, h as int, HEAP_SIZE as int, lim, b);
                lemma_len_count_no_leaf(old_heap, tree@, hm + 1, h as int, lim, b);
            }
            assert forall|x: int| 0 <= x < lim && #[trigger] wopt(x, tree@[x]) != 0 implies at_pos(old_heap, hm + 1, x) by {
                let c = tree@[x];
                assert(wopt(x, c) == c.fc as int * (c.dl as int + spec_extra_of(kind, x)));
                if c.fc == 0 {
                    assert(wopt(x, c) == 0);
                }
                assert(old_tree[x].fc != 0);
            }
            lemma_pos_sum_symbols(old_heap, tree@, hm + 1, lim, wopt);
        }
    }

    /// The first part of `build_tree`: put the symbols with a nonzero frequency on the heap,
    /// then add symbols with frequency 1 until two are there (`forced_sym`), charging
    /// `opt_len` and `static_len` for them; returns the largest symbol on the heap.
    fn collect_leaves(&mut self, tree: &mut Vec<CtData>, kind: TreeKind) -> (max_code: i32)
        requires
            old(self).heap_arrays_ok(),
            old(self).sd.wf(),
            old(tree).len() == spec_tree_len(kind),
        ensures
            *final(self) == (DeflateState {
                heap: final(self).heap,
                heap_len: final(self).heap_len,
                depth: final(self).depth,
                heap_max: HEAP_SIZE,
                opt_len: final(self).opt_len,
                static_len: final(self).static_len,
                ..*old(self)
            }),
            final(self).heap_arrays_ok(),
            final(tree).len() == old(tree).len(),
            2 <= final(self).heap_len <= spec_elems(kind),
            1 <= max_code < spec_elems(kind),
            max_code + 1 >= final(self).heap_len,
            forall|x: i32|
                #[trigger] heap_part(final(self).heap@, final(self).heap_len as int).count(x) > 0 ==> 0 <= x
                    <= max_code && final(tree)[x as int].fc != 0,
            forall|m: int|
                0 <= m < spec_elems(kind) && final(tree)[m].fc != 0 ==> #[trigger] heap_part(
                    final(self).heap@,
                    final(self).heap_len as int,
                ).count(m as i32) > 0,
            forall|m: int| 0 <= m < spec_elems(kind) && final(tree)[m].fc == 0 ==> #[trigger] final(tree)[m].dl == 0,
            forall|m: int| max_code < m < spec_elems(kind) ==> #[trigger] final(tree)[m].fc == 0,
            forall|m: int|
                0 <= m < final(tree).len() ==> #[trigger] final(tree)[m].fc == old(tree)[m].fc || (m <= max_code
                    && final(tree)[m].fc == 1),
            forall|x: i32|
                #[trigger] heap_part(final(self).heap@, final(self).heap_len as int).count(x) == if 0 <= x < spec_elems(
                    kind,
                ) && final(tree)[x as int].fc != 0 {
                    1nat
                } else {
                    0nat
                },
            max_code >= 0 ==> final(tree)[max_code as int].fc != 0,
            forall|m: int|
                0 <= m < spec_elems(kind) ==> #[trigger] final(tree)[m].fc == old(tree)[m].fc || (old(tree)[m].fc == 0
                    && final(tree)[m].fc == 1 && m <= 2),
            final(self).opt_len as int == (old(self).opt_len - sym_sum(final(tree)@, spec_elems(kind), forced_wt(old(tree)@)))
                % 0x1_0000_0000,
            final(self).static_len as int == if !(kind is BitLength) {
                (old(self).static_len - sym_sum(final(tree)@, spec_elems(kind), forced_swt(old(tree)@, old(self).sd, kind)))
                    % 0x1_0000_0000
            } else {
                old(self).static_len as int
            },
            forall|x: int|
                0 <= x < spec_elems(kind) ==> (#[trigger] final(tree)@[x].fc != 0 <==> (old(tree)[x].fc != 0 || forced_sym(
                    old(tree)@,
                    spec_elems(kind),
                    x,
                ))),
            max_code == tree_max(old(tree)@, spec_elems(kind)),
            heap_window(final(self).heap@, final(self).heap_len as int) == leaf_window(old(tree)@, spec_elems(kind)),
            forall|x: int| 0 <= x < spec_elems(kind) ==> #[trigger] final(self).depth[x] == 0,
    {
        let d: Desc = desc_for(kind);
        let elems: usize = d.elems;
        let mut max_code: i32 = -1;
        let ghost tlen = tree.len() as int;
        let ghost ot = tree@;
        let ghost opt_i = self.opt_len as int;
        let ghost st_i = self.static_len as int;

        self.heap_len = 0;
        self.heap_max = HEAP_SIZE;
        proof {
            broadcast use group_to_multiset_ensures, group_multiset_axioms;
            assert(self.heap@.subrange(1, 1).len() == 0);
            assert(heap_part(self.heap@, 0) =~= Multiset::<i32>::empty());
        }

        // Collect the symbols with a nonzero frequency.
        let mut n: usize = 0;
        while n < elems
            invariant
                self.heap_arrays_ok(),
                self.sd.wf(),
                *self == (DeflateState {
                    heap: self.heap,
                    heap_len: self.heap_len,
                    depth: self.depth,
                    heap_max: HEAP_SIZE,
                    ..*old(self)
                }),
                elems == spec_elems(kind),
                tree.len() == tlen,
                tlen == 2 * elems + 1,
                n <= elems,
                self.heap_len <= n,
                -1 <= max_code < n,
                max_code + 1 >= self.heap_len,
                ot == old(tree)@,
                self.heap_len == used_count(ot, n as int),
                max_code == used_max(ot, n as int),
                forall|x: i32|
                    #[trigger] heap_part(self.heap@, self.heap_len as int).count(x) > 0 ==> 0 <= x
                        <= max_code && tree[x as int].fc != 0,
                forall|m: int|
                    0 <= m < n && tree[m].fc != 0 ==> #[trigger] heap_part(self.heap@, self.heap_len as int).count(
                        m as i32,
                    ) > 0,
                forall|m: int| 0 <= m < n && tree[m].fc == 0 ==> #[trigger] tree[m].dl == 0,
                forall|m: int| max_code < m < n ==> #[trigger] tree[m].fc == 0,
                forall|m: int| 0 <= m < tree.len() ==> #[trigger] tree[m].fc == old(tree)[m].fc,
                forall|x: i32|
                    #[trigger] heap_part(self.heap@, self.heap_len as int).count(x) == if 0 <= x < n && tree[x as int].fc
                        != 0 {
                        1nat
                    } else {
                        0nat
                    },
                max_code >= 0 ==> tree[max_code as int].fc != 0,
                heap_window(self.heap@, self.heap_len as int) == seq![0i32] + used_list(ot, n as int),
                forall|x: int| 0 <= x < n ==> #[trigger] self.depth[x] == 0,
            decreases elems - n,
        {
            let ghost hw_b = heap_window(self.heap@, self.heap_len as int);
            if tree[n].fc != 0 {
                let ghost hp = heap_part(self.heap@, self.heap_len as int);
                proof {
                    lemma_sub_extend_hi(self.heap@.update(self.heap_len + 1, n as i32), 1, self.heap_len + 1);
                    lemma_sub_update_outside(self.heap@, 1, self.heap_len + 1, self.heap_len + 1, n as i32);
                }
                self.heap_len += 1;
                self.heap.set(self.heap_len, n as i32);
                max_code = n as i32;
                self.depth.set(n, 0);
                proof {
                    broadcast use group_multiset_axioms;
                    assert(heap_part(self.heap@, self.heap_len as int) == hp.insert(n as i32));
                    assert(heap_window(self.heap@, self.heap_len as int) =~= hw_b.push(n as i32));
                }
            } else {
                let z: CtData = CtData { fc: tree[n].fc, dl: 0 };
                tree.set(n, z);
                self.depth.set(n, 0);
            }
            proof {
                assert(seq![0i32] + used_list(ot, n + 1) =~= heap_window(self.heap@, self.heap_len as int));
            }
            n += 1;
        }

        // Force at least two codes of nonzero frequency.
        let ghost c0 = used_count(ot, elems as int);
        let ghost s0 = used_max(ot, elems as int);
        proof {
            if s0 >= 0 {
                lemma_used(ot, elems as int, s0);
            }
            assert forall|x: int| 0 <= x < elems implies (#[trigger] tree@[x].fc != 0 <==> (ot[x].fc != 0 || forced_by(
                ot,
                elems as int,
                self.heap_len as int,
                x,
            ))) by {
                lemma_used(ot, elems as int, x);
            }
            assert forall|m: int| 0 <= m < elems implies #[trigger] forced_wt(ot)(m, tree@[m]) == 0 by {}
            lemma_sym_sum_tail(tree@, 0, elems as int, forced_wt(ot));
            assert forall|m: int| 0 <= m < elems implies #[trigger] forced_swt(ot, self.sd, kind)(m, tree@[m]) == 0 by {}
            lemma_sym_sum_tail(tree@, 0, elems as int, forced_swt(ot, self.sd, kind));
            vstd::arithmetic::div_mod::lemma_small_mod(opt_i as nat, 0x1_0000_0000nat);
            vstd::arithmetic::div_mod::lemma_small_mod(st_i as nat, 0x1_0000_0000nat);
            assert(seq![0i32] + used_list(ot, elems as int) =~= seq![0i32] + used_list(ot, elems as int) + forced_list(
                ot,
                elems as int,
            ).take(0));
        }
        while self.heap_len < 2
            invariant
                self.heap_arrays_ok(),
                self.sd.wf(),
                *self == (DeflateState {
                    heap: self.heap,
                    heap_len: self.heap_len,
                    depth: self.depth,
                    heap_max: HEAP_SIZE,
                    opt_len: self.opt_len,
                    static_len: self.static_len,
                    ..*old(self)
                }),
                d.has_stree == !(kind is BitLength),
                elems == spec_elems(kind),
                tree.len() == tlen,
                tlen == 2 * elems + 1,
                self.heap_len <= elems,
                elems >= 19,
                -1 <= max_code < elems,
                max_code + 1 >= self.heap_len,
                forall|x: i32|
                    #[trigger] heap_part(self.heap@, self.heap_len as int).count(x) > 0 ==> 0 <= x
                        <= max_code && tree[x as int].fc != 0,
                forall|m: int|
                    0 <= m < elems && tree[m].fc != 0 ==> #[trigger] heap_part(self.heap@, self.heap_len as int).count(
                        m as i32,
                    ) > 0,
                forall|m: int| 0 <= m < elems && tree[m].fc == 0 ==> #[trigger] tree[m].dl == 0,
                forall|m: int| max_code < m < elems ==> #[trigger] tree[m].fc == 0,
                forall|m: int|
                    0 <= m < tree.len() ==> #[trigger] tree[m].fc == old(tree)[m].fc || (m <= max_code
                        && tree[m].fc == 1),
                forall|x: i32|
                    #[trigger] heap_part(self.heap@, self.heap_len as int).count(x) == if 0 <= x < elems && tree[x as int].fc
                        != 0 {
                        1nat
                    } else {
                        0nat
                    },
                max_code >= 0 ==> tree[max_code as int].fc != 0,
                ot == old(tree)@,
                opt_i == old(self).opt_len,
                st_i == old(self).static_len,
                forall|m: int|
                    0 <= m < elems ==> #[trigger] tree[m].fc == ot[m].fc || (ot[m].fc == 0 && tree[m].fc == 1 && m <= 2),
                self.opt_len as int == (opt_i - sym_sum(tree@, elems as int, forced_wt(ot))) % 0x1_0000_0000,
                self.static_len as int == if d.has_stree {
                    (st_i - sym_sum(tree@, elems as int, forced_swt(ot, self.sd, kind))) % 0x1_0000_0000
                } else {
                    st_i
                },
                c0 == used_count(ot, elems as int),
                s0 == used_max(ot, elems as int),
                self.heap_len >= c0,
                c0 <= 1 ==> self.heap_len <= 2,
                c0 == 1 && self.heap_len == 1 ==> max_code == s0,
                c0 == 0 && self.heap_len == 0 ==> max_code == -1,
                c0 == 0 && self.heap_len == 1 ==> max_code == 0,
                c0 >= 2 ==> max_code == s0,
                c0 == 1 && self.heap_len == 2 ==> max_code == if s0 < 2 { s0 + 1 } else { s0 },
                c0 == 0 && self.heap_len == 2 ==> max_code == 1,
                0 <= self.heap_len - c0 <= forced_list(ot, elems as int).len(),
                heap_window(self.heap@, self.heap_len as int) == seq![0i32] + used_list(ot, elems as int) + forced_list(
                    ot,
                    elems as int,
                ).take(self.heap_len - c0),
                forall|x: int| 0 <= x < elems ==> #[trigger] self.depth[x] == 0,
                forall|x: int|
                    0 <= x < elems ==> (#[trigger] tree@[x].fc != 0 <==> (ot[x].fc != 0 || forced_by(
                        ot,
                        elems as int,
                        self.heap_len as int,
                        x,
                    ))),
            decreases 2 - self.heap_len,
        {
            let ghost tb = tree@;
            let ghost len_b = self.heap_len as int;
            let ghost mc_b = max_code as int;
            let ghost hw_b = heap_window(self.heap@, self.heap_len as int);
            let node: i32 = if max_code < 2 {
                max_code += 1;
                max_code
            } else {
                0
            };
            let nu: usize = node as usize;
            let ghost hp = heap_part(self.heap@, self.heap_len as int);
            proof {
                // The node forced in has no frequency yet: above the largest symbol with one,
                // or symbol 0 when that is not the single symbol in the heap.
                if node == 0 && max_code >= 2 && tree[0].fc != 0 {
                    assert(hp.count(0i32) == 1);
                    assert(hp.count(max_code) == 1);
                    let i = lemma_sub_witness(self.heap@, 1, self.heap_len + 1, 0i32);
                    let j = lemma_sub_witness(self.heap@, 1, self.heap_len + 1, max_code);
                    assert(false);
                }
                assert(tree[node as int].fc == 0);
                assert(hp.count(node) == 0);
                lemma_sub_extend_hi(self.heap@.update(self.heap_len + 1, node), 1, self.heap_len + 1);
                lemma_sub_update_outside(self.heap@, 1, self.heap_len + 1, self.heap_len + 1, node);
            }
            self.heap_len += 1;
            self.heap.set(self.heap_len, node);
            proof {
                broadcast use group_multiset_axioms;
                assert(heap_part(self.heap@, self.heap_len as int) == hp.insert(node));
            }
            let one: CtData = CtData { fc: 1, dl: tree[nu].dl };
            tree.set(nu, one);
            proof {
                assert(ot[nu as int].fc == 0);
                lemma_sym_sum_update(tb, elems as int, nu as int, one, forced_wt(ot));
                lemma_sym_sum_update(tb, elems as int, nu as int, one, forced_swt(ot, self.sd, kind));
                lemma_wrap_sub(self.opt_len, opt_i, -sym_sum(tb, elems as int, forced_wt(ot)), 1u32, self.opt_len.wrapping_sub(1));
            }
            self.depth.set(nu, 0);
            self.opt_len = self.opt_len.wrapping_sub(1);
            if d.has_stree {
                let sl: u16 = stree_len(&self.sd, kind, nu);
                proof {
                    lemma_wrap_sub(
                        self.static_len,
                        st_i,
                        -sym_sum(tb, elems as int, forced_swt(ot, self.sd, kind)),
                        sl as u32,
                        self.static_len.wrapping_sub(sl as u32),
                    );
                }
                self.static_len = self.static_len.wrapping_sub(sl as u32);
            }
            proof {
                assert(self.heap_len == len_b + 1);
                assert(c0 == 1 ==> len_b == 1 && mc_b == s0);
                assert(c0 == 0 && len_b == 0 ==> node == 0);
                assert(c0 == 0 && len_b == 1 ==> node == 1);
                assert(c0 == 1 && s0 < 2 ==> node == s0 + 1);
                assert(c0 == 1 && s0 >= 2 ==> node == 0);
                assert(node == forced_list(ot, elems as int)[len_b - c0]);
                assert(heap_window(self.heap@, self.heap_len as int) =~= hw_b.push(node));
                assert(heap_window(self.heap@, self.heap_len as int) =~= seq![0i32] + used_list(ot, elems as int)
                    + forced_list(ot, elems as int).take(self.heap_len - c0));
                assert forall|x: int| 0 <= x < elems implies (#[trigger] tree@[x].fc != 0 <==> (ot[x].fc != 0 || forced_by(
                    ot,
                    elems as int,
                    self.heap_len as int,
                    x,
                ))) by {
                    lemma_used(ot, elems as int, x);
                    if x != nu as int {
                        assert(tree@[x] == tb[x]);
                        assert(tb[x].fc != 0 <==> (ot[x].fc != 0 || forced_by(ot, elems as int, len_b, x)));
                    }
                }
            }
        }
        proof {
            assert forall|x: int| 0 <= x < elems implies (#[trigger] tree@[x].fc != 0 <==> (ot[x].fc != 0 || forced_sym(
                ot,
                elems as int,
                x,
            ))) by {}
            assert(forced_list(ot, elems as int).take(self.heap_len - c0) =~= forced_list(ot, elems as int));
        }
        max_code
    }

    /// `build_tree(tree)`: build the Huffman tree of the symbol frequencies in `tree`, set
    /// every symbol's code length and code, and return the largest symbol with a nonzero
    /// frequency (at least two symbols get a code).
    ///
    /// Every symbol's code fits its length, no length exceeds the kind's maximum, every
    /// symbol with a nonzero frequency has a code, and the symbols above the returned one
    /// have none. The codes are the canonical codes of the lengths, which fill the Kraft
    /// inequality exactly; `opt_len` and `static_len` grow by the block's cost in bits with
    /// these codes and with the static ones.
    ///
    /// The tree is Huffman's: its leaves are the symbols with a frequency, and those added
    /// when fewer than two have one (`leaves_are`); `heap[heap_max..]` records the merges,
    /// each taking off the heap a node of least frequency, then depth (`huffman_merges`), in
    /// exactly the order of zlib's heap (`huffman_heap`); and the lengths are the depths in
    /// that tree, limited to the kind's maximum as zlib limits them (`limited_lengths`).
    #[verifier::spinoff_prover]
    #[verifier::rlimit(100)]
    pub fn build_tree(&mut self, tree: &mut Vec<CtData>, kind: TreeKind) -> (max_code: i32)
        requires
            old(self).heap_arrays_ok(),
            old(self).sd.wf(),
            old(tree).len() == spec_tree_len(kind),
        ensures
            *final(self) == (DeflateState {
                heap: final(self).heap,
                heap_len: final(self).heap_len,
                heap_max: final(self).heap_max,
                depth: final(self).depth,
                bl_count: final(self).bl_count,
                opt_len: final(self).opt_len,
                static_len: final(self).static_len,
                ..*old(self)
            }),
            final(self).heap_arrays_ok(),
            final(tree).len() == old(tree).len(),
            1 <= max_code < spec_elems(kind),
            forall|n: int|
                0 <= n < spec_elems(kind) ==> code_fits(#[trigger] final(tree)[n]) && final(tree)[n].dl
                    <= spec_max_length(kind),
            forall|n: int|
                max_code < n < spec_elems(kind) ==> (#[trigger] final(tree)[n]).fc == 0 && final(tree)[n].dl
                    == 0,
            forall|n: int|
                0 <= n < spec_elems(kind) && old(tree)[n].fc != 0 ==> 1 <= (#[trigger] final(tree)[n]).dl,
            forall|n: int| 0 <= n < spec_elems(kind) && #[trigger] old(tree)[n].fc != 0 ==> n <= max_code,
            canonical_codes(final(tree)@, max_code + 1),
            kraft_complete(final(tree)@, max_code + 1),
            final(self).opt_len as int == (old(self).opt_len + sym_sum(final(tree)@, max_code + 1, built_wt(old(tree)@, kind)))
                % 0x1_0000_0000,
            final(self).static_len as int == if kind is BitLength {
                old(self).static_len as int
            } else {
                (old(self).static_len + sym_sum(old(tree)@, max_code + 1, static_wt(old(self).sd, kind))) % 0x1_0000_0000
            },
            huffman_merges(
                final(self).heap@,
                final(self).heap_max as int,
                merge_weights(old(tree)@, final(tree)@, spec_elems(kind)),
                final(self).depth@,
                spec_elems(kind),
            ),
            limited_lengths(
                final(self).heap@,
                final(self).heap_max as int,
                spec_elems(kind),
                max_code as int,
                spec_max_length(kind),
                final(self).bl_count@,
                final(tree)@,
            ),
            leaves_are(final(self).heap@, final(self).heap_max + 1, old(tree)@, spec_elems(kind)),
            forall|g: int|
                final(self).heap_max <= g < HEAP_SIZE ==> #[trigger] final(self).heap[g] <= max_code || final(self).heap[g]
                    >= spec_elems(kind),
            forall|x: int|
                0 <= x < spec_elems(kind) && old(tree)[x].fc == 0 && !forced_sym(old(tree)@, spec_elems(kind), x)
                    ==> #[trigger] final(tree)[x].dl == 0,
            max_code == tree_max(old(tree)@, spec_elems(kind)),
            1 <= final(tree)[max_code as int].dl,
            final(self).heap@.subrange(final(self).heap_max as int, HEAP_SIZE as int) == huffman_heap(
                old(tree)@,
                spec_elems(kind),
            ),
    {
        let d: Desc = desc_for(kind);
        let elems: usize = d.elems;
        let ghost tlen = tree.len() as int;
        let ghost ot = tree@;
        let ghost opt_i = self.opt_len as int;
        let ghost st_i = self.static_len as int;

        let max_code: i32 = self.collect_leaves(tree, kind);
        let ghost o1 = self.opt_len as int;
        let ghost s1 = self.static_len as int;
        let ghost t1 = tree@;
        let ghost l0 = self.heap_len as int;
        let ghost w0 = node_weights(tree@, elems as int);
        let ghost dz = self.depth@.subrange(0, elems as int);
        let ghost hw0 = heap_window(self.heap@, l0);
        let ghost dep1 = self.depth@;
        proof {
            lemma_part_member(self.heap@, self.heap_len as int, 1);
            assert forall|x: int| 0 <= x < elems implies #[trigger] w0[x] == leaf_weights(ot, elems as int)[x] by {
                if ot[x].fc == 0 && !forced_sym(ot, elems as int, x) {
                    assert(t1[x].fc == 0);
                }
            }
            assert(w0 =~= leaf_weights(ot, elems as int));
            assert(dz =~= Seq::new(elems as nat, |x: int| 0u8));
        }

        // Establish sub-heaps of increasing lengths.
        let mut k: usize = self.heap_len / 2;
        while k >= 1
            invariant
                self.heap_arrays_ok(),
                self.sd.wf(),
                *self == (DeflateState {
                    heap: self.heap,
                    heap_len: self.heap_len,
                    depth: self.depth,
                    heap_max: HEAP_SIZE,
                    opt_len: self.opt_len,
                    static_len: self.static_len,
                    ..*old(self)
                }),
                tree@ == t1,
                self.heap_len == l0,
                2 <= l0 <= elems,
                1 <= max_code,
                k <= l0 / 2,
                elems == spec_elems(kind),
                tree.len() == tlen,
                tlen == 2 * elems + 1,
                0 <= max_code < elems,
                forall|x: i32|
                    #[trigger] heap_part(self.heap@, self.heap_len as int).count(x) > 0 ==> 0 <= x
                        <= max_code && tree[x as int].fc != 0,
                forall|m: int|
                    0 <= m < elems && tree[m].fc != 0 ==> #[trigger] heap_part(self.heap@, self.heap_len as int).count(
                        m as i32,
                    ) > 0,
                forall|x: i32|
                    #[trigger] heap_part(self.heap@, self.heap_len as int).count(x) == if 0 <= x < elems && t1[x as int].fc
                        != 0 {
                        1nat
                    } else {
                        0nat
                    },
                self.opt_len as int == o1,
                self.static_len as int == s1,
                heap_ordered_from(self.heap@, self.heap_len as int, tree@, self.depth@, k + 1),
                self.depth@ == dep1,
                w0 == node_weights(t1, elems as int),
                dz == dep1.subrange(0, elems as int),
                heapify(heap_window(self.heap@, l0), k as int, w0, dz) == heapify(hw0, l0 / 2, w0, dz),
            decreases k,
        {
            proof {
                assert forall|i: int| 1 <= i <= self.heap_len implies 0 <= #[trigger] self.heap[i] < elems by {
                    lemma_part_member(self.heap@, self.heap_len as int, i);
                }
            }
            let ghost hb = self.heap@;
            self.pqdownheap(tree, k);
            proof {
                lemma_sift_window(hb, l0, k as int, hb[k as int], tree@, self.depth@, elems as int);
                assert(heap_window(hb, l0)[k as int] == hb[k as int]);
            }
            k -= 1;
        }
        let ghost hh = heapify(hw0, l0 / 2, w0, dz);
        let ghost fin = merge_rounds((hh, Seq::<i32>::empty(), w0, dz), (l0 - 1) as nat);
        proof {
            assert(heap_window(self.heap@, l0) == hh);
        }

        // Combine the two least frequent nodes repeatedly.
        let mut node: usize = elems;
        proof {
            broadcast use group_to_multiset_ensures, group_multiset_axioms;
            assert(self.heap@.subrange(HEAP_SIZE as int, HEAP_SIZE as int) =~= Seq::<i32>::empty());
            assert(heap_upper(self.heap@, HEAP_SIZE as int) =~= Multiset::<i32>::empty());
            assert(combine_inv(self.heap@, self.heap_len as int, HEAP_SIZE as int, tree@, t1, elems as int, elems as int));
            reveal(huffman_merges);
            reveal(below_removed);
            assert(self.heap@.subrange(self.heap_max as int, HEAP_SIZE as int) =~= Seq::<i32>::empty());
            assert(self.depth@.subrange(0, node as int) == dz);
        }
        loop
            invariant_except_break
                self.heap_len >= 2,
            invariant
                self.heap_arrays_ok(),
                self.sd.wf(),
                *self == (DeflateState {
                    heap: self.heap,
                    heap_len: self.heap_len,
                    depth: self.depth,
                    heap_max: self.heap_max,
                    opt_len: self.opt_len,
                    static_len: self.static_len,
                    ..*old(self)
                }),
                elems == spec_elems(kind),
                tree.len() == tlen,
                tlen == 2 * elems + 1,
                1 <= max_code < elems,
                2 <= l0 <= elems,
                elems <= node,
                1 <= self.heap_len,
                self.heap_len + (node - elems) == l0,
                self.heap_max == HEAP_SIZE - 2 * (node - elems),
                forall|m: int| 0 <= m < elems ==> #[trigger] tree[m].fc == t1[m].fc,
                forall|x: i32|
                    #[trigger] heap_part(self.heap@, self.heap_len as int).count(x) > 0 ==> 0 <= x < node
                        && (x <= max_code || x >= elems) && (x >= elems || tree[x as int].fc != 0),
                forall|x: i32|
                    #[trigger] heap_upper(self.heap@, self.heap_max as int).count(x) > 0 ==> 0 <= x < node
                        && (x <= max_code || x >= elems) && (x >= elems || tree[x as int].fc != 0)
                        && tree[x as int].dl < tlen,
                forall|m: int|
                    0 <= m < elems && t1[m].fc != 0 ==> #[trigger] heap_part(self.heap@, self.heap_len as int).count(
                        m as i32,
                    ) > 0 || heap_upper(self.heap@, self.heap_max as int).count(m as i32) > 0,
                forall|m: int| 0 <= m < elems && t1[m].fc == 0 ==> #[trigger] tree[m].dl == t1[m].dl,
                self.heap_len == 1 ==> self.heap[1] == node - 1,
                combine_inv(self.heap@, self.heap_len as int, self.heap_max as int, tree@, t1, elems as int, node as int),
                self.opt_len as int == o1,
                self.static_len as int == s1,
                heap_ordered_from(self.heap@, self.heap_len as int, tree@, self.depth@, 1),
                huffman_merges(self.heap@, self.heap_max as int, tree@, self.depth@, elems as int),
                forall|g: int|
                    self.heap_max <= g < HEAP_SIZE ==> #[trigger] tree[self.heap[g] as int].dl as int == elems + (HEAP_SIZE
                        - 1 - g) / 2,
                below_removed(self.heap@, self.heap_len as int, self.heap_max as int, tree@, self.depth@, elems as int),
                merge_rounds(
                    (
                        heap_window(self.heap@, self.heap_len as int),
                        self.heap@.subrange(self.heap_max as int, HEAP_SIZE as int),
                        node_weights(tree@, node as int),
                        self.depth@.subrange(0, node as int),
                    ),
                    (self.heap_len - 1) as nat,
                ) == fin,
            ensures
                self.heap_len == 1,
            decreases self.heap_len,
        {
            let ghost h0 = self.heap@;
            let ghost len0 = self.heap_len as int;
            let ghost hm0 = self.heap_max as int;
            let ghost node0 = node as int;
            let ghost t0 = tree@;
            let ghost p0 = heap_part(h0, len0);
            let ghost up0 = heap_upper(h0, hm0);
            // pqremove: take the least frequent node off the heap.
            let n: i32 = self.heap[SMALLEST];
            let last: i32 = self.heap[self.heap_len];
            proof {
                lemma_part_member(h0, len0, 1);
                lemma_part_pop(h0, len0);
                lemma_upper_frame(h0, hm0, 1, last);
            }
            self.heap.set(SMALLEST, last);
            self.heap_len -= 1;
            proof {
                lemma_order_pop(h0, len0, t0, self.depth@);
            }
            let ghost d0 = self.depth@;
            let ghost p1 = heap_part(self.heap@, self.heap_len as int);
            proof {
                assert(p1 == p0.remove(n));
                assert forall|i: int| 1 <= i <= self.heap_len implies 0 <= #[trigger] self.heap[i] < tree.len() by {
                    lemma_part_member(self.heap@, self.heap_len as int, i);
                }
            }
            let ghost h2 = self.heap@;
            self.pqdownheap(tree, SMALLEST);
            let ghost h3 = self.heap@;
            let m: i32 = self.heap[SMALLEST];
            proof {
                lemma_part_member(self.heap@, self.heap_len as int, 1);
                assert(self.heap@.subrange(hm0, HEAP_SIZE as int) =~= h2.subrange(hm0, HEAP_SIZE as int));
                assert(heap_upper(self.heap@, hm0) == up0);
            }
            // Keep the nodes sorted by frequency.
            proof {
                lemma_upper_push(self.heap@, hm0, n);
                lemma_part_frame(self.heap@, self.heap_len as int, hm0 - 1, n);
            }
            self.heap_max -= 1;
            self.heap.set(self.heap_max, n);
            proof {
                lemma_upper_push(self.heap@, hm0 - 1, m);
                lemma_part_frame(self.heap@, self.heap_len as int, hm0 - 2, m);
            }
            self.heap_max -= 1;
            self.heap.set(self.heap_max, m);
            let ghost up1 = heap_upper(self.heap@, self.heap_max as int);
            proof {
                assert(up1 == up0.insert(n).insert(m));
                assert(heap_part(self.heap@, self.heap_len as int) == p1);
            }

            let nu: usize = n as usize;
            let mu: usize = m as usize;
            let nf: u16 = tree[nu].fc.wrapping_add(tree[mu].fc);
            let ndepth: u8 = if self.depth[nu] >= self.depth[mu] { self.depth[nu] } else { self.depth[mu] };
            let nn: CtData = CtData { fc: nf, dl: tree[node].dl };
            tree.set(node, nn);
            self.depth.set(node, ndepth.wrapping_add(1));
            let dn: CtData = CtData { fc: tree[nu].fc, dl: node as u16 };
            tree.set(nu, dn);
            let dm: CtData = CtData { fc: tree[mu].fc, dl: node as u16 };
            tree.set(mu, dm);

            proof {
                lemma_sub_update_inside(self.heap@, 1, self.heap_len + 1, 1, node as i32);
                lemma_upper_frame(self.heap@, self.heap_max as int, 1, node as i32);
            }
            self.heap.set(SMALLEST, node as i32);
            node += 1;
            proof {
                assert(heap_part(self.heap@, self.heap_len as int) == p1.insert(node0 as i32).remove(m));
                assert forall|i: int| 1 <= i <= self.heap_len implies 0 <= #[trigger] self.heap[i] < tree.len() by {
                    lemma_part_member(self.heap@, self.heap_len as int, i);
                    broadcast use group_multiset_axioms;
                    let x = self.heap[i];
                    if x != node0 as i32 {
                        assert(p1.count(x) > 0);
                        assert(p0.count(x) > 0);
                    }
                }
            }
            let ghost h6 = self.heap@;
            proof {
                assert forall|j: int| 1 <= j <= self.heap_len implies 0 <= #[trigger] h3[j] < node0 by {
                    lemma_part_member(h3, self.heap_len as int, j);
                    assert(p1.count(h3[j]) > 0);
                    assert(p0.count(h3[j]) > 0);
                }
                assert forall|y: int| 0 <= y < node0 implies #[trigger] tree@[y].fc == t0[y].fc by {}
                assert forall|y: int| 0 <= y < node0 implies #[trigger] self.depth@[y] == d0[y] by {}
                lemma_order_new_top(h3, h6, self.heap_len as int, t0, d0, tree@, self.depth@, node0);
            }
            self.pqdownheap(tree, SMALLEST);
            proof {
                broadcast use group_multiset_axioms;
                let hm = self.heap_max as int;
                assert(self.heap@.subrange(hm, HEAP_SIZE as int) =~= h6.subrange(hm, HEAP_SIZE as int));
                assert(heap_upper(self.heap@, hm) == up1);
                let pn = heap_part(self.heap@, self.heap_len as int);
                assert(pn == p1.insert(node0 as i32).remove(m));
                assert(p0.count(n) > 0);
                assert(p1.count(m) > 0);
                assert forall|x: i32| #[trigger] pn.count(x) > 0 implies 0 <= x < node && (x <= max_code || x
                    >= elems) && (x >= elems || tree[x as int].fc != 0) by {
                    if x != node0 as i32 {
                        assert(p1.count(x) > 0);
                        assert(p0.count(x) > 0);
                    }
                }
                assert forall|x: i32| #[trigger] up1.count(x) > 0 implies 0 <= x < node && (x <= max_code || x
                    >= elems) && (x >= elems || tree[x as int].fc != 0) && tree[x as int].dl < tlen by {
                    if x != n && x != m {
                        assert(up0.count(x) > 0);
                    } else if x == m {
                        assert(p1.count(x) > 0);
                        assert(p0.count(x) > 0);
                    }
                }
                assert forall|l: int| 0 <= l < elems && t1[l].fc != 0 implies #[trigger] pn.count(l as i32) > 0
                    || up1.count(l as i32) > 0 by {
                    if up0.count(l as i32) == 0 {
                        assert(p0.count(l as i32) > 0);
                        if l as i32 != n && l as i32 != m {
                            assert(p1.count(l as i32) > 0);
                        }
                    }
                }
                assert forall|l: int| 0 <= l < elems && t1[l].fc == 0 implies #[trigger] tree[l].dl == t1[l].dl by {
                    if l as i32 == n {
                        assert(p0.count(n) > 0);
                    }
                    if l as i32 == m {
                        assert(p0.count(m) > 0);
                    }
                }
            }
            proof {
                broadcast use group_multiset_axioms;
                assert(p0.count(n) + up0.count(n) <= 1);
                assert(p1.count(n) == 0);
                assert(n != m);
                assert forall|g: int| hm0 <= g < HEAP_SIZE implies 0 <= #[trigger] h0[g] < t0.len() by {
                    lemma_upper_member(h0, hm0, g);
                }
                assert(self.heap[hm0 - 1] == n);
                assert(self.heap[hm0 - 2] == m);
                assert forall|g: int| hm0 <= g < HEAP_SIZE implies #[trigger] self.heap@[g] == h0[g] by {}
                lemma_combine_step(h0, len0, hm0, t0, self.heap@, tree@, t1, elems as int, node0, n, m);
                assert forall|x: i32| #[trigger] p0.count(x) <= 1 by {}
                assert forall|g: int| hm0 <= g < HEAP_SIZE implies 0 <= #[trigger] h0[g] < node0 by {
                    lemma_upper_member(h0, hm0, g);
                }
                assert forall|y: int| 0 <= y < node0 implies #[trigger] tree@[y].fc == t0[y].fc by {}
                assert forall|y: int| 0 <= y < node0 implies #[trigger] self.depth@[y] == d0[y] by {}
                lemma_merge_step(h0, len0, hm0, t0, d0, h3, self.heap@, tree@, self.depth@, elems as int, node0, n, m);
                assert forall|x: i32| #[trigger] p0.count(x) + up0.count(x) <= 1 by {}
                assert(p0.count(m) > 0);
                lemma_dads_step(h0, len0, hm0, t0, self.heap@, tree@, elems as int, node0, n, m);
            }
            proof {
                assert forall|i: int| 1 <= i <= len0 implies 0 <= #[trigger] h0[i] < node0 by {
                    lemma_part_member(h0, len0, i);
                }
                assert(tree@[node0].fc as int == (t0[n as int].fc + t0[m as int].fc) % 0x10000);
                assert(self.depth@[node0] as int == (max_depth(d0, n as int, m as int) + 1) % 0x100);
                lemma_merge_window(h0, len0, hm0, t0, d0, node0, h3, self.heap@, tree@, self.depth@);
            }
            if self.heap_len < 2 {
                break;
            }
        }

        let ghost h9 = self.heap@;
        let ghost hm9 = self.heap_max as int;
        self.finish_tree(tree, kind, max_code, node, Ghost(ot), Ghost(t1), Ghost(opt_i), Ghost(st_i));
        proof {
            lemma_heapify_len(hw0, l0 / 2, w0, dz);
            assert(self.heap@.subrange(self.heap_max as int, HEAP_SIZE as int) =~= seq![fin.0[1]] + fin.1);
        }
        max_code
    }

    /// The last part of `build_tree`, once the merges are done: put the root at the top of
    /// the nodes taken off, set the code lengths (`gen_bitlen`) and the codes (`gen_codes`).
    /// `ot` holds the frequencies `build_tree` was given, `t1` the ones it merged.
    #[verifier::spinoff_prover]
    #[verifier::rlimit(100)]
    fn finish_tree(
        &mut self,
        tree: &mut Vec<CtData>,
        kind: TreeKind,
        max_code: i32,
        node: usize,
        Ghost(ot): Ghost<Seq<CtData>>,
        Ghost(t1): Ghost<Seq<CtData>>,
        Ghost(opt_i): Ghost<int>,
        Ghost(st_i): Ghost<int>,
    )
        requires
            old(self).heap_arrays_ok(),
            old(self).sd.wf(),
            old(tree).len() == spec_tree_len(kind),
            ot.len() == old(tree).len(),
            t1.len() == old(tree).len(),
            1 <= max_code < spec_elems(kind),
            2 <= node - spec_elems(kind) + 1 <= spec_elems(kind),
            old(self).heap_len == 1,
            old(self).heap[1] == node - 1,
            old(self).heap_max == HEAP_SIZE - 2 * (node - spec_elems(kind)),
            forall|m: int| 0 <= m < spec_elems(kind) ==> #[trigger] old(tree)[m].fc == t1[m].fc,
            forall|x: i32|
                #[trigger] heap_part(old(self).heap@, 1).count(x) > 0 ==> 0 <= x < node && (x <= max_code || x
                    >= spec_elems(kind)) && (x >= spec_elems(kind) || old(tree)[x as int].fc != 0),
            forall|x: i32|
                #[trigger] heap_upper(old(self).heap@, old(self).heap_max as int).count(x) > 0 ==> 0 <= x < node && (x
                    <= max_code || x >= spec_elems(kind)) && (x >= spec_elems(kind) || old(tree)[x as int].fc != 0)
                    && old(tree)[x as int].dl < old(tree).len(),
            forall|m: int|
                0 <= m < spec_elems(kind) && t1[m].fc != 0 ==> #[trigger] heap_part(old(self).heap@, 1).count(m as i32) > 0
                    || heap_upper(old(self).heap@, old(self).heap_max as int).count(m as i32) > 0,
            forall|m: int| 0 <= m < spec_elems(kind) && t1[m].fc == 0 ==> #[trigger] old(tree)[m].dl == t1[m].dl,
            combine_inv(old(self).heap@, 1, old(self).heap_max as int, old(tree)@, t1, spec_elems(kind), node as int),
            huffman_merges(old(self).heap@, old(self).heap_max as int, old(tree)@, old(self).depth@, spec_elems(kind)),
            forall|g: int|
                old(self).heap_max <= g < HEAP_SIZE ==> #[trigger] old(tree)[old(self).heap[g] as int].dl as int == spec_elems(
                    kind,
                ) + (HEAP_SIZE - 1 - g) / 2,
            forall|m: int| 0 <= m < spec_elems(kind) && t1[m].fc == 0 ==> #[trigger] t1[m].dl == 0,
            forall|m: int| max_code < m < spec_elems(kind) ==> #[trigger] t1[m].fc == 0,
            forall|m: int|
                0 <= m < spec_elems(kind) ==> #[trigger] t1[m].fc == ot[m].fc || (ot[m].fc == 0 && t1[m].fc == 1 && m <= 2),
            forall|x: int|
                0 <= x < spec_elems(kind) ==> (#[trigger] t1[x].fc != 0 <==> (ot[x].fc != 0 || forced_sym(ot, spec_elems(kind), x))),
            t1[max_code as int].fc != 0,
            old(self).opt_len as int == (opt_i - sym_sum(t1, spec_elems(kind), forced_wt(ot))) % 0x1_0000_0000,
            old(self).static_len as int == if !(kind is BitLength) {
                (st_i - sym_sum(t1, spec_elems(kind), forced_swt(ot, old(self).sd, kind))) % 0x1_0000_0000
            } else {
                st_i
            },
            0 <= opt_i < 0x1_0000_0000,
            0 <= st_i < 0x1_0000_0000,
        ensures
            *final(self) == (DeflateState {
                heap: final(self).heap,
                heap_max: final(self).heap_max,
                bl_count: final(self).bl_count,
                opt_len: final(self).opt_len,
                static_len: final(self).static_len,
                ..*old(self)
            }),
            final(self).heap_arrays_ok(),
            final(tree).len() == old(tree).len(),
            forall|n: int|
                0 <= n < spec_elems(kind) ==> code_fits(#[trigger] final(tree)[n]) && final(tree)[n].dl
                    <= spec_max_length(kind),
            forall|n: int|
                max_code < n < spec_elems(kind) ==> (#[trigger] final(tree)[n]).fc == 0 && final(tree)[n].dl
                    == 0,
            forall|n: int|
                0 <= n < spec_elems(kind) && ot[n].fc != 0 ==> 1 <= (#[trigger] final(tree)[n]).dl,
            forall|n: int| 0 <= n < spec_elems(kind) && #[trigger] ot[n].fc != 0 ==> n <= max_code,
            canonical_codes(final(tree)@, max_code + 1),
            kraft_complete(final(tree)@, max_code + 1),
            final(self).opt_len as int == (opt_i + sym_sum(final(tree)@, max_code + 1, built_wt(ot, kind)))
                % 0x1_0000_0000,
            final(self).static_len as int == if kind is BitLength {
                st_i
            } else {
                (st_i + sym_sum(ot, max_code + 1, static_wt(old(self).sd, kind))) % 0x1_0000_0000
            },
            huffman_merges(
                final(self).heap@,
                final(self).heap_max as int,
                merge_weights(ot, final(tree)@, spec_elems(kind)),
                final(self).depth@,
                spec_elems(kind),
            ),
            limited_lengths(
                final(self).heap@,
                final(self).heap_max as int,
                spec_elems(kind),
                max_code as int,
                spec_max_length(kind),
                final(self).bl_count@,
                final(tree)@,
            ),
            leaves_are(final(self).heap@, final(self).heap_max + 1, ot, spec_elems(kind)),
            forall|g: int|
                final(self).heap_max <= g < HEAP_SIZE ==> #[trigger] final(self).heap[g] <= max_code || final(self).heap[g]
                    >= spec_elems(kind),
            forall|x: int|
                0 <= x < spec_elems(kind) && ot[x].fc == 0 && !forced_sym(ot, spec_elems(kind), x)
                    ==> #[trigger] final(tree)[x].dl == 0,
            1 <= final(tree)[max_code as int].dl,
            final(self).heap_max == old(self).heap_max - 1,
            final(self).heap@ == old(self).heap@.update(old(self).heap_max - 1, old(self).heap[1]),
    {
        let d: Desc = desc_for(kind);
        let elems: usize = d.elems;
        let ghost tlen = tree.len() as int;
        let ghost o1 = self.opt_len as int;
        let ghost s1 = self.static_len as int;
        // The root of the tree.
        let ghost h7 = self.heap@;
        let ghost hm7 = self.heap_max as int;
        let ghost up7 = heap_upper(h7, hm7);
        let root: i32 = self.heap[SMALLEST];
        proof {
            lemma_part_member(h7, 1, 1);
            lemma_upper_push(h7, hm7, root);
            assert(self.heap_len == 1);
            assert(root == node - 1);
            assert(root >= elems);
        }
        self.heap_max -= 1;
        self.heap.set(self.heap_max, root);
        let ghost t2 = tree@;
        let ghost h8 = self.heap@;
        proof {
            broadcast use group_multiset_axioms;
            assert(heap_upper(h8, hm7 - 1) == up7.insert(root));
            assert forall|h: int| self.heap_max <= h < HEAP_SIZE implies 0 <= #[trigger] self.heap[h] < tree.len()
                && (self.heap[h] <= max_code || self.heap[h] >= spec_elems(kind)) by {
                lemma_upper_member(h8, hm7 - 1, h);
                if self.heap[h] != root {
                    assert(up7.count(self.heap[h]) > 0);
                }
            }
            assert(h8.subrange(hm7, HEAP_SIZE as int) =~= h7.subrange(hm7, HEAP_SIZE as int));
            assert forall|h: int| self.heap_max < h < HEAP_SIZE implies (#[trigger] tree[self.heap[h] as int]).dl
                < tree.len() by {
                lemma_upper_member(h8, hm7, h);
                assert(up7.count(self.heap[h]) > 0);
            }
        }
        proof {
            assert(self.heap@ == h7.update(hm7 - 1, h7[1]));
            lemma_shape_final(h7, hm7, tree@, t1, elems as int, node as int, max_code as int);
            broadcast use group_multiset_axioms;
            assert forall|n: int| 0 <= n <= max_code && #[trigger] tree@[n].fc != 0 implies at_pos(
                self.heap@,
                self.heap_max + 1,
                n,
            ) by {
                assert(t1[n].fc != 0);
                let p7 = heap_part(h7, 1);
                let up7 = heap_upper(h7, hm7);
                assert(p7.count(n as i32) + up7.count(n as i32) == 1);
                if p7.count(n as i32) > 0 {
                    let i = lemma_sub_witness(h7, 1, 2, n as i32);
                    assert(false);
                }
                let g = lemma_sub_witness(h7, hm7, HEAP_SIZE as int, n as i32);
                assert(self.heap@[g] == h7[g]);
            }
        }
        assert(leaves_are(h8, hm7, ot, elems as int)) by {
            assert forall|g: int| hm7 <= g < HEAP_SIZE && 0 <= #[trigger] h8[g] < elems implies t1[h8[g] as int].fc != 0 by {
                assert(h8[g] == h7[g]);
                lemma_upper_member(h7, hm7, g);
                assert(heap_upper(h7, hm7).count(h7[g]) > 0);
            }
            assert forall|n: int| 0 <= n <= max_code && #[trigger] t1[n].fc != 0 implies at_pos(h8, hm7, n) by {
                assert(t2[n].fc == t1[n].fc);
            }
            lemma_leaf_set(h8, hm7, ot, t1, elems as int, max_code as int);
        }
        let ghost dep = self.depth@;
        proof {
            lemma_merges_root(h7, hm7, t2, dep, elems as int, node - elems);
            assert(h8 == h7.update(hm7 - 1, (elems + (node - elems) - 1) as i32));
        }
        self.gen_bitlen(tree, kind, max_code);
        let ghost t3 = tree@;
        proof {
            assert forall|n: int| 0 <= n <= max_code implies #[trigger] tree[n].dl <= 15 by {
                if t1[n].fc != 0 {
                    assert(heap_part(h7, 1).count(n as i32) > 0 || heap_upper(h7, hm7).count(n as i32) > 0);
                    if heap_part(h7, 1).count(n as i32) > 0 {
                        let i = lemma_sub_witness(h7, 1, 2, n as i32);
                        assert(false);
                    }
                    let h = lemma_sub_witness(h7, hm7, HEAP_SIZE as int, n as i32);
                    assert(h8[h] == n);
                }
            }
        }
        gen_codes(tree, max_code, &self.bl_count);
        proof {
            assert forall|n: int| 0 <= n < spec_elems(kind) implies code_fits(#[trigger] tree[n]) && tree[n].dl
                <= spec_max_length(kind) by {
                if n <= max_code {
                    if t1[n].fc != 0 {
                        assert(heap_part(h7, 1).count(n as i32) > 0 || heap_upper(h7, hm7).count(n as i32) > 0);
                        if heap_part(h7, 1).count(n as i32) > 0 {
                            let i = lemma_sub_witness(h7, 1, 2, n as i32);
                            assert(false);
                        }
                        let h = lemma_sub_witness(h7, hm7, HEAP_SIZE as int, n as i32);
                        assert(h8[h] == n);
                    } else {
                        assert(t2[n].dl == 0);
                        if t3[n].dl == 0 {
                            assert(tree[n] == t3[n]);
                            assert(t3[n].fc == 0);
                            assert((0u16 as u32) >> (0u16 as u32) == 0) by (bit_vector);
                        }
                    }
                } else {
                    assert(tree[n] == t3[n]);
                    assert((0u16 as u32) >> (0u16 as u32) == 0) by (bit_vector);
                }
            }
            assert forall|n: int| 0 <= n < spec_elems(kind) && ot[n].fc != 0 implies 1 <= (
            #[trigger] tree[n]).dl by {
                assert(t1[n].fc != 0);
                assert(heap_part(h7, 1).count(n as i32) > 0 || heap_upper(h7, hm7).count(n as i32) > 0);
                if heap_part(h7, 1).count(n as i32) > 0 {
                    let i = lemma_sub_witness(h7, 1, 2, n as i32);
                    assert(false);
                }
                let h = lemma_sub_witness(h7, hm7, HEAP_SIZE as int, n as i32);
                assert(h8[h] == n);
            }
            assert forall|n: int| 0 <= n < spec_elems(kind) && #[trigger] ot[n].fc != 0 implies n
                <= max_code by {
                assert(1 <= tree[n].dl);
            }
        }
        proof {
            self.lemma_built_codes(h7, hm7, t1, t2, t3, tree@, kind, max_code as int, node as int);
            broadcast use group_multiset_axioms;
            let p7 = heap_part(h7, 1);
            let up7 = heap_upper(h7, hm7);
            assert forall|n: int| 0 <= n <= max_code && #[trigger] t1[n].fc != 0 implies t3[n].dl >= 1 by {
                assert(p7.count(n as i32) + up7.count(n as i32) == 1);
                if p7.count(n as i32) > 0 {
                    let i = lemma_sub_witness(h7, 1, 2, n as i32);
                    assert(false);
                }
                let h = lemma_sub_witness(h7, hm7, HEAP_SIZE as int, n as i32);
                assert(h8[h] == n);
            }
            assert forall|n: int| 0 <= n <= max_code && #[trigger] t1[n].fc == 0 implies t3[n].dl == 0 by {
                assert(t2[n].dl == 0);
                if t3[n].dl != t2[n].dl {
                    assert(at_pos(h8, hm7 - 1, n));
                    let g = choose|g: int| hm7 - 1 <= g < HEAP_SIZE && #[trigger] h8[g] as int == n;
                    assert(p7.count(n as i32) + up7.count(n as i32) == 0);
                    if g == hm7 - 1 {
                        assert(h8[g] == h7[1]);
                        lemma_part_member(h7, 1, 1);
                    } else {
                        assert(h8[g] == h7[g]);
                        lemma_upper_member(h7, hm7, g);
                    }
                }
            }
            lemma_built_costs(
                ot,
                t1,
                t2,
                t3,
                tree@,
                kind,
                old(self).sd,
                max_code as int,
                opt_i,
                st_i,
                o1,
                s1,
                self.opt_len as int,
                self.static_len as int,
            );
        }
        assert(huffman_merges(h8, hm7 - 1, merge_weights(ot, tree@, elems as int), dep, elems as int)) by {
            let w = merge_weights(ot, tree@, elems as int);
            assert forall|g: int| hm7 - 1 <= g < HEAP_SIZE implies #[trigger] w[h8[g] as int].fc == t2[h8[g] as int].fc by {
                let x = h8[g];
                if g >= hm7 {
                    assert(x == h7[g]);
                    lemma_upper_member(h7, hm7, g);
                    assert(heap_upper(h7, hm7).count(x) > 0);
                }
                if x < elems {
                    assert(g >= hm7);
                    assert(t2[x as int].fc != 0);
                    assert(t2[x as int].fc == t1[x as int].fc);
                } else {
                    assert(x as int > max_code);
                    assert(tree@[x as int] == t3[x as int]);
                }
            }
            assert forall|i: int| 0 <= i && hm7 - 1 <= HEAP_SIZE - 2 - 2 * i implies #[trigger] w[elems + i].fc == t2[elems + i].fc by {
                assert(tree@[elems + i] == t3[elems + i]);
            }
            lemma_merges_frame(h8, hm7 - 1, t2, w, dep, elems as int);
        }
        assert(limited_lengths(h8, hm7 - 1, elems as int, max_code as int, spec_max_length(kind), self.bl_count@, tree@)) by {
            reveal(limited_lengths);
            let hm8 = hm7 - 1;
            let mt = merge_tree(h8, hm8, elems as int);
            let mx = spec_max_length(kind);
            let lim = max_code + 1;
            assert forall|p: int| hm8 < p < HEAP_SIZE implies #[trigger] t2[h8[p] as int].dl == mt[h8[p] as int].dl by {
                lemma_merge_tree_dl(h8, hm8, elems as int, p);
                assert(h8[p] == h7[p]);
            }
            assert forall|g: int| hm8 < g < HEAP_SIZE implies #[trigger] depth_at(h8, hm8, t2, g) == depth_at(h8, hm8, mt, g) by {
                lemma_depth_frame(h8, hm8, t2, mt, g);
            }
            lemma_over_count_frame(h8, hm8, t2, mt, HEAP_SIZE as int, mx);
            assert forall|b: int| 0 <= b < 16 implies depth_counts(h8, hm8, t2, lim, mx)[b] == depth_counts(h8, hm8, mt, lim, mx)[b] by {
                lemma_depth_count_frame(h8, hm8, t2, mt, hm8 + 1, HEAP_SIZE as int, lim, mx, b);
            }
            assert(depth_counts(h8, hm8, t2, lim, mx) =~= depth_counts(h8, hm8, mt, lim, mx));
            assert forall|g: int| hm8 < g < HEAP_SIZE && 0 <= h8[g] <= max_code implies #[trigger] tree@[h8[g] as int].dl == t3[h8[g] as int].dl by {}
        }
        assert(1 <= tree@[max_code as int].dl) by {
            assert(t1[max_code as int].fc != 0);
            assert(t3[max_code as int].dl >= 1);
        }
        assert forall|x: int|
            0 <= x < elems && ot[x].fc == 0 && !forced_sym(ot, elems as int, x) implies #[trigger] tree@[x].dl == 0 by {
            assert(t1[x].fc == 0);
            if x <= max_code {
                assert(t3[x].dl == 0);
            }
        }
        assert(self.heap@ == h8);
    }

    /// After `gen_bitlen` and `gen_codes`: the codes are the canonical codes of the lengths,
    /// and the lengths fill the Kraft inequality.
    proof fn lemma_built_codes(
        &self,
        h7: Seq<i32>,
        hm7: int,
        t1: Seq<CtData>,
        t2: Seq<CtData>,
        t3: Seq<CtData>,
        tf: Seq<CtData>,
        kind: TreeKind,
        max_code: int,
        node: int,
    )
        requires
            combine_inv(h7, 1, hm7, t2, t1, spec_elems(kind), node),
            tree_shape(self.heap@, hm7 - 1, t2, spec_elems(kind), max_code),
            self.heap@ == h7.update(hm7 - 1, h7[1]),
            self.heap_max == hm7 - 1,
            h7.len() == HEAP_SIZE,
            3 <= hm7 <= HEAP_SIZE,
            0 <= max_code < spec_elems(kind) < node,
            h7[1] as int == node - 1,
            t1.len() == t2.len(),
            t3.len() == t2.len(),
            tf.len() == t2.len(),
            spec_elems(kind) <= t2.len(),
            forall|m: int| 0 <= m < spec_elems(kind) && t1[m].fc == 0 ==> #[trigger] t2[m].dl == 0,
            self.bl_count.len() == 16,
            forall|b: int|
                1 <= b < 16 ==> #[trigger] self.bl_count[b] as int == len_count(
                    self.heap@,
                    t3,
                    hm7,
                    HEAP_SIZE as int,
                    max_code + 1,
                    b,
                ),
            self.bl_count[0] == 0,
            forall|b: int| spec_max_length(kind) < b < 16 ==> #[trigger] self.bl_count[b] == 0,
            kraft_sum(self.bl_count@, spec_max_length(kind), spec_max_length(kind) + 1) == pow2(
                spec_max_length(kind) as nat,
            ),
            forall|n: int|
                0 <= n < t3.len() && #[trigger] t3[n].dl != t2[n].dl ==> at_pos(self.heap@, hm7 - 1, n),
            forall|n: int| 0 <= n < tf.len() ==> #[trigger] tf[n].dl == t3[n].dl,
            forall|n: int| 0 <= n <= max_code ==> #[trigger] t3[n].dl <= 15,
            forall|n: int|
                0 <= n <= max_code && t3[n].dl != 0 ==> low_bits(#[trigger] tf[n].fc as u32, tf[n].dl as nat)
                    == low_bits(spec_canonical_code(t3, self.bl_count@, n), tf[n].dl as nat).reverse(),
        ensures
            canonical_codes(tf, max_code + 1),
            kraft_complete(tf, max_code + 1),
    {
        broadcast use group_multiset_axioms;
        let h8 = self.heap@;
        let hm8 = hm7 - 1;
        let lim = max_code + 1;
        let elems = spec_elems(kind);
        let mx = spec_max_length(kind);
        let p7 = heap_part(h7, 1);
        let up7 = heap_upper(h7, hm7);
        assert forall|g1: int, g2: int| hm7 <= g1 < HEAP_SIZE && hm7 <= g2 < HEAP_SIZE && g1 != g2 implies #[trigger] h8[g1]
            != #[trigger] h8[g2] by {}
        assert(distinct_from(h8, hm7));
        assert forall|b: int| 1 <= b < 16 implies #[trigger] self.bl_count[b] as int == count_len(t3, lim, b) by {
            assert forall|x: int| 0 <= x < lim && #[trigger] t3[x].dl as int == b implies at_pos(h8, hm7, x) by {
                if t1[x].fc != 0 {
                    assert(p7.count(x as i32) + up7.count(x as i32) == 1);
                    if p7.count(x as i32) > 0 {
                        let i = lemma_sub_witness(h7, 1, 2, x as i32);
                        assert(false);
                    }
                    let g = lemma_sub_witness(h7, hm7, HEAP_SIZE as int, x as i32);
                    assert(h8[g] == h7[g]);
                } else {
                    assert(t2[x].dl == 0);
                    assert(at_pos(h8, hm8, x));
                    let g = choose|g: int| hm8 <= g < HEAP_SIZE && #[trigger] h8[g] as int == x;
                    assert(g != hm8);
                }
            }
            lemma_len_count_symbols(h8, t3, hm7, lim, b);
        }
        assert forall|b: int| 0 <= b < 16 implies #[trigger] len_counts(tf, lim)[b] == self.bl_count[b] by {
            lemma_count_len_frame(tf, t3, lim, b);
            lemma_count_len_bound(t3, lim, b);
        }
        assert(len_counts(tf, lim) =~= self.bl_count@);
        assert forall|i: int| 0 <= i < lim && tf[i].dl != 0 implies #[trigger] low_bits(tf[i].fc as u32, tf[i].dl as nat)
            == low_bits(spec_canonical_code(tf, len_counts(tf, lim), i), tf[i].dl as nat).reverse() by {
            lemma_count_len_frame(tf, t3, i, tf[i].dl as int);
            assert(spec_canonical_code(tf, self.bl_count@, i) == spec_canonical_code(t3, self.bl_count@, i));
        }
        // The Kraft sum in units of 2^-15.
        lemma_kraft_sum_tail(self.bl_count@, 15, mx + 1, 16);
        lemma_kraft_sum_scale(self.bl_count@, mx, mx + 1);
        vstd::arithmetic::power2::lemma_pow2_adds((15 - mx) as nat, mx as nat);
        assert forall|i: int| 0 <= i < lim implies #[trigger] tf[i].dl <= 15 by {
            assert(t3[i].dl <= 15);
        }
    }

    /// `pqdownheap(tree, k)`: restore the heap property moving down from `k`. The nodes in
    /// the heap part stay the same, as a multiset, and the heap it leaves is exactly zlib's
    /// sift-down (`sift`), which moves only positions in the subtree of `k`
    /// (`heap_order::lemma_sift_subtree`).
    pub fn pqdownheap(&mut self, tree: &Vec<CtData>, k0: usize)
        requires
            old(self).heap_arrays_ok(),
            tree.len() <= HEAP_SIZE,
            1 <= k0 <= old(self).heap_len < HEAP_SIZE,
            forall|i: int|
                1 <= i <= old(self).heap_len ==> 0 <= #[trigger] old(self).heap[i] < tree.len(),
        ensures
            *final(self) == (DeflateState { heap: final(self).heap, ..*old(self) }),
            final(self).heap.len() == HEAP_SIZE,
            heap_part(final(self).heap@, final(self).heap_len as int) == heap_part(
                old(self).heap@,
                old(self).heap_len as int,
            ),
            forall|i: int|
                0 <= i < HEAP_SIZE && !(1 <= i <= old(self).heap_len) ==> #[trigger] final(self).heap[i]
                    == old(self).heap[i],
            forall|i: int|
                1 <= i <= final(self).heap_len ==> 0 <= #[trigger] final(self).heap[i] < tree.len(),
            2 * k0 > old(self).heap_len ==> final(self).heap@ == old(self).heap@,
            heap_ordered_from(old(self).heap@, old(self).heap_len as int, tree@, old(self).depth@, k0 + 1)
                ==> heap_ordered_from(final(self).heap@, old(self).heap_len as int, tree@, old(self).depth@, k0 as int),            final(self).heap@ == sift(
                old(self).heap@,
                old(self).heap_len as int,
                k0 as int,
                old(self).heap[k0 as int],
                tree@,
                old(self).depth@,
            ),
    {
        let ghost hyp = heap_ordered_from(self.heap@, self.heap_len as int, tree@, self.depth@, k0 + 1);
        let ghost dp = self.depth@;
        let ghost orig = self.heap@;
        let len: usize = self.heap_len;
        let v: i32 = self.heap[k0];
        let mut k: usize = k0;
        let mut j: usize = k << 1;
        assert(k << 1 == k * 2) by (bit_vector)
            requires
                k < 1000,
        ;
        assert(self.heap@.update(k as int, v) =~= self.heap@);
        while j <= self.heap_len
            invariant_except_break
                j == 2 * k,
            invariant
                *self == (DeflateState { heap: self.heap, ..*old(self) }),
                self.heap.len() == HEAP_SIZE,
                self.heap_len == len,
                1 <= len < HEAP_SIZE,
                1 <= k <= len,
                orig.len() == HEAP_SIZE,
                2 * k0 > len ==> (k == k0 && self.heap@ == orig),
                0 <= v < tree.len(),
                tree.len() <= HEAP_SIZE,
                tree.len() <= self.depth.len(),
                heap_part(self.heap@.update(k as int, v), len as int) == heap_part(orig, len as int),
                forall|i: int|
                    0 <= i < HEAP_SIZE && !(1 <= i <= len) ==> #[trigger] self.heap[i] == orig[i],
                forall|i: int| 1 <= i <= len ==> 0 <= #[trigger] self.heap[i] < tree.len(),
                dp == self.depth@,
                k0 <= k,
                v == orig[k0 as int],
                hyp == heap_ordered_from(orig, len as int, tree@, dp, k0 + 1),
                hyp ==> forall|i: int|
                    2 <= i <= len && i / 2 >= k0 && i != k && i / 2 != k ==> #[trigger] node_le(
                        tree@,
                        dp,
                        self.heap[i / 2] as int,
                        self.heap[i] as int,
                    ),
                hyp && k != k0 ==> node_le(tree@, dp, self.heap[k as int / 2] as int, v as int),
                hyp && k != k0 ==> forall|c: int|
                    2 * k <= c <= 2 * k + 1 && c <= len ==> #[trigger] node_le(tree@, dp, self.heap[k as int / 2] as int, self.heap[c] as int),
                sift(self.heap@, len as int, k as int, v, tree@, dp) == sift(orig, len as int, k0 as int, v, tree@, dp),
            ensures
                sift(self.heap@, len as int, k as int, v, tree@, dp) == self.heap@.update(k as int, v),
                hyp ==> forall|c: int|
                    2 * k <= c <= 2 * k + 1 && c <= len ==> #[trigger] node_le(tree@, dp, v as int, self.heap[c] as int),
            decreases len - k,
        {
            if j < self.heap_len && smaller(tree, self.heap[j + 1], self.heap[j], &self.depth) {
                j += 1;
            }
            if smaller(tree, v, self.heap[j], &self.depth) {
                break;
            }
            let hj: i32 = self.heap[j];
            proof {
                let l = self.heap@.update(k as int, v);
                lemma_heap_part_update(self.heap@, len as int, k as int, v);
                lemma_heap_part_update(self.heap@, len as int, k as int, hj);
                lemma_heap_part_update(self.heap@.update(k as int, hj), len as int, j as int, v);
                let sub = l.subrange(1, len + 1);
                lemma_swap_multiset(sub, k - 1, j - 1);
                assert(self.heap@.update(k as int, hj).update(j as int, v).subrange(1, len + 1)
                    =~= sub.update(k - 1, sub[j - 1]).update(j - 1, sub[k - 1]));
            }
            let ghost h0 = self.heap@;
            self.heap.set(k, hj);
            proof {
                if hyp {
                    assert forall|c: int| 2 * j <= c <= 2 * j + 1 && c <= len implies #[trigger] node_le(
                        tree@,
                        dp,
                        self.heap[j as int / 2] as int,
                        self.heap[c] as int,
                    ) by {
                        assert(c / 2 == j);
                        assert(j as int / 2 == k);
                        assert(h0[c / 2] == hj);
                        assert(node_le(tree@, dp, h0[c / 2] as int, h0[c] as int));
                    }
                }
            }
            k = j;
            assert(j << 1 == j * 2) by (bit_vector)
                requires
                    j < 1000,
            ;
            j <<= 1;
        }
        proof {
            if 2 * k0 > len {
                assert(k == k0);
                assert(self.heap@ == orig);
                assert(self.heap@.update(k as int, v) =~= orig);
            }
        }
        let ghost h1 = self.heap@;
        self.heap.set(k, v);
        proof {
            if hyp {
                let h2 = self.heap@;
                assert forall|i: int| 2 <= i <= len && i / 2 >= k0 implies #[trigger] node_le(
                    tree@,
                    dp,
                    h2[i / 2] as int,
                    h2[i] as int,
                ) by {
                    if i == k {
                        assert(h2[i / 2] == h1[k as int / 2]);
                    } else if i / 2 == k {
                        assert(h2[i] == h1[i]);
                    } else {
                        assert(h2[i / 2] == h1[i / 2]);
                        assert(h2[i] == h1[i]);
                    }
                }
            }
        }
    }
}

/// Symbol `i` of a symbol buffer: the distance (0 for a literal) and the literal or the
/// match length minus 3.
pub open spec fn sym_at(buf: Seq<u8>, i: int) -> (int, int) {
    ((buf[3 * i] as int) + (buf[3 * i + 1] as int) * 256, buf[3 * i + 2] as int)
}

/// The literal/length code of symbol `s`: the byte of a literal, `257` plus the length's
/// code for a match.
pub open spec fn lit_code_of(lcode: Seq<u8>, s: (int, int)) -> int {
    if s.0 == 0 { s.1 } else { lcode[s.1] + 257 }
}

/// The number of the first `k` symbols of `buf` whose literal/length code is `n`.
pub open spec fn lit_count(lcode: Seq<u8>, buf: Seq<u8>, k: int, n: int) -> int
    decreases k,
{
    if k <= 0 {
        0
    } else {
        lit_count(lcode, buf, k - 1, n) + if lit_code_of(lcode, sym_at(buf, k - 1)) == n { 1int } else { 0 }
    }
}

/// The number of the first `k` symbols of `buf` that are matches with distance code `d`.
pub open spec fn dist_count(dcode: Seq<u8>, buf: Seq<u8>, k: int, d: int) -> int
    decreases k,
{
    if k <= 0 {
        0
    } else {
        dist_count(dcode, buf, k - 1, d) + if sym_at(buf, k - 1).0 != 0 && spec_d_code(dcode, sym_at(buf, k - 1).0 - 1)
            == d { 1int } else { 0 }
    }
}

/// Counts read only the symbols counted.
proof fn lemma_counts_frame(lcode: Seq<u8>, dcode: Seq<u8>, b1: Seq<u8>, b2: Seq<u8>, k: int, n: int, d: int)
    requires
        forall|i: int| 0 <= i < k ==> #[trigger] sym_at(b1, i) == sym_at(b2, i),
    ensures
        lit_count(lcode, b1, k, n) == lit_count(lcode, b2, k, n),
        dist_count(dcode, b1, k, d) == dist_count(dcode, b2, k, d),
    decreases k,
{
    if k > 0 {
        assert(sym_at(b1, k - 1) == sym_at(b2, k - 1));
        lemma_counts_frame(lcode, dcode, b1, b2, k - 1, n, d);
    }
}

/// A symbol the block can hold: a literal byte, or a match length (minus 3) with a distance
/// of at most 32K.
pub open spec fn sym_ok(s: (int, int)) -> bool {
    &&& 0 <= s.1 < 256
    &&& 0 <= s.0 <= 32768
}

/// The bits of a code: its `dl` low bits, least significant first (the code is stored
/// bit-reversed, so the code's first bit goes out first).
pub open spec fn code_bits(c: CtData) -> Seq<bool> {
    low_bits(c.fc as u32, c.dl as nat)
}

/// The bits of one symbol with the given literal/length and distance trees (RFC 1951,
/// 3.2.5): a literal's code; or the length code, its extra bits, the distance code and its
/// extra bits.
pub open spec fn sym_bits(lcode: Seq<u8>, dcode: Seq<u8>, lt: Seq<CtData>, dt: Seq<CtData>, s: (int, int)) -> Seq<bool> {
    let (dist, lc) = s;
    if dist == 0 {
        code_bits(lt[lc])
    } else {
        let code = lcode[lc] as int;
        let d = dist - 1;
        let dc = spec_d_code(dcode, d);
        code_bits(lt[code + 257]) + low_bits((lc - spec_base_length(code)) as u32, spec_extra_lbits(code) as nat)
            + code_bits(dt[dc]) + low_bits((d - spec_base_dist(dc)) as u32, spec_extra_dbits(dc) as nat)
    }
}

/// The bits of the first `k` symbols of a buffer.
pub open spec fn syms_bits(lcode: Seq<u8>, dcode: Seq<u8>, lt: Seq<CtData>, dt: Seq<CtData>, buf: Seq<u8>, k: int) -> Seq<bool>
    decreases k,
{
    if k <= 0 {
        Seq::empty()
    } else {
        syms_bits(lcode, dcode, lt, dt, buf, k - 1) + sym_bits(lcode, dcode, lt, dt, sym_at(buf, k - 1))
    }
}

/// A code that can be sent and is not empty.
pub open spec fn code_ok(c: CtData) -> bool {
    code_fits(c) && c.dl >= 1
}

/// The codes that symbol `s` uses are in the trees: its literal or length code, and its
/// distance code.
pub open spec fn sym_codes_ok(lcode: Seq<u8>, dcode: Seq<u8>, lt: Seq<CtData>, dt: Seq<CtData>, s: (int, int)) -> bool {
    let (dist, lc) = s;
    if dist == 0 {
        code_ok(lt[lc])
    } else {
        code_ok(lt[lcode[lc] + 257]) && code_ok(dt[spec_d_code(dcode, dist - 1)])
    }
}

/// Every one of the first `k` symbols of `buf` has its codes in the trees.
pub open spec fn syms_codes_ok(lcode: Seq<u8>, dcode: Seq<u8>, lt: Seq<CtData>, dt: Seq<CtData>, buf: Seq<u8>, k: int) -> bool {
    forall|i: int| 0 <= i < k ==> sym_codes_ok(lcode, dcode, lt, dt, #[trigger] sym_at(buf, i))
}

/// The frequencies count symbol `s`: its codes have a nonzero frequency.
pub open spec fn sym_counted(lcode: Seq<u8>, dcode: Seq<u8>, lt: Seq<CtData>, dt: Seq<CtData>, s: (int, int)) -> bool {
    let (dist, lc) = s;
    if dist == 0 {
        lt[lc].fc >= 1
    } else {
        lt[lcode[lc] + 257].fc >= 1 && dt[spec_d_code(dcode, dist - 1)].fc >= 1
    }
}

/// Every symbol of a tree has a code that can be sent.
pub open spec fn tree_codes_fit(t: Seq<CtData>, n: int) -> bool {
    &&& t.len() >= n
    &&& forall|i: int| 0 <= i < n ==> code_fits(#[trigger] t[i])
}

/// The code-length symbols zlib sends for a run of `count` lengths `curlen`, the last length
/// sent being `prevlen`: the length `count` times when the run is shorter than `min_count`;
/// else the length (unless it is `prevlen`) and a repeat (16); or a run of zeros (17, 18).
pub open spec fn run_toks(curlen: int, count: int, prevlen: int, min_count: int) -> Seq<(int, int)> {
    if count < min_count {
        Seq::new(count as nat, |i: int| (curlen, 0int))
    } else if curlen != 0 {
        if curlen != prevlen {
            seq![(curlen, 0int), (16int, count - 4)]
        } else {
            seq![(16int, count - 3)]
        }
    } else if count <= 10 {
        seq![(17int, count - 3)]
    } else {
        seq![(18int, count - 11)]
    }
}

/// zlib's run-length coding of the code lengths `lens` (RFC 1951, 3.2.7), after the first
/// `n` of them: the symbols sent, the number of lengths held in the current run, the last
/// length sent, and the longest and shortest runs the next symbols may cover.
pub open spec fn rle_state(lens: Seq<int>, n: int) -> (Seq<(int, int)>, int, int, int, int)
    decreases n,
{
    if n <= 0 {
        if lens[0] == 0 {
            (Seq::empty(), 0, -1, 138, 3)
        } else {
            (Seq::empty(), 0, -1, 7, 4)
        }
    } else {
        let st = rle_state(lens, n - 1);
        let curlen = lens[n - 1];
        let nextlen = lens[n];
        if st.1 + 1 < st.3 && curlen == nextlen {
            (st.0, st.1 + 1, st.2, st.3, st.4)
        } else {
            let t = st.0 + run_toks(curlen, st.1 + 1, st.2, st.4);
            if nextlen == 0 {
                (t, 0, curlen, 138, 3)
            } else if curlen == nextlen {
                (t, 0, curlen, 6, 3)
            } else {
                (t, 0, curlen, 7, 4)
            }
        }
    }
}

/// The code-length symbols zlib sends for the lengths `tree[0..=max_code]`, which the guard
/// length at `max_code + 1` ends.
pub open spec fn rle_toks(tree: Seq<CtData>, max_code: int) -> Seq<(int, int)> {
    rle_state(tree_lens(tree, max_code + 2), max_code + 1).0
}

/// How many of the code-length symbols `toks` are `sym`.
pub open spec fn tok_count(toks: Seq<(int, int)>, sym: int) -> int
    decreases toks.len(),
{
    if toks.len() == 0 {
        0
    } else {
        tok_count(toks.drop_last(), sym) + if toks.last().0 == sym { 1int } else { 0 }
    }
}

/// zlib's estimate of a dynamic block's length in bits, header bits after the block type
/// included: the symbols with the literal/length and distance codes whose frequencies are
/// in `lf`, `df` and whose lengths are in `lt`, `dt`, the code-length symbols with the
/// code-length code `bl`, and the counts and code-length code lengths that the header sends.
pub open spec fn dyn_cost(
    lf: Seq<CtData>,
    df: Seq<CtData>,
    lt: Seq<CtData>,
    dt: Seq<CtData>,
    bl: Seq<CtData>,
    lmax: int,
    dmax: int,
    max_blindex: int,
) -> int {
    sym_sum(lt, lmax + 1, built_wt(lf, TreeKind::Literal)) + sym_sum(dt, dmax + 1, built_wt(df, TreeKind::Distance))
        + sym_sum(bl, BL_CODES as int, built_wt(bl_freqs(lt, lmax, dt, dmax), TreeKind::BitLength)) + 3 * (
    max_blindex + 1) + 14
}

/// zlib's estimate of the same symbols' length in bits with the fixed codes.
pub open spec fn static_cost(sd: StaticData, lf: Seq<CtData>, df: Seq<CtData>, lmax: int, dmax: int) -> int {
    sym_sum(lf, lmax + 1, static_wt(sd, TreeKind::Literal)) + sym_sum(df, dmax + 1, static_wt(sd, TreeKind::Distance))
}

/// The frequencies of the code-length symbols of a block: how often zlib's run-length coding
/// of the literal/length lengths up to `lmax` and of the distance lengths up to `dmax` uses
/// each.
pub open spec fn bl_freqs(lt: Seq<CtData>, lmax: int, dt: Seq<CtData>, dmax: int) -> Seq<CtData> {
    Seq::new(
        BL_CODES as nat,
        |k: int| CtData { fc: (tok_count(rle_toks(lt, lmax), k) + tok_count(rle_toks(dt, dmax), k)) as u16, dl: 0 },
    )
}

/// Counting over two runs of symbols adds up.
proof fn lemma_tok_count_concat(a: Seq<(int, int)>, b: Seq<(int, int)>, sym: int)
    ensures
        tok_count(a + b, sym) == tok_count(a, sym) + tok_count(b, sym),
    decreases b.len(),
{
    if b.len() == 0 {
        assert(a + b =~= a);
    } else {
        lemma_tok_count_concat(a, b.drop_last(), sym);
        assert((a + b).drop_last() =~= a + b.drop_last());
    }
}

/// `k` copies of one symbol count `k` times for it and not for the others.
proof fn lemma_tok_count_repeat(k: nat, t: (int, int), sym: int)
    ensures
        tok_count(Seq::new(k, |i: int| t), sym) == if t.0 == sym { k as int } else { 0 },
    decreases k,
{
    if k > 0 {
        lemma_tok_count_repeat((k - 1) as nat, t, sym);
        assert(Seq::new(k, |i: int| t).drop_last() =~= Seq::new((k - 1) as nat, |i: int| t));
    }
}

/// `scan_tree(tree, bltree, max_code)`: count, into the frequencies of `bltree`, the
/// code-length codes that `send_tree` will use to send the lengths `tree[0..=max_code]`,
/// and put the guard length `0xffff` after them.
///
/// Every nonzero length of the tree gets a nonzero frequency, and no frequency grows by
/// more than the number of lengths.
pub fn scan_tree(tree: &mut Vec<CtData>, bltree: &mut Vec<CtData>, max_code: i32)
    requires
        0 <= max_code < 1000,
        max_code + 1 < old(tree).len(),
        forall|n: int| 0 <= n <= max_code ==> #[trigger] old(tree)[n].dl <= 15,
        old(bltree).len() >= BL_CODES,
        forall|k: int| 0 <= k < BL_CODES ==> #[trigger] old(bltree)[k].fc <= 1000,
    ensures
        final(tree)@ == old(tree)@.update(max_code + 1, CtData { fc: old(tree)[max_code + 1].fc, dl: 0xffff }),
        final(bltree).len() == old(bltree).len(),
        forall|k: int| 0 <= k < final(bltree).len() ==> (#[trigger] final(bltree)[k]).dl == old(bltree)[k].dl,
        forall|k: int|
            0 <= k < BL_CODES ==> old(bltree)[k].fc <= (#[trigger] final(bltree)[k]).fc <= old(bltree)[k].fc
                + max_code + 1,
        forall|k: int| BL_CODES <= k < final(bltree).len() ==> #[trigger] final(bltree)[k] == old(bltree)[k],
        forall|n: int|
            0 <= n <= max_code && old(tree)[n].dl != 0 ==> 1 <= (#[trigger] final(bltree)[old(tree)[n].dl as int]).fc,
        forall|i: int|
            0 <= i < rle_toks(final(tree)@, max_code as int).len() ==> 0 <= (#[trigger] rle_toks(final(tree)@, max_code as int)[i]).0 < BL_CODES
                && 1 <= final(bltree)[rle_toks(final(tree)@, max_code as int)[i].0].fc,
        forall|k: int|
            0 <= k < BL_CODES ==> (#[trigger] final(bltree)[k]).fc == old(bltree)[k].fc + tok_count(
                rle_toks(final(tree)@, max_code as int),
                k,
            ),
{
    let ghost t0 = tree@;
    let ghost b0 = bltree@;
    let ghost mut toks: Seq<(int, int)> = Seq::empty();
    let mut prevlen: i32 = -1;
    let mut nextlen: i32 = tree[0].dl as i32;
    let mut count: i32 = 0;
    let mut max_count: i32 = 7;
    let mut min_count: i32 = 4;
    if nextlen == 0 {
        max_count = 138;
        min_count = 3;
    }
    let g: CtData = CtData { fc: tree[(max_code + 1) as usize].fc, dl: 0xffff };
    tree.set((max_code + 1) as usize, g);
    let ghost lens = tree_lens(tree@, max_code + 2);
    let mut n: i32 = 0;
    while n <= max_code
        invariant
            lens == tree_lens(tree@, max_code + 2),
            rle_state(lens, n as int) == (toks, count as int, prevlen as int, max_count as int, min_count as int),
            forall|i: int| 0 <= i < toks.len() ==> 0 <= (#[trigger] toks[i]).0 < BL_CODES && 1 <= bltree[toks[i].0].fc,
            forall|k: int| 0 <= k < BL_CODES ==> (#[trigger] bltree[k]).fc == b0[k].fc + tok_count(toks, k),
            0 <= n <= max_code + 1,
            max_code < 1000,
            tree@ == t0.update(max_code + 1, g),
            max_code + 1 < t0.len(),
            g.dl == 0xffff,
            forall|m: int| 0 <= m <= max_code ==> #[trigger] t0[m].dl <= 15,
            n <= max_code ==> nextlen == t0[n as int].dl,
            0 <= count <= n,
            count < max_count,
            3 <= min_count,
            max_count <= 138,
            -1 <= prevlen <= 15,
            n > max_code ==> count == 0,
            bltree.len() == b0.len(),
            b0.len() >= BL_CODES,
            forall|k: int| 0 <= k < bltree.len() ==> (#[trigger] bltree[k]).dl == b0[k].dl,
            forall|k: int| BL_CODES <= k < bltree.len() ==> #[trigger] bltree[k] == b0[k],
            forall|k: int| 0 <= k < BL_CODES ==> #[trigger] b0[k].fc <= 1000,
            forall|k: int|
                0 <= k < BL_CODES ==> b0[k].fc <= (#[trigger] bltree[k]).fc <= b0[k].fc + n - count,
            forall|m: int| n - count <= m < n ==> #[trigger] t0[m].dl == nextlen,
            forall|m: int|
                0 <= m < n - count && t0[m].dl != 0 ==> 1 <= (#[trigger] bltree[t0[m].dl as int]).fc,
            prevlen >= 1 ==> 1 <= bltree[prevlen as int].fc,
        decreases max_code + 1 - n,
    {
        let curlen: i32 = nextlen;
        nextlen = tree[(n + 1) as usize].dl as i32;
        count += 1;
        let ghost b1 = bltree@;
        let ghost rt = run_toks(curlen as int, count as int, prevlen as int, min_count as int);
        if count < max_count && curlen == nextlen {
            n += 1;
            continue;
        } else if count < min_count {
            let c: usize = curlen as usize;
            let e: CtData = CtData { fc: bltree[c].fc + count as u16, dl: bltree[c].dl };
            bltree.set(c, e);
        } else if curlen != 0 {
            if curlen != prevlen {
                let c: usize = curlen as usize;
                let e: CtData = CtData { fc: bltree[c].fc + 1, dl: bltree[c].dl };
                bltree.set(c, e);
            }
            let e: CtData = CtData { fc: bltree[REP_3_6].fc + 1, dl: bltree[REP_3_6].dl };
            bltree.set(REP_3_6, e);
        } else if count <= 10 {
            let e: CtData = CtData { fc: bltree[REPZ_3_10].fc + 1, dl: bltree[REPZ_3_10].dl };
            bltree.set(REPZ_3_10, e);
        } else {
            let e: CtData = CtData { fc: bltree[REPZ_11_138].fc + 1, dl: bltree[REPZ_11_138].dl };
            bltree.set(REPZ_11_138, e);
        }
        proof {
            let toks2 = toks + rt;
            assert forall|k: int| 0 <= k < BL_CODES implies (#[trigger] bltree[k]).fc == b0[k].fc + tok_count(toks2, k) by {
                lemma_tok_count_concat(toks, rt, k);
                if count < min_count {
                    lemma_tok_count_repeat(count as nat, (curlen as int, 0int), k);
                } else {
                    reveal_with_fuel(tok_count, 3);
                }
            }
            assert forall|i: int| 0 <= i < toks2.len() implies 0 <= (#[trigger] toks2[i]).0 < BL_CODES && 1
                <= bltree[toks2[i].0].fc by {
                if i < toks.len() {
                    assert(toks2[i] == toks[i]);
                    assert(b1[toks[i].0].fc <= bltree[toks[i].0].fc);
                } else {
                    assert(toks2[i] == rt[i - toks.len()]);
                }
            }
            toks = toks2;
        }
        proof {
            assert forall|m: int| 0 <= m < n + 1 && t0[m].dl != 0 implies 1 <= (#[trigger] bltree[t0[m].dl as int]).fc by {
                if m >= n + 1 - count {
                    assert(t0[m].dl == curlen);
                }
            }
        }
        count = 0;
        prevlen = curlen;
        if nextlen == 0 {
            max_count = 138;
            min_count = 3;
        } else if curlen == nextlen {
            max_count = 6;
            min_count = 3;
        } else {
            max_count = 7;
            min_count = 4;
        }
        n += 1;
    }
}

/// The code lengths of the first `n` elements of a tree.
pub open spec fn tree_lens(tree: Seq<CtData>, n: int) -> Seq<int> {
    Seq::new(n as nat, |i: int| tree[i].dl as int)
}

/// The number of extra bits after a code-length symbol (RFC 1951, 3.2.7).
pub open spec fn rle_extra(sym: int) -> nat {
    if sym == 16 {
        2
    } else if sym == 17 {
        3
    } else if sym == 18 {
        7
    } else {
        0
    }
}

/// A code-length symbol and the value of its extra bits, as they can be sent.
pub open spec fn tok_ok(t: (int, int)) -> bool {
    &&& 0 <= t.0 <= 18
    &&& 0 <= t.1
    &&& if t.0 == 16 {
        t.1 <= 3
    } else if t.0 == 17 {
        t.1 <= 7
    } else if t.0 == 18 {
        t.1 <= 127
    } else {
        t.1 == 0
    }
}

/// The code lengths `lens` followed by what one code-length symbol stands for: a length
/// (0..=15); the previous length `3 + extra` times (16); or `3 + extra` (17) or
/// `11 + extra` (18) zero lengths.
pub open spec fn rle_apply(lens: Seq<int>, t: (int, int)) -> Seq<int> {
    if t.0 < 16 {
        lens.push(t.0)
    } else if t.0 == 16 {
        lens + Seq::new((3 + t.1) as nat, |i: int| lens.last())
    } else if t.0 == 17 {
        lens + Seq::new((3 + t.1) as nat, |i: int| 0int)
    } else {
        lens + Seq::new((11 + t.1) as nat, |i: int| 0int)
    }
}

/// The code lengths `lens` followed by what the code-length symbols `toks` stand for.
pub open spec fn rle_expand(lens: Seq<int>, toks: Seq<(int, int)>) -> Seq<int>
    decreases toks.len(),
{
    if toks.len() == 0 {
        lens
    } else {
        rle_apply(rle_expand(lens, toks.drop_last()), toks.last())
    }
}

/// Code-length symbols a decoder reads: each can be sent, and the first does not repeat a
/// previous length.
pub open spec fn toks_ok(toks: Seq<(int, int)>) -> bool {
    &&& forall|i: int| 0 <= i < toks.len() ==> tok_ok(#[trigger] toks[i])
    &&& toks.len() > 0 ==> toks[0].0 != 16
}

/// The bits of a code-length symbol: its code in the code-length tree, then its extra bits.
pub open spec fn tok_bits(bl: Seq<CtData>, t: (int, int)) -> Seq<bool> {
    code_bits(bl[t.0]) + low_bits(t.1 as u32, rle_extra(t.0))
}

/// The bits of code-length symbols, in order.
pub open spec fn toks_bits(bl: Seq<CtData>, toks: Seq<(int, int)>) -> Seq<bool>
    decreases toks.len(),
{
    if toks.len() == 0 {
        Seq::empty()
    } else {
        toks_bits(bl, toks.drop_last()) + tok_bits(bl, toks.last())
    }
}

/// Sending one more code-length symbol.
proof fn lemma_toks_push(bl: Seq<CtData>, lens: Seq<int>, toks: Seq<(int, int)>, t: (int, int))
    requires
        toks_ok(toks),
        tok_ok(t),
        toks.len() == 0 ==> t.0 != 16,
    ensures
        toks_ok(toks.push(t)),
        rle_expand(lens, toks.push(t)) == rle_apply(rle_expand(lens, toks), t),
        toks_bits(bl, toks.push(t)) == toks_bits(bl, toks) + tok_bits(bl, t),
{
    assert(toks.push(t).drop_last() =~= toks);
    let tp = toks.push(t);
    assert forall|i: int| 0 <= i < tp.len() implies tok_ok(#[trigger] tp[i]) by {
        if i < toks.len() {
            assert(tp[i] == toks[i]);
        }
    }
}

/// The lengths of a tree run on by `k` elements of length `v`.
proof fn lemma_tree_lens_run(tree: Seq<CtData>, a: int, k: int, v: int)
    requires
        0 <= a,
        0 <= k,
        a + k <= tree.len(),
        forall|m: int| a <= m < a + k ==> #[trigger] tree[m].dl == v,
    ensures
        tree_lens(tree, a + k) == tree_lens(tree, a) + Seq::new(k as nat, |i: int| v),
{
    assert(tree_lens(tree, a + k) =~= tree_lens(tree, a) + Seq::new(k as nat, |i: int| v));
}

/// The code-length code lengths of a dynamic block header: the first `k` of them in the
/// order `bl_order`, three bits each.
pub open spec fn bl_lens_bits(bl: Seq<CtData>, k: int) -> Seq<bool>
    decreases k,
{
    if k <= 0 {
        Seq::empty()
    } else {
        bl_lens_bits(bl, k - 1) + low_bits(bl[spec_bl_order(k - 1)].dl as u32, 3)
    }
}

/// The tree description at the head of a dynamic block (RFC 1951, 3.2.7): the numbers of
/// literal/length, distance and code-length codes, the code-length code lengths, then the
/// code-length symbols of the literal/length and of the distance code lengths.
pub open spec fn tree_desc(
    lcodes: int,
    dcodes: int,
    blcodes: int,
    bl: Seq<CtData>,
    tl: Seq<(int, int)>,
    td: Seq<(int, int)>,
) -> Seq<bool> {
    low_bits((lcodes - 257) as u32, 5) + low_bits((dcodes - 1) as u32, 5) + low_bits((blcodes - 4) as u32, 4)
        + bl_lens_bits(bl, blcodes) + toks_bits(bl, tl) + toks_bits(bl, td)
}

/// `hdr` is a tree description of the code lengths of `lt` and `dt`: the lengths it sends
/// are theirs, the symbols it leaves out have no code, the code-length codes it leaves out
/// have length zero, and the codes of `lt`, `dt` and the code-length code are the canonical
/// codes of these lengths, each a complete prefix code.
#[verifier::opaque]
pub open spec fn describes(hdr: Seq<bool>, lt: Seq<CtData>, dt: Seq<CtData>) -> bool {
    exists|lcodes: int, dcodes: int, blcodes: int, bl: Seq<CtData>, tl: Seq<(int, int)>, td: Seq<(int, int)>|
        #[trigger] tree_desc(lcodes, dcodes, blcodes, bl, tl, td) == hdr && desc_ok(lcodes, dcodes, blcodes, bl, tl, td, lt, dt)
}

/// The code-length code `bl` is the Huffman code that zlib builds from the frequencies of the
/// code-length symbols `tl` and `td`, limited to 7 bits.
#[verifier::opaque]
pub open spec fn bl_huffman(tl: Seq<(int, int)>, td: Seq<(int, int)>, bl: Seq<CtData>) -> bool {
    exists|f: Seq<CtData>|
        (forall|k: int| 0 <= k < BL_CODES ==> #[trigger] f[k].fc == (tok_count(tl, k) + tok_count(td, k)) as u16)
            && #[trigger] huffman_code(f, bl, BL_CODES as int, MAX_BL_BITS as int)
}

/// The parts of a tree description fit its format and send the code lengths of `lt` and `dt`,
/// run-length coded as zlib codes them (`rle_toks`), each list ending at its last symbol
/// with a code, and the code-length code lengths up to
/// the last one in use (at least four); the three trees' codes are the canonical codes of the
/// lengths sent, and fill the Kraft inequality exactly; and the code-length code is the
/// Huffman code of the code-length symbols sent.
pub open spec fn desc_ok(
    lcodes: int,
    dcodes: int,
    blcodes: int,
    bl: Seq<CtData>,
    tl: Seq<(int, int)>,
    td: Seq<(int, int)>,
    lt: Seq<CtData>,
    dt: Seq<CtData>,
) -> bool {
    &&& 257 <= lcodes <= L_CODES
    &&& 1 <= dcodes <= D_CODES
    &&& 4 <= blcodes <= BL_CODES
    &&& lt.len() >= L_CODES
    &&& dt.len() >= D_CODES
    &&& tree_codes_fit(bl, BL_CODES as int)
    &&& forall|r: int| blcodes <= r < BL_CODES ==> #[trigger] bl[spec_bl_order(r)].dl == 0
    &&& forall|n: int| lcodes <= n < L_CODES ==> !(1 <= #[trigger] lt[n].dl <= 15)
    &&& forall|n: int| dcodes <= n < D_CODES ==> !(1 <= #[trigger] dt[n].dl <= 15)
    &&& toks_ok(tl)
    &&& toks_ok(td)
    &&& forall|i: int| 0 <= i < tl.len() ==> code_ok(bl[(#[trigger] tl[i]).0])
    &&& forall|i: int| 0 <= i < td.len() ==> code_ok(bl[(#[trigger] td[i]).0])
    &&& rle_expand(Seq::empty(), tl) == tree_lens(lt, lcodes)
    &&& rle_expand(Seq::empty(), td) == tree_lens(dt, dcodes)
    &&& canonical_codes(lt, lcodes) && kraft_complete(lt, lcodes)
    &&& canonical_codes(dt, dcodes) && kraft_complete(dt, dcodes)
    &&& canonical_codes(bl, BL_CODES as int) && kraft_complete(bl, BL_CODES as int)
    &&& bl_huffman(tl, td, bl)
    &&& 1 <= lt[lcodes - 1].dl <= 15
    &&& 1 <= dt[dcodes - 1].dl <= 15
    &&& (blcodes == 4 || bl[spec_bl_order(blcodes - 1)].dl != 0)
    &&& tl == rle_toks(lt, lcodes - 1)
    &&& td == rle_toks(dt, dcodes - 1)
}

/// Law: in a dynamic block, the literal/length codes form a prefix code, and so do the
/// distance codes: no symbol's code, as sent, is the beginning of another symbol's code.
pub proof fn lemma_dynamic_codes_prefix_free(hdr: Seq<bool>, lt: Seq<CtData>, dt: Seq<CtData>, i: int, j: int)
    requires
        describes(hdr, lt, dt),
        i != j,
    ensures
        0 <= i < L_CODES && 0 <= j < L_CODES && 1 <= lt[i].dl <= lt[j].dl <= 15 ==> code_bits(lt[j]).subrange(
            0,
            lt[i].dl as int,
        ) != code_bits(lt[i]),
        0 <= i < D_CODES && 0 <= j < D_CODES && 1 <= dt[i].dl <= dt[j].dl <= 15 ==> code_bits(dt[j]).subrange(
            0,
            dt[i].dl as int,
        ) != code_bits(dt[i]),
{
    reveal(describes);
    let (lcodes, dcodes, blcodes, bl, tl, td) = choose|
        lcodes: int,
        dcodes: int,
        blcodes: int,
        bl: Seq<CtData>,
        tl: Seq<(int, int)>,
        td: Seq<(int, int)>,
    |
        #[trigger] tree_desc(lcodes, dcodes, blcodes, bl, tl, td) == hdr && desc_ok(
            lcodes,
            dcodes,
            blcodes,
            bl,
            tl,
            td,
            lt,
            dt,
        );
    if 0 <= i < L_CODES && 0 <= j < L_CODES && 1 <= lt[i].dl <= lt[j].dl <= 15 {
        assert(i < lcodes && j < lcodes);
        lemma_prefix_free(lt, lcodes, i, j);
    }
    if 0 <= i < D_CODES && 0 <= j < D_CODES && 1 <= dt[i].dl <= dt[j].dl <= 15 {
        assert(i < dcodes && j < dcodes);
        lemma_prefix_free(dt, dcodes, i, j);
    }
}

/// The four length bytes of a stored block: the length and its one's complement, low byte
/// first.
pub open spec fn stored_len_bytes(len: int) -> Seq<u8> {
    seq![(len % 256) as u8, (len / 256) as u8, (255 - len % 256) as u8, (255 - len / 256) as u8]
}

/// Number of zero bits that pad a stream of `n` bits to a byte boundary.
pub open spec fn pad_len(n: int) -> nat {
    ((8 - n % 8) % 8) as nat
}

/// A stored block (RFC 1951, 3.2.4) holding `data`, sent after `before` bits.
pub open spec fn stored_block(before: int, last: bool, data: Seq<u8>) -> Seq<bool> {
    low_bits(last as u32, 3) + zero_bits(pad_len(before + 3)) + bytes_bits(stored_len_bytes(data.len() as int) + data)
}

/// A block with the fixed Huffman codes holding the first `k` symbols of `buf`.
pub open spec fn fixed_block(sd: StaticData, last: bool, buf: Seq<u8>, k: int) -> Seq<bool> {
    low_bits((2 + last as u32) as u32, 3) + syms_bits(sd.length_code@, sd.dist_code@, sd.static_ltree@, sd.static_dtree@, buf, k) + code_bits(
        sd.static_ltree[END_BLOCK as int],
    )
}

/// A block with dynamic Huffman codes `lt` and `dt` holding the first `k` symbols of `buf`,
/// whose tree description is `hdr`.
pub open spec fn dynamic_block(
    sd: StaticData,
    last: bool,
    hdr: Seq<bool>,
    lt: Seq<CtData>,
    dt: Seq<CtData>,
    buf: Seq<u8>,
    k: int,
) -> Seq<bool> {
    low_bits((4 + last as u32) as u32, 3) + hdr + syms_bits(sd.length_code@, sd.dist_code@, lt, dt, buf, k) + code_bits(lt[END_BLOCK as int])
}

/// `block` is the encoding of one block of the first `k` symbols of `buf`, sent after
/// `before` bits, whose input bytes are `data` (`None` when they are no longer in the
/// window): stored, with the fixed codes, or with dynamic codes, canonical and complete for
/// the lengths that the block's header sends.
pub open spec fn is_block(
    sd: StaticData,
    before: int,
    block: Seq<bool>,
    last: bool,
    data: Option<Seq<u8>>,
    buf: Seq<u8>,
    k: int,
) -> bool {
    ||| data matches Some(d) && block == stored_block(before, last, d)
    ||| block == fixed_block(sd, last, buf, k)
    ||| exists|hdr: Seq<bool>, lt: Seq<CtData>, dt: Seq<CtData>|
        describes(hdr, lt, dt) && syms_codes_ok(sd.length_code@, sd.dist_code@, lt, dt, buf, k) && code_ok(lt[END_BLOCK as int])
            && huffman_trees(sd, lt, dt, buf, k) && block == dynamic_block(sd, last, hdr, lt, dt, buf, k)
}

/// The frequencies of the literal/length codes of the first `k` symbols of `buf`, with the
/// one end of block.
pub open spec fn lit_freqs_of(lcode: Seq<u8>, buf: Seq<u8>, k: int, f: Seq<CtData>) -> bool {
    forall|n: int|
        0 <= n < L_CODES ==> #[trigger] f[n].fc as int == lit_count(lcode, buf, k, n) + if n == END_BLOCK { 1int } else { 0 }
}

/// The frequencies of the distance codes of the first `k` symbols of `buf`.
pub open spec fn dist_freqs_of(dcode: Seq<u8>, buf: Seq<u8>, k: int, f: Seq<CtData>) -> bool {
    forall|d: int| 0 <= d < D_CODES ==> #[trigger] f[d].fc as int == dist_count(dcode, buf, k, d)
}

/// The literal/length and distance codes of a dynamic block are the Huffman codes that
/// zlib builds from the frequencies of the block's symbols.
#[verifier::opaque]
pub open spec fn huffman_trees(sd: StaticData, lt: Seq<CtData>, dt: Seq<CtData>, buf: Seq<u8>, k: int) -> bool {
    &&& exists|lf: Seq<CtData>|
        lit_freqs_of(sd.length_code@, buf, k, lf) && #[trigger] huffman_code(lf, lt, L_CODES as int, MAX_BITS as int)
    &&& exists|df: Seq<CtData>|
        dist_freqs_of(sd.dist_code@, buf, k, df) && #[trigger] huffman_code(df, dt, D_CODES as int, MAX_BITS as int)
}

/// zlib's choice of encoding for a block, with the trees `lt`, `dt`, `bl` it builds from the
/// block's frequencies `lf`, `df`: the block's kind is the one `block_type` picks from the
/// estimates with these trees and with the fixed ones.
pub open spec fn choice_with(
    sd: StaticData,
    before: int,
    block: Seq<bool>,
    last: bool,
    data: Option<Seq<u8>>,
    buf: Seq<u8>,
    k: int,
    lf: Seq<CtData>,
    df: Seq<CtData>,
    lt: Seq<CtData>,
    dt: Seq<CtData>,
    bl: Seq<CtData>,
) -> bool {
    let lmax = tree_max(lf, L_CODES as int);
    let dmax = tree_max(df, D_CODES as int);
    let stored: int = match data {
        Some(d) => d.len() as int,
        None => 0,
    };
    &&& lit_freqs_of(sd.length_code@, buf, k, lf)
    &&& dist_freqs_of(sd.dist_code@, buf, k, df)
    &&& huffman_code(lf, lt, L_CODES as int, MAX_BITS as int)
    &&& huffman_code(df, dt, D_CODES as int, MAX_BITS as int)
    &&& bl_huffman(rle_toks(lt, lmax), rle_toks(dt, dmax), bl)
    &&& is_block_kind(
        block_type(
            dyn_cost(lf, df, lt, dt, bl, lmax, dmax, last_bl(bl, BL_CODES - 1)),
            static_cost(sd, lf, df, lmax, dmax),
            stored,
            data is Some,
        ),
        sd,
        before,
        block,
        last,
        data,
        buf,
        k,
        lt,
        dt,
    )
}

/// The encoding of `block` is the one zlib chooses for a block of the first `k` symbols of
/// `buf` (and the bytes `data`, when they are at hand): stored, fixed or dynamic as the
/// estimates with the Huffman trees of its frequencies and with the fixed trees decide.
#[verifier::opaque]
pub open spec fn zlib_choice(
    sd: StaticData,
    before: int,
    block: Seq<bool>,
    last: bool,
    data: Option<Seq<u8>>,
    buf: Seq<u8>,
    k: int,
) -> bool {
    exists|lf: Seq<CtData>, df: Seq<CtData>, lt: Seq<CtData>, dt: Seq<CtData>, bl: Seq<CtData>|
        #[trigger] choice_with(sd, before, block, last, data, buf, k, lf, df, lt, dt, bl)
}

/// The trees a block was estimated with show zlib's choice of its encoding.
proof fn lemma_zlib_choice(
    sd: StaticData,
    before: int,
    block: Seq<bool>,
    last: bool,
    data: Option<Seq<u8>>,
    buf: Seq<u8>,
    k: int,
    lt0: Seq<CtData>,
    dt0: Seq<CtData>,
    lt: Seq<CtData>,
    dt: Seq<CtData>,
    bl: Seq<CtData>,
    stored_len: int,
)
    requires
        lit_freqs_of(sd.length_code@, buf, k, lt0),
        dist_freqs_of(sd.dist_code@, buf, k, dt0),
        huffman_code(lt0, lt, L_CODES as int, MAX_BITS as int),
        huffman_code(dt0, dt, D_CODES as int, MAX_BITS as int),
        bl_huffman(rle_toks(lt, tree_max(lt0, L_CODES as int)), rle_toks(dt, tree_max(dt0, D_CODES as int)), bl),
        data is Some ==> data->0.len() == stored_len,
        is_block_kind(
            block_type(
                dyn_cost(
                    lt0,
                    dt0,
                    lt,
                    dt,
                    bl,
                    tree_max(lt0, L_CODES as int),
                    tree_max(dt0, D_CODES as int),
                    last_bl(bl, BL_CODES - 1),
                ),
                static_cost(sd, lt0, dt0, tree_max(lt0, L_CODES as int), tree_max(dt0, D_CODES as int)),
                stored_len,
                data is Some,
            ),
            sd,
            before,
            block,
            last,
            data,
            buf,
            k,
            lt,
            dt,
        ),
    ensures
        zlib_choice(sd, before, block, last, data, buf, k),
{
    reveal(zlib_choice);
    assert(choice_with(sd, before, block, last, data, buf, k, lt0, dt0, lt, dt, bl));
}

/// Trees built from a block's frequencies are its Huffman trees.
proof fn lemma_huffman_trees(
    sd: StaticData,
    lf: Seq<CtData>,
    df: Seq<CtData>,
    lt: Seq<CtData>,
    dt: Seq<CtData>,
    buf: Seq<u8>,
    k: int,
)
    requires
        lit_freqs_of(sd.length_code@, buf, k, lf),
        dist_freqs_of(sd.dist_code@, buf, k, df),
        huffman_code(lf, lt, L_CODES as int, MAX_BITS as int),
        huffman_code(df, dt, D_CODES as int, MAX_BITS as int),
    ensures
        huffman_trees(sd, lt, dt, buf, k),
{
    reveal(huffman_trees);
}

/// The three encodings of a block.
pub enum BlockType {
    Stored,
    Fixed,
    Dynamic,
}

/// zlib's choice of encoding for a block whose dynamic and fixed encodings it estimates at
/// `opt` and `stat` bits after the block type, counted in 32-bit unsigned arithmetic: the
/// estimates are rounded up to bytes with the block type; the stored block (its four length
/// bytes and the data) when the data is at hand and it is no longer than the smaller
/// estimate; else the fixed codes when their estimate is no larger; else dynamic codes.
pub open spec fn block_type(opt: int, stat: int, stored_len: int, has_buf: bool) -> BlockType {
    let opt_lenb0 = ((opt + 10) % 0x1_0000_0000) / 8;
    let static_lenb = ((stat + 10) % 0x1_0000_0000) / 8;
    let opt_lenb = if static_lenb <= opt_lenb0 { static_lenb } else { opt_lenb0 };
    if has_buf && stored_len + 4 <= opt_lenb {
        BlockType::Stored
    } else if static_lenb == opt_lenb {
        BlockType::Fixed
    } else {
        BlockType::Dynamic
    }
}

/// The last position in the sending order, among `3..=r`, of a code-length code with a
/// nonzero length, or 3 when there is none.
pub open spec fn last_bl(bl: Seq<CtData>, r: int) -> int
    decreases r,
{
    if r <= 3 {
        3
    } else if bl[spec_bl_order(r)].dl != 0 {
        r
    } else {
        last_bl(bl, r - 1)
    }
}

proof fn lemma_last_bl(bl: Seq<CtData>, mb: int, r: int)
    requires
        3 <= mb <= r < BL_CODES,
        bl[spec_bl_order(mb)].dl != 0,
        forall|j: int| mb < j <= r ==> #[trigger] bl[spec_bl_order(j)].dl == 0,
    ensures
        last_bl(bl, r) == mb,
    decreases r,
{
    if r > mb {
        lemma_last_bl(bl, mb, r - 1);
    }
}

/// `block` is the block of the first `k` symbols of `buf`, sent after `before` bits, in the
/// encoding `bt`: stored (the input bytes `data` being at hand), with the fixed codes, or with
/// dynamic codes of the lengths in `ll` and `dl`.
pub open spec fn is_block_kind(
    bt: BlockType,
    sd: StaticData,
    before: int,
    block: Seq<bool>,
    last: bool,
    data: Option<Seq<u8>>,
    buf: Seq<u8>,
    k: int,
    ll: Seq<CtData>,
    dl: Seq<CtData>,
) -> bool {
    match bt {
        BlockType::Stored => data matches Some(d) && block == stored_block(before, last, d),
        BlockType::Fixed => block == fixed_block(sd, last, buf, k),
        BlockType::Dynamic => exists|hdr: Seq<bool>, lt: Seq<CtData>, dt: Seq<CtData>|
            {
                &&& describes(hdr, lt, dt)
                &&& syms_codes_ok(sd.length_code@, sd.dist_code@, lt, dt, buf, k)
                &&& code_ok(lt[END_BLOCK as int])
                &&& block == #[trigger] dynamic_block(sd, last, hdr, lt, dt, buf, k)
                &&& forall|n: int| 0 <= n < L_CODES ==> #[trigger] lt[n].dl == ll[n].dl
                &&& forall|n: int| 0 <= n < D_CODES ==> #[trigger] dt[n].dl == dl[n].dl
            },
    }
}

/// The estimate of a dynamic block reads only the code lengths of its trees.
proof fn lemma_dyn_cost_lens(
    lf: Seq<CtData>,
    df: Seq<CtData>,
    lt1: Seq<CtData>,
    dt1: Seq<CtData>,
    bl1: Seq<CtData>,
    lt2: Seq<CtData>,
    dt2: Seq<CtData>,
    bl2: Seq<CtData>,
    lmax: int,
    dmax: int,
    mb: int,
)
    requires
        0 <= lmax,
        0 <= dmax,
        lmax + 2 <= lt1.len(),
        dmax + 2 <= dt1.len(),
        BL_CODES <= bl1.len(),
        forall|n: int| 0 <= n < lmax + 2 ==> #[trigger] lt1[n].dl == lt2[n].dl,
        forall|n: int| 0 <= n < dmax + 2 ==> #[trigger] dt1[n].dl == dt2[n].dl,
        forall|n: int| 0 <= n < BL_CODES ==> #[trigger] bl1[n].dl == bl2[n].dl,
    ensures
        dyn_cost(lf, df, lt1, dt1, bl1, lmax, dmax, mb) == dyn_cost(lf, df, lt2, dt2, bl2, lmax, dmax, mb),
{
    assert(tree_lens(lt1, lmax + 2) =~= tree_lens(lt2, lmax + 2));
    assert(tree_lens(dt1, dmax + 2) =~= tree_lens(dt2, dmax + 2));
    assert(bl_freqs(lt1, lmax, dt1, dmax) =~= bl_freqs(lt2, lmax, dt2, dmax));
    let wl = built_wt(lf, TreeKind::Literal);
    let wd = built_wt(df, TreeKind::Distance);
    let wb = built_wt(bl_freqs(lt1, lmax, dt1, dmax), TreeKind::BitLength);
    assert forall|n: int| 0 <= n < lmax + 1 implies #[trigger] wl(n, lt1[n]) == wl(n, lt2[n]) by {}
    lemma_sym_sum_ext(lt1, lt2, lmax + 1, wl, wl);
    assert forall|n: int| 0 <= n < dmax + 1 implies #[trigger] wd(n, dt1[n]) == wd(n, dt2[n]) by {}
    lemma_sym_sum_ext(dt1, dt2, dmax + 1, wd, wd);
    assert forall|n: int| 0 <= n < BL_CODES implies #[trigger] wb(n, bl1[n]) == wb(n, bl2[n]) by {}
    lemma_sym_sum_ext(bl1, bl2, BL_CODES as int, wb, wb);
}

/// The encoding reads only the code lengths of the dynamic trees it names.
proof fn lemma_block_kind_lens(
    bt: BlockType,
    sd: StaticData,
    before: int,
    block: Seq<bool>,
    last: bool,
    data: Option<Seq<u8>>,
    buf: Seq<u8>,
    k: int,
    ll1: Seq<CtData>,
    dl1: Seq<CtData>,
    ll2: Seq<CtData>,
    dl2: Seq<CtData>,
)
    requires
        is_block_kind(bt, sd, before, block, last, data, buf, k, ll1, dl1),
        forall|n: int| 0 <= n < L_CODES ==> #[trigger] ll1[n].dl == ll2[n].dl,
        forall|n: int| 0 <= n < D_CODES ==> #[trigger] dl1[n].dl == dl2[n].dl,
    ensures
        is_block_kind(bt, sd, before, block, last, data, buf, k, ll2, dl2),
{
    if bt is Dynamic {
        let (hdr, lt, dt) = choose|hdr: Seq<bool>, lt: Seq<CtData>, dt: Seq<CtData>|
            {
                &&& describes(hdr, lt, dt)
                &&& syms_codes_ok(sd.length_code@, sd.dist_code@, lt, dt, buf, k)
                &&& code_ok(lt[END_BLOCK as int])
                &&& block == #[trigger] dynamic_block(sd, last, hdr, lt, dt, buf, k)
                &&& forall|n: int| 0 <= n < L_CODES ==> #[trigger] lt[n].dl == ll1[n].dl
                &&& forall|n: int| 0 <= n < D_CODES ==> #[trigger] dt[n].dl == dl1[n].dl
            };
        assert(block == dynamic_block(sd, last, hdr, lt, dt, buf, k));
    }
}

/// After `build_tree` and `scan_tree`, every symbol that had a nonzero frequency has a code
/// that can be sent and is not empty.
proof fn lemma_built_codes(old_t: Seq<CtData>, built: Seq<CtData>, fin: Seq<CtData>, max_code: int, elems: int)
    requires
        0 <= max_code < elems,
        max_code + 1 < built.len(),
        old_t.len() >= elems,
        forall|n: int| 0 <= n < elems ==> code_fits(#[trigger] built[n]),
        forall|n: int| 0 <= n < elems && old_t[n].fc != 0 ==> 1 <= (#[trigger] built[n]).dl,
        forall|n: int| 0 <= n < elems && #[trigger] old_t[n].fc != 0 ==> n <= max_code,
        fin == built.update(max_code + 1, CtData { fc: built[max_code + 1].fc, dl: 0xffff }),
    ensures
        forall|n: int| 0 <= n < elems && #[trigger] old_t[n].fc != 0 ==> code_ok(fin[n]),
{
    assert forall|n: int| 0 <= n < elems && #[trigger] old_t[n].fc != 0 implies code_ok(fin[n]) by {
        assert(fin[n] == built[n]);
    }
}


/// What `tr_flush_block(buf, stored_len, last)` does from `s0` to `s1`: it sends the
/// block's symbols as a stored (when `buf` gives the bytes), fixed or dynamic block, as
/// zlib's size comparison picks, with the trees reset for the next block, and after the
/// last block the output is aligned on a byte boundary. After a block that is not the last,
/// a stored block leaves no bits waiting, and the others as many as `sent_after` says.
pub open spec fn tr_flush_effect(s0: DeflateState, s1: DeflateState, buf: Option<usize>, stored_len: int, last: bool) -> bool {
    &&& s1.block_ok()
    &&& s1 == (DeflateState {
            bw: s1.bw,
            dyn_ltree: s1.dyn_ltree,
            dyn_dtree: s1.dyn_dtree,
            bl_tree: s1.bl_tree,
            l_max_code: s1.l_max_code,
            d_max_code: s1.d_max_code,
            heap: s1.heap,
            heap_len: s1.heap_len,
            heap_max: s1.heap_max,
            depth: s1.depth,
            bl_count: s1.bl_count,
            opt_len: s1.opt_len,
            static_len: s1.static_len,
            sym_next: 0,
            ..s0
        })
    &&& forall|n: int|
            0 <= n < L_CODES ==> #[trigger] s1.dyn_ltree[n].fc == if n == END_BLOCK { 1u16 } else { 0 }
    &&& forall|n: int| 0 <= n < D_CODES ==> #[trigger] s1.dyn_dtree[n].fc == 0
    &&& exists|block: Seq<bool>|
            is_block(
                s0.sd,
                s0.bw.bits().len() as int,
                block,
                last,
                match buf {
                    Some(off) => Some(s0.window@.subrange(off as int, off + stored_len)),
                    None => None,
                },
                s0.sym_buf@,
                (s0.sym_next / 3) as int,
            ) && is_block_kind(
                block_type(
                    dyn_cost(
                        s0.dyn_ltree@,
                        s0.dyn_dtree@,
                        s1.dyn_ltree@,
                        s1.dyn_dtree@,
                        s1.bl_tree@,
                        s1.l_max_code as int,
                        s1.d_max_code as int,
                        last_bl(s1.bl_tree@, BL_CODES - 1),
                    ),
                    static_cost(
                        s0.sd,
                        s0.dyn_ltree@,
                        s0.dyn_dtree@,
                        s1.l_max_code as int,
                        s1.d_max_code as int,
                    ),
                    stored_len,
                    buf is Some,
                ),
                s0.sd,
                s0.bw.bits().len() as int,
                block,
                last,
                match buf {
                    Some(off) => Some(s0.window@.subrange(off as int, off + stored_len)),
                    None => None,
                },
                s0.sym_buf@,
                (s0.sym_next / 3) as int,
                s1.dyn_ltree@,
                s1.dyn_dtree@,
            ) && zlib_choice(
                s0.sd,
                s0.bw.bits().len() as int,
                block,
                last,
                match buf {
                    Some(off) => Some(s0.window@.subrange(off as int, off + stored_len)),
                    None => None,
                },
                s0.sym_buf@,
                (s0.sym_next / 3) as int,
            ) && s1.bw.bits() == s0.bw.bits() + block + if last {
                zero_bits(pad_len((s0.bw.bits().len() + block.len()) as int))
            } else {
                Seq::empty()
            }
    &&& last ==> s1.bw.bi_valid == 0 && s1.bw.bi_buf == 0
    &&& !last ==> if flush_type(s0, s1, buf, stored_len) is Stored {
        s1.bw.bi_valid == 0
    } else {
        sent_after(s0.bw, s1.bw)
    }
}

/// The kind of block that `tr_flush_block(buf, stored_len, ..)` picks from `s0`, with the
/// trees it leaves in `s1`.
pub open spec fn flush_type(s0: DeflateState, s1: DeflateState, buf: Option<usize>, stored_len: int) -> BlockType {
    block_type(
        dyn_cost(
            s0.dyn_ltree@,
            s0.dyn_dtree@,
            s1.dyn_ltree@,
            s1.dyn_dtree@,
            s1.bl_tree@,
            s1.l_max_code as int,
            s1.d_max_code as int,
            last_bl(s1.bl_tree@, BL_CODES - 1),
        ),
        static_cost(s0.sd, s0.dyn_ltree@, s0.dyn_dtree@, s1.l_max_code as int, s1.d_max_code as int),
        stored_len,
        buf is Some,
    )
}

impl DeflateState {
    /// The block state: tree storage, the symbol buffer and its frequency counts.
    pub open spec fn block_ok(&self) -> bool {
        &&& self.dyn_ltree.len() == HEAP_SIZE
        &&& self.dyn_dtree.len() == 2 * D_CODES + 1
        &&& self.bl_tree.len() == 2 * BL_CODES + 1
        &&& self.heap_arrays_ok()
        &&& self.sd.wf()
        &&& self.bw.wf()
        &&& self.sym_buf.len() == LIT_BUFSIZE * 3
        &&& self.sym_end == (LIT_BUFSIZE - 1) * 3
        &&& self.sym_next % 3 == 0
        &&& self.sym_next <= self.sym_end
        &&& forall|i: int| 0 <= i < self.sym_next / 3 ==> sym_ok(#[trigger] sym_at(self.sym_buf@, i))
        &&& forall|n: int| 0 <= n < L_CODES ==> #[trigger] self.dyn_ltree[n].fc <= self.sym_next / 3 + 1
        &&& forall|n: int| 0 <= n < D_CODES ==> #[trigger] self.dyn_dtree[n].fc <= self.sym_next / 3
        &&& self.dyn_ltree[END_BLOCK as int].fc >= 1
        &&& forall|n: int| 0 <= n < BL_CODES ==> #[trigger] self.bl_tree[n].fc == 0
        &&& self.opt_len == 0
        &&& self.static_len == 0
        &&& forall|i: int|
            0 <= i < self.sym_next / 3 ==> sym_counted(
                self.sd.length_code@,
                self.sd.dist_code@,
                self.dyn_ltree@,
                self.dyn_dtree@,
                #[trigger] sym_at(self.sym_buf@, i),
            )
        &&& forall|n: int|
            0 <= n < L_CODES ==> #[trigger] self.dyn_ltree[n].fc as int == lit_count(
                self.sd.length_code@,
                self.sym_buf@,
                (self.sym_next / 3) as int,
                n,
            ) + if n == END_BLOCK { 1int } else { 0 }
        &&& forall|d: int|
            0 <= d < D_CODES ==> #[trigger] self.dyn_dtree[d].fc as int == dist_count(
                self.sd.dist_code@,
                self.sym_buf@,
                (self.sym_next / 3) as int,
                d,
            )
    }

    /// `init_block`: clear the frequencies for a new block.
    pub fn init_block(&mut self)
        requires
            old(self).dyn_ltree.len() == HEAP_SIZE,
            old(self).dyn_dtree.len() == 2 * D_CODES + 1,
            old(self).bl_tree.len() == 2 * BL_CODES + 1,
        ensures
            *final(self) == (DeflateState {
                dyn_ltree: final(self).dyn_ltree,
                dyn_dtree: final(self).dyn_dtree,
                bl_tree: final(self).bl_tree,
                opt_len: 0,
                static_len: 0,
                sym_next: 0,
                ..*old(self)
            }),
            final(self).dyn_ltree.len() == HEAP_SIZE,
            final(self).dyn_dtree.len() == 2 * D_CODES + 1,
            final(self).bl_tree.len() == 2 * BL_CODES + 1,
            forall|n: int|
                0 <= n < L_CODES ==> #[trigger] final(self).dyn_ltree[n].fc == if n == END_BLOCK { 1u16 } else { 0 },
            forall|n: int| 0 <= n < D_CODES ==> #[trigger] final(self).dyn_dtree[n].fc == 0,
            forall|n: int| 0 <= n < BL_CODES ==> #[trigger] final(self).bl_tree[n].fc == 0,
            forall|n: int| 0 <= n < HEAP_SIZE ==> #[trigger] final(self).dyn_ltree[n].dl == old(self).dyn_ltree[n].dl,
            forall|n: int| 0 <= n < 2 * D_CODES + 1 ==> #[trigger] final(self).dyn_dtree[n].dl == old(self).dyn_dtree[n].dl,
            forall|n: int| 0 <= n < 2 * BL_CODES + 1 ==> #[trigger] final(self).bl_tree[n].dl == old(self).bl_tree[n].dl,
            forall|n: int| L_CODES <= n < HEAP_SIZE ==> #[trigger] final(self).dyn_ltree[n] == old(self).dyn_ltree[n],
            forall|n: int| D_CODES <= n < 2 * D_CODES + 1 ==> #[trigger] final(self).dyn_dtree[n] == old(self).dyn_dtree[n],
            forall|n: int| BL_CODES <= n < 2 * BL_CODES + 1 ==> #[trigger] final(self).bl_tree[n] == old(self).bl_tree[n],
    {
        let mut n: usize = 0;
        while n < L_CODES
            invariant
                n <= L_CODES,
                *self == (DeflateState { dyn_ltree: self.dyn_ltree, ..*old(self) }),
                self.dyn_ltree.len() == HEAP_SIZE,
                forall|m: int| 0 <= m < n ==> #[trigger] self.dyn_ltree[m].fc == 0,
                forall|m: int| 0 <= m < HEAP_SIZE ==> #[trigger] self.dyn_ltree[m].dl == old(self).dyn_ltree[m].dl,
                forall|m: int| n <= m < HEAP_SIZE ==> #[trigger] self.dyn_ltree[m] == old(self).dyn_ltree[m],
            decreases L_CODES - n,
        {
            let e: CtData = CtData { fc: 0, dl: self.dyn_ltree[n].dl };
            self.dyn_ltree.set(n, e);
            n += 1;
        }
        let ghost s1 = *self;
        let mut n: usize = 0;
        while n < D_CODES
            invariant
                n <= D_CODES,
                *self == (DeflateState { dyn_dtree: self.dyn_dtree, ..s1 }),
                self.dyn_dtree.len() == 2 * D_CODES + 1,
                forall|m: int| 0 <= m < n ==> #[trigger] self.dyn_dtree[m].fc == 0,
                forall|m: int| 0 <= m < 2 * D_CODES + 1 ==> #[trigger] self.dyn_dtree[m].dl == old(self).dyn_dtree[m].dl,
                forall|m: int| n <= m < 2 * D_CODES + 1 ==> #[trigger] self.dyn_dtree[m] == old(self).dyn_dtree[m],
            decreases D_CODES - n,
        {
            let e: CtData = CtData { fc: 0, dl: self.dyn_dtree[n].dl };
            self.dyn_dtree.set(n, e);
            n += 1;
        }
        let ghost s2 = *self;
        let mut n: usize = 0;
        while n < BL_CODES
            invariant
                n <= BL_CODES,
                *self == (DeflateState { bl_tree: self.bl_tree, ..s2 }),
                self.bl_tree.len() == 2 * BL_CODES + 1,
                forall|m: int| 0 <= m < n ==> #[trigger] self.bl_tree[m].fc == 0,
                forall|m: int| 0 <= m < 2 * BL_CODES + 1 ==> #[trigger] self.bl_tree[m].dl == old(self).bl_tree[m].dl,
                forall|m: int| n <= m < 2 * BL_CODES + 1 ==> #[trigger] self.bl_tree[m] == old(self).bl_tree[m],
            decreases BL_CODES - n,
        {
            let e: CtData = CtData { fc: 0, dl: self.bl_tree[n].dl };
            self.bl_tree.set(n, e);
            n += 1;
        }
        let e: CtData = CtData { fc: 1, dl: self.dyn_ltree[END_BLOCK].dl };
        self.dyn_ltree.set(END_BLOCK, e);
        self.opt_len = 0;
        self.static_len = 0;
        self.sym_next = 0;
    }

    /// `_tr_init`: start the stream's bit output empty and the first block.
    pub fn tr_init(&mut self)
        requires
            old(self).dyn_ltree.len() == HEAP_SIZE,
            old(self).dyn_dtree.len() == 2 * D_CODES + 1,
            old(self).bl_tree.len() == 2 * BL_CODES + 1,
        ensures
            *final(self) == (DeflateState {
                bw: BitWriter { out: old(self).bw.out, bi_buf: 0, bi_valid: 0 },
                dyn_ltree: final(self).dyn_ltree,
                dyn_dtree: final(self).dyn_dtree,
                bl_tree: final(self).bl_tree,
                opt_len: 0,
                static_len: 0,
                sym_next: 0,
                ..*old(self)
            }),
            final(self).dyn_ltree.len() == HEAP_SIZE,
            final(self).dyn_dtree.len() == 2 * D_CODES + 1,
            final(self).bl_tree.len() == 2 * BL_CODES + 1,
            forall|n: int|
                0 <= n < L_CODES ==> #[trigger] final(self).dyn_ltree[n].fc == if n == END_BLOCK { 1u16 } else { 0 },
            forall|n: int| 0 <= n < D_CODES ==> #[trigger] final(self).dyn_dtree[n].fc == 0,
            forall|n: int| 0 <= n < BL_CODES ==> #[trigger] final(self).bl_tree[n].fc == 0,
    {
        self.bw.bi_buf = 0;
        self.bw.bi_valid = 0;
        self.init_block();
    }

    /// `_tr_tally(dist, lc)`: append a symbol to the block and count it. `dist == 0` means
    /// `lc` is a literal byte; otherwise `lc` is the match length minus 3 and `dist` the match
    /// distance. Returns whether the block's symbol buffer is now full.
    pub fn tr_tally(&mut self, dist: usize, lc: usize) -> (full: bool)
        requires
            old(self).block_ok(),
            old(self).sym_next < old(self).sym_end,
            sym_ok((dist as int, lc as int)),
        ensures
            final(self).block_ok(),
            *final(self) == (DeflateState {
                sym_buf: final(self).sym_buf,
                sym_next: final(self).sym_next,
                dyn_ltree: final(self).dyn_ltree,
                dyn_dtree: final(self).dyn_dtree,
                ..*old(self)
            }),
            final(self).sym_next == old(self).sym_next + 3,
            forall|i: int| 0 <= i < old(self).sym_next / 3 ==> #[trigger] sym_at(final(self).sym_buf@, i) == sym_at(
                old(self).sym_buf@,
                i,
            ),
            sym_at(final(self).sym_buf@, (old(self).sym_next / 3) as int) == (dist as int, lc as int),
            full == (final(self).sym_next == final(self).sym_end),
            forall|n: int| 0 <= n < HEAP_SIZE ==> (#[trigger] final(self).dyn_ltree[n]).dl == old(self).dyn_ltree[n].dl,
            forall|n: int| 0 <= n < 2 * D_CODES + 1 ==> (#[trigger] final(self).dyn_dtree[n]).dl == old(self).dyn_dtree[n].dl,
            dist == 0 ==> final(self).dyn_ltree@ == old(self).dyn_ltree@.update(
                lc as int,
                CtData { fc: (old(self).dyn_ltree[lc as int].fc + 1) as u16, dl: old(self).dyn_ltree[lc as int].dl },
            ) && final(self).dyn_dtree@ == old(self).dyn_dtree@,
            dist != 0 ==> {
                let c = old(self).sd.length_code[lc as int] + LITERALS + 1;
                let dc = spec_d_code(old(self).sd.dist_code@, dist - 1);
                &&& final(self).dyn_ltree@ == old(self).dyn_ltree@.update(
                    c,
                    CtData { fc: (old(self).dyn_ltree[c].fc + 1) as u16, dl: old(self).dyn_ltree[c].dl },
                )
                &&& final(self).dyn_dtree@ == old(self).dyn_dtree@.update(
                    dc,
                    CtData { fc: (old(self).dyn_dtree[dc].fc + 1) as u16, dl: old(self).dyn_dtree[dc].dl },
                )
            },
    {
        let ghost old_buf = self.sym_buf@;
        let sn: usize = self.sym_next;
        self.sym_buf.set(sn, (dist & 0xff) as u8);
        self.sym_buf.set(sn + 1, (dist >> 8) as u8);
        self.sym_buf.set(sn + 2, lc as u8);
        self.sym_next += 3;
        proof {
            assert(((dist & 0xff) as u8) as int + (((dist >> 8) as u8) as int) * 256 == dist) by (bit_vector)
                requires
                    dist <= 32768,
            ;
            assert forall|i: int| 0 <= i < sn / 3 implies #[trigger] sym_at(self.sym_buf@, i) == sym_at(old_buf, i) by {
                assert(3 * i + 2 < sn);
            }
            assert(sym_at(self.sym_buf@, (sn / 3) as int) == (dist as int, lc as int));
        }
        if dist == 0 {
            let e: CtData = CtData { fc: self.dyn_ltree[lc].fc + 1, dl: self.dyn_ltree[lc].dl };
            self.dyn_ltree.set(lc, e);
        } else {
            let d: usize = dist - 1;
            let c: usize = self.sd.length_code[lc] as usize + LITERALS + 1;
            let e: CtData = CtData { fc: self.dyn_ltree[c].fc + 1, dl: self.dyn_ltree[c].dl };
            self.dyn_ltree.set(c, e);
            let dc: usize = d_code(&self.sd, d);
            let e2: CtData = CtData { fc: self.dyn_dtree[dc].fc + 1, dl: self.dyn_dtree[dc].dl };
            self.dyn_dtree.set(dc, e2);
        }
        proof {
            assert forall|i: int| 0 <= i < self.sym_next / 3 implies sym_ok(#[trigger] sym_at(self.sym_buf@, i)) by {
                if i < sn / 3 {
                    assert(sym_at(self.sym_buf@, i) == sym_at(old_buf, i));
                }
            }
            let k = (sn / 3) as int;
            assert(self.sym_next / 3 == k + 1);
            assert forall|n: int| 0 <= n < L_CODES implies #[trigger] self.dyn_ltree[n].fc as int == lit_count(
                self.sd.length_code@,
                self.sym_buf@,
                (self.sym_next / 3) as int,
                n,
            ) + if n == END_BLOCK { 1int } else { 0 } by {
                lemma_counts_frame(self.sd.length_code@, self.sd.dist_code@, self.sym_buf@, old_buf, k, n, 0);
            }
            assert forall|d: int| 0 <= d < D_CODES implies #[trigger] self.dyn_dtree[d].fc as int == dist_count(
                self.sd.dist_code@,
                self.sym_buf@,
                (self.sym_next / 3) as int,
                d,
            ) by {
                lemma_counts_frame(self.sd.length_code@, self.sd.dist_code@, self.sym_buf@, old_buf, k, 0, d);
            }
        }
        self.sym_next == self.sym_end
    }

    /// `send_code(c, tree)`: send the code of symbol `c`.
    pub fn send_code(&mut self, c: usize, tree: &Vec<CtData>)
        requires
            old(self).bw.wf(),
            c < tree.len(),
            code_fits(tree[c as int]),
        ensures
            *final(self) == (DeflateState { bw: final(self).bw, ..*old(self) }),
            final(self).bw.wf(),
            final(self).bw.bits() == old(self).bw.bits() + code_bits(tree[c as int]),
            sent_after(old(self).bw, final(self).bw),
    {
        self.bw.send_bits(tree[c].fc as i32, tree[c].dl as i32);
    }

    /// Send one symbol: a literal's code, or a match's length code, length extra bits,
    /// distance code and distance extra bits.
    #[verifier::spinoff_prover]
    #[verifier::rlimit(40)]
    pub fn send_symbol(&mut self, dist: usize, lc: usize, ltree: &Vec<CtData>, dtree: &Vec<CtData>)
        requires
            old(self).bw.wf(),
            old(self).sd.maps_ok(),
            sym_ok((dist as int, lc as int)),
            ltree.len() >= L_CODES,
            dtree.len() >= D_CODES,
            sym_codes_ok(old(self).sd.length_code@, old(self).sd.dist_code@, ltree@, dtree@, (dist as int, lc as int)),
        ensures
            *final(self) == (DeflateState { bw: final(self).bw, ..*old(self) }),
            final(self).bw.wf(),
            final(self).bw.bits() == old(self).bw.bits() + sym_bits(old(self).sd.length_code@, old(self).sd.dist_code@, ltree@, dtree@, (dist as int, lc as int)),
            sent_after(old(self).bw, final(self).bw),
    {
        let ghost bk = self.bw.bits();
        let ghost w0 = self.bw;
        if dist == 0 {
            self.send_code(lc, ltree);
        } else {
            let code: usize = self.sd.length_code[lc] as usize;
            self.send_code(code + LITERALS + 1, ltree);
            let ghost w1 = self.bw;
            let extra: i32 = extra_lbits(code);
            let ghost b1 = self.bw.bits();
            if extra != 0 {
                proof {
                    assert(lc < 255);
                    assert(length_code_covers(code as int, lc as int));
                }
                let lc2: usize = lc - self.sd.base_length[code] as usize;
                proof {
                    vstd::arithmetic::power2::lemma2_to64();
                    lemma_u32_shr_is_div(lc2 as u32, extra as u32);
                    vstd::arithmetic::div_mod::lemma_basic_div(lc2 as int, pow2(extra as nat) as int);
                }
                self.bw.send_bits(lc2 as i32, extra);
                proof {
                    lemma_sent_after_trans(w0, w1, self.bw);
                }
            } else {
                assert(low_bits(0u32, 0) =~= Seq::<bool>::empty());
                assert(low_bits((lc - spec_base_length(code as int)) as u32, 0) =~= Seq::<bool>::empty());
            }
            let mut d: usize = dist - 1;
            let dc: usize = d_code(&self.sd, d);
            let ghost w2 = self.bw;
            self.send_code(dc, dtree);
            proof {
                lemma_sent_after_trans(w0, w2, self.bw);
            }
            let ghost w3 = self.bw;
            let extra: i32 = extra_dbits(dc);
            if extra != 0 {
                d -= self.sd.base_dist[dc] as usize;
                proof {
                    vstd::arithmetic::power2::lemma2_to64();
                    lemma_u32_shr_is_div(d as u32, extra as u32);
                    vstd::arithmetic::div_mod::lemma_basic_div(d as int, pow2(extra as nat) as int);
                }
                self.bw.send_bits(d as i32, extra);
                proof {
                    lemma_sent_after_trans(w0, w3, self.bw);
                }
            } else {
                assert(low_bits(((dist - 1) - spec_base_dist(dc as int)) as u32, 0) =~= Seq::<bool>::empty());
            }
        }
        assert(self.bw.bits() =~= bk + sym_bits(self.sd.length_code@, self.sd.dist_code@, ltree@, dtree@, (dist as int, lc as int)));
    }

    /// `send_tree(tree, max_code)`: send the code lengths `tree[0..=max_code]` in the
    /// run-length form of RFC 1951, 3.2.7, with the codes of `bltree`.
    #[verifier::spinoff_prover]
    #[verifier::rlimit(100)]
    pub fn send_tree(&mut self, tree: &Vec<CtData>, bltree: &Vec<CtData>, max_code: i32)
        requires
            old(self).bw.wf(),
            0 <= max_code < 1000,
            max_code + 1 < tree.len(),
            forall|n: int| 0 <= n <= max_code ==> #[trigger] tree[n].dl <= 15,
            tree[max_code + 1].dl > 15,
            tree_codes_fit(bltree@, BL_CODES as int),
        ensures
            sent_after(old(self).bw, final(self).bw),
            *final(self) == (DeflateState { bw: final(self).bw, ..*old(self) }),
            final(self).bw.wf(),
            toks_ok(rle_toks(tree@, max_code as int)),
            rle_expand(Seq::empty(), rle_toks(tree@, max_code as int)) == tree_lens(tree@, max_code + 1),
            final(self).bw.bits() == old(self).bw.bits() + toks_bits(bltree@, rle_toks(tree@, max_code as int)),
    {
        let ghost w_start = self.bw;
        proof {
            lemma_sent_after_refl(w_start);
        }
        let ghost b0 = self.bw.bits();
        let ghost lens = tree_lens(tree@, max_code + 2);
        let ghost mut toks: Seq<(int, int)> = Seq::empty();
        proof {
            assert(tree_lens(tree@, 0) =~= Seq::<int>::empty());
            assert(b0 + toks_bits(bltree@, toks) =~= b0);
        }
        let mut prevlen: i32 = -1;
        let mut nextlen: i32 = tree[0].dl as i32;
        let mut count: i32 = 0;
        let mut max_count: i32 = 7;
        let mut min_count: i32 = 4;
        if nextlen == 0 {
            max_count = 138;
            min_count = 3;
        }
        let mut n: i32 = 0;
        while n <= max_code
            invariant
                *self == (DeflateState { bw: self.bw, ..*old(self) }),
                self.bw.wf(),
                w_start.wf(),
                sent_after(w_start, self.bw),
                0 <= n <= max_code + 1,
                max_code < 1000,
                max_code + 1 < tree.len(),
                forall|m: int| 0 <= m <= max_code ==> #[trigger] tree[m].dl <= 15,
                tree[max_code + 1].dl > 15,
                tree_codes_fit(bltree@, BL_CODES as int),
                n <= max_code ==> nextlen == tree[n as int].dl,
                0 <= count < max_count,
                count <= n,
                n > max_code ==> count == 0,
                forall|m: int| n - count <= m < n ==> #[trigger] tree[m].dl == nextlen,
                -1 <= prevlen <= 15,
                toks_ok(toks),
                self.bw.bits() == b0 + toks_bits(bltree@, toks),
                rle_expand(Seq::empty(), toks) == tree_lens(tree@, n - count),
                lens == tree_lens(tree@, max_code + 2),
                rle_state(lens, n as int) == (toks, count as int, prevlen as int, max_count as int, min_count as int),
                n - count == 0 ==> prevlen == -1 && toks.len() == 0,
                n - count > 0 ==> prevlen == tree[n - count - 1].dl && toks.len() > 0,
                n <= max_code ==> (nextlen == 0 ==> max_count == 138 && min_count == 3),
                n <= max_code ==> (nextlen != 0 && nextlen == prevlen ==> max_count == 6 && min_count == 3),
                n <= max_code ==> (nextlen != 0 && nextlen != prevlen ==> max_count == 7 && min_count == 4),
            decreases max_code + 1 - n,
        {
            let curlen: i32 = nextlen;
            nextlen = tree[(n + 1) as usize].dl as i32;
            count += 1;
            let ghost start: int = n + 1 - count;
            let ghost e0 = rle_expand(Seq::empty(), toks);
            let ghost tk0 = toks;
            let ghost rt = run_toks(curlen as int, count as int, prevlen as int, min_count as int);
            proof {
                assert forall|m: int| start <= m < n + 1 implies #[trigger] tree[m].dl == curlen by {
                    if m < n {
                        assert(tree[m].dl == curlen);
                    }
                }
                lemma_tree_lens_run(tree@, start, count as int, curlen as int);
            }
            if count < max_count && curlen == nextlen {
                n += 1;
                continue;
            } else if count < min_count {
                let ghost total: int = count as int;
                loop
                    invariant_except_break
                        count >= 1,
                    invariant
                        *self == (DeflateState { bw: self.bw, ..*old(self) }),
                        self.bw.wf(),
                        w_start.wf(),
                        sent_after(w_start, self.bw),
                        0 <= curlen <= 15,
                        0 <= count <= total,
                        tree_codes_fit(bltree@, BL_CODES as int),
                        toks_ok(toks),
                        self.bw.bits() == b0 + toks_bits(bltree@, toks),
                        rle_expand(Seq::empty(), toks) == e0 + Seq::new((total - count) as nat, |i: int| curlen as int),
                        toks.len() > 0 || e0.len() == 0,
                        toks == tk0 + Seq::new((total - count) as nat, |i: int| (curlen as int, 0int)),
                    ensures
                        count == 0,
                    decreases count,
                {
                    let ghost t: (int, int) = (curlen as int, 0);
                    let ghost e1 = rle_expand(Seq::empty(), toks);
                    let ghost w_b = self.bw;
                    self.send_code(curlen as usize, bltree);
                    proof {
                        lemma_sent_after_trans(w_start, w_b, self.bw);
                    }
                    proof {
                        lemma_toks_push(bltree@, Seq::empty(), toks, t);
                        toks = toks.push(t);
                        assert(low_bits(0u32, 0) =~= Seq::<bool>::empty());
                        assert(self.bw.bits() =~= b0 + toks_bits(bltree@, toks));
                        assert(e1.push(curlen as int) =~= e0 + Seq::new((total - count + 1) as nat, |i: int| curlen as int));
                        assert(toks =~= tk0 + Seq::new((total - count + 1) as nat, |i: int| (curlen as int, 0int)));
                    }
                    count -= 1;
                    if count == 0 {
                        break;
                    }
                }
            } else if curlen != 0 {
                let ghost total: int = count as int;
                if curlen != prevlen {
                    let ghost t: (int, int) = (curlen as int, 0);
                    let ghost w_b = self.bw;
                    self.send_code(curlen as usize, bltree);
                    proof {
                        lemma_sent_after_trans(w_start, w_b, self.bw);
                    }
                    proof {
                        lemma_toks_push(bltree@, Seq::empty(), toks, t);
                        toks = toks.push(t);
                        assert(low_bits(0u32, 0) =~= Seq::<bool>::empty());
                        assert(self.bw.bits() =~= b0 + toks_bits(bltree@, toks));
                    }
                    count -= 1;
                }
                let ghost e1 = rle_expand(Seq::empty(), toks);
                proof {
                    assert(e1 == e0 + Seq::new((total - count) as nat, |i: int| curlen as int));
                    assert(e1.len() > 0 && e1.last() == curlen);
                }
                let ghost w_b = self.bw;
                self.send_code(REP_3_6, bltree);
                proof {
                    lemma_sent_after_trans(w_start, w_b, self.bw);
                }
                let v: i32 = count - 3;
                proof {
                    vstd::arithmetic::power2::lemma2_to64();
                    lemma_fits_bits(v as u32, 2);
                }
                let ghost w_b = self.bw;
                self.bw.send_bits(v, 2);
                proof {
                    lemma_sent_after_trans(w_start, w_b, self.bw);
                }
                proof {
                    let t: (int, int) = (16, v as int);
                    lemma_toks_push(bltree@, Seq::empty(), toks, t);
                    toks = toks.push(t);
                    assert(self.bw.bits() =~= b0 + toks_bits(bltree@, toks));
                }
            } else if count <= 10 {
                let ghost w_b = self.bw;
                self.send_code(REPZ_3_10, bltree);
                proof {
                    lemma_sent_after_trans(w_start, w_b, self.bw);
                }
                let v: i32 = count - 3;
                proof {
                    vstd::arithmetic::power2::lemma2_to64();
                    lemma_fits_bits(v as u32, 3);
                }
                let ghost w_b = self.bw;
                self.bw.send_bits(v, 3);
                proof {
                    lemma_sent_after_trans(w_start, w_b, self.bw);
                }
                proof {
                    let t: (int, int) = (17, v as int);
                    lemma_toks_push(bltree@, Seq::empty(), toks, t);
                    toks = toks.push(t);
                    assert(self.bw.bits() =~= b0 + toks_bits(bltree@, toks));
                }
            } else {
                let ghost w_b = self.bw;
                self.send_code(REPZ_11_138, bltree);
                proof {
                    lemma_sent_after_trans(w_start, w_b, self.bw);
                }
                let v: i32 = count - 11;
                proof {
                    vstd::arithmetic::power2::lemma2_to64();
                    lemma_fits_bits(v as u32, 7);
                }
                let ghost w_b = self.bw;
                self.bw.send_bits(v, 7);
                proof {
                    lemma_sent_after_trans(w_start, w_b, self.bw);
                }
                proof {
                    let t: (int, int) = (18, v as int);
                    lemma_toks_push(bltree@, Seq::empty(), toks, t);
                    toks = toks.push(t);
                    assert(self.bw.bits() =~= b0 + toks_bits(bltree@, toks));
                }
            }
            proof {
                assert(rle_expand(Seq::empty(), toks) =~= tree_lens(tree@, n + 1));
                assert(toks =~= tk0 + rt);
            }
            count = 0;
            prevlen = curlen;
            if nextlen == 0 {
                max_count = 138;
                min_count = 3;
            } else if curlen == nextlen {
                max_count = 6;
                min_count = 3;
            } else {
                max_count = 7;
                min_count = 4;
            }
            n += 1;
        }
    }

    /// `build_bl_tree`: count the code-length codes of both trees, build the code-length
    /// tree and return the index, in the sending order, of the last code-length code with a
    /// nonzero length (at least 3, so that at least 4 are sent).
    pub fn build_bl_tree(&mut self, ltree: &mut Vec<CtData>, dtree: &mut Vec<CtData>, bltree: &mut Vec<CtData>) -> (max_blindex: i32)
        requires
            old(self).heap_arrays_ok(),
            old(self).sd.wf(),
            old(ltree).len() == HEAP_SIZE,
            old(dtree).len() == 2 * D_CODES + 1,
            old(bltree).len() == 2 * BL_CODES + 1,
            END_BLOCK <= old(self).l_max_code < L_CODES,
            1 <= old(self).d_max_code < D_CODES,
            forall|n: int| 0 <= n <= old(self).l_max_code ==> #[trigger] old(ltree)[n].dl <= 15,
            forall|n: int| 0 <= n <= old(self).d_max_code ==> #[trigger] old(dtree)[n].dl <= 15,
            1 <= old(ltree)[END_BLOCK as int].dl,
            forall|k: int| 0 <= k < BL_CODES ==> #[trigger] old(bltree)[k].fc == 0,
        ensures
            *final(self) == (DeflateState {
                heap: final(self).heap,
                heap_len: final(self).heap_len,
                heap_max: final(self).heap_max,
                depth: final(self).depth,
                bl_count: final(self).bl_count,
                opt_len: final(self).opt_len,
                static_len: final(self).static_len,
                ..*old(self)
            }),
            final(self).heap_arrays_ok(),
            3 <= max_blindex < BL_CODES,
            final(ltree)@ == old(ltree)@.update(
                old(self).l_max_code + 1,
                CtData { fc: old(ltree)[old(self).l_max_code + 1].fc, dl: 0xffff },
            ),
            final(dtree)@ == old(dtree)@.update(
                old(self).d_max_code + 1,
                CtData { fc: old(dtree)[old(self).d_max_code + 1].fc, dl: 0xffff },
            ),
            final(bltree).len() == 2 * BL_CODES + 1,
            tree_codes_fit(final(bltree)@, BL_CODES as int),
            forall|k: int| 0 <= k < BL_CODES ==> #[trigger] final(bltree)[k].dl <= MAX_BL_BITS,
            forall|r: int| max_blindex < r < BL_CODES ==> #[trigger] final(bltree)[spec_bl_order(r)].dl == 0,
            final(bltree)[spec_bl_order(max_blindex as int)].dl != 0,
            forall|i: int|
                0 <= i < rle_toks(final(ltree)@, old(self).l_max_code as int).len() ==> code_ok(
                    final(bltree)[(#[trigger] rle_toks(final(ltree)@, old(self).l_max_code as int)[i]).0],
                ),
            forall|i: int|
                0 <= i < rle_toks(final(dtree)@, old(self).d_max_code as int).len() ==> code_ok(
                    final(bltree)[(#[trigger] rle_toks(final(dtree)@, old(self).d_max_code as int)[i]).0],
                ),
            canonical_codes(final(bltree)@, BL_CODES as int),
            kraft_complete(final(bltree)@, BL_CODES as int),
            final(self).static_len == old(self).static_len,
            final(self).opt_len as int == (old(self).opt_len + sym_sum(
                final(bltree)@,
                BL_CODES as int,
                built_wt(
                    bl_freqs(final(ltree)@, old(self).l_max_code as int, final(dtree)@, old(self).d_max_code as int),
                    TreeKind::BitLength,
                ),
            ) + 3 * (max_blindex + 1) + 14) % 0x1_0000_0000,
            bl_huffman(
                rle_toks(final(ltree)@, old(self).l_max_code as int),
                rle_toks(final(dtree)@, old(self).d_max_code as int),
                final(bltree)@,
            ),
    {
        let ghost lt0 = ltree@;
        let ghost opt0 = self.opt_len as int;
        scan_tree(ltree, bltree, self.l_max_code);
        let ghost bt0 = bltree@;
        scan_tree(dtree, bltree, self.d_max_code);
        let ghost bt1 = bltree@;
        proof {
            let tl = rle_toks(ltree@, self.l_max_code as int);
            assert forall|i: int| 0 <= i < tl.len() implies 0 <= (#[trigger] tl[i]).0 < BL_CODES && 1 <= bt1[tl[i].0].fc by {
                assert(1 <= bt0[tl[i].0].fc);
            }
        }
        let ghost end_len: u16 = lt0[END_BLOCK as int].dl;
        proof {
            assert(1 <= bt1[end_len as int].fc);
        }
        let bl_max_code = self.build_tree(bltree, TreeKind::BitLength);
        proof {
            lemma_huffman_code_intro(
                bt1,
                bltree@,
                bltree@,
                BL_CODES as int,
                MAX_BL_BITS as int,
                self.heap@,
                self.heap_max as int,
                self.depth@,
                self.bl_count@,
                bl_max_code as int,
            );
        }
        let ghost s_bl = sym_sum(
            bltree@,
            BL_CODES as int,
            built_wt(bl_freqs(ltree@, self.l_max_code as int, dtree@, self.d_max_code as int), TreeKind::BitLength),
        );
        proof {
            let blf = bl_freqs(ltree@, self.l_max_code as int, dtree@, self.d_max_code as int);
            let wa = built_wt(bt1, TreeKind::BitLength);
            let wb = built_wt(blf, TreeKind::BitLength);
            assert forall|k: int| 0 <= k < BL_CODES implies #[trigger] blf[k].fc == bt1[k].fc by {
                assert(bt0[k].fc == tok_count(rle_toks(ltree@, self.l_max_code as int), k));
            }
            assert forall|k: int| 0 <= k < bl_max_code + 1 implies #[trigger] wa(k, bltree@[k]) == wb(k, bltree@[k]) by {
                assert(blf[k].fc == bt1[k].fc);
            }
            lemma_sym_sum_ext(bltree@, bltree@, bl_max_code + 1, wa, wb);
            assert forall|k: int| bl_max_code + 1 <= k < BL_CODES implies #[trigger] wb(k, bltree@[k]) == 0 by {
                assert(blf[k].fc == bt1[k].fc);
                assert(bt1[k].fc == 0);
            }
            lemma_sym_sum_tail(bltree@, bl_max_code + 1, BL_CODES as int, wb);
            assert(self.opt_len as int == (opt0 + s_bl) % 0x1_0000_0000);
            reveal(bl_huffman);
            assert(huffman_code(bt1, bltree@, BL_CODES as int, MAX_BL_BITS as int));
        }
        proof {
            assert forall|i: int| bl_max_code + 1 <= i < BL_CODES implies #[trigger] bltree[i].dl == 0 by {}
            lemma_codes_extend(bltree@, bl_max_code + 1, BL_CODES as int);
            let tl = rle_toks(ltree@, self.l_max_code as int);
            let td = rle_toks(dtree@, self.d_max_code as int);
            assert forall|i: int| 0 <= i < tl.len() implies code_ok(bltree[(#[trigger] tl[i]).0]) by {
                assert(bt1[tl[i].0].fc != 0);
            }
            assert forall|i: int| 0 <= i < td.len() implies code_ok(bltree[(#[trigger] td[i]).0]) by {
                assert(bt1[td[i].0].fc != 0);
            }
        }

        let mut max_blindex: i32 = (BL_CODES - 1) as i32;
        while max_blindex >= 3
            invariant
                2 <= max_blindex < BL_CODES,
                bltree.len() == 2 * BL_CODES + 1,
                forall|j: int| max_blindex < j < BL_CODES ==> (#[trigger] bltree[spec_bl_order(j)]).dl == 0,
            ensures
                2 <= max_blindex < BL_CODES,
                forall|j: int| max_blindex < j < BL_CODES ==> (#[trigger] bltree[spec_bl_order(j)]).dl == 0,
                max_blindex < 3 || bltree[spec_bl_order(max_blindex as int)].dl != 0,
            decreases max_blindex,
        {
            if bltree[bl_order(max_blindex as usize)].dl != 0 {
                break;
            }
            max_blindex -= 1;
        }
        proof {
            lemma_bl_pos(end_len as int);
            if max_blindex < 3 {
                let p = spec_bl_pos(end_len as int);
                assert(bltree[spec_bl_order(p)].dl == 0);
                assert(false);
            }
        }
        // Include the bit length tree and counts in opt_len.
        proof {
            let dd = 3 * (max_blindex + 1) + 5 + 5 + 4;
            vstd::arithmetic::div_mod::lemma_small_mod(dd as nat, 0x1_0000_0000nat);
            lemma_wrap_acc(
                self.opt_len,
                opt0,
                s_bl,
                dd as int,
                self.opt_len.wrapping_add((3 * (max_blindex + 1) + 5 + 5 + 4) as u32),
            );
        }
        self.opt_len = self.opt_len.wrapping_add((3 * (max_blindex + 1) + 5 + 5 + 4) as u32);
        max_blindex
    }

    /// `send_all_trees`: send the numbers of codes, the code-length code lengths in their
    /// order, and the two trees' code lengths.
    pub fn send_all_trees(
        &mut self,
        lcodes: i32,
        dcodes: i32,
        blcodes: i32,
        ltree: &Vec<CtData>,
        dtree: &Vec<CtData>,
        bltree: &Vec<CtData>,
    )
        requires
            old(self).bw.wf(),
            257 <= lcodes <= 286,
            1 <= dcodes <= 30,
            4 <= blcodes <= 19,
            lcodes < ltree.len(),
            dcodes < dtree.len(),
            forall|n: int| 0 <= n < lcodes ==> #[trigger] ltree[n].dl <= 15,
            forall|n: int| 0 <= n < dcodes ==> #[trigger] dtree[n].dl <= 15,
            bltree.len() >= BL_CODES,
            tree_codes_fit(bltree@, BL_CODES as int),
            forall|k: int| 0 <= k < BL_CODES ==> #[trigger] bltree[k].dl <= MAX_BL_BITS,
            ltree[lcodes as int].dl > 15,
            dtree[dcodes as int].dl > 15,
        ensures
            sent_after(old(self).bw, final(self).bw),
            *final(self) == (DeflateState { bw: final(self).bw, ..*old(self) }),
            final(self).bw.wf(),
            toks_ok(rle_toks(ltree@, lcodes - 1)),
            toks_ok(rle_toks(dtree@, dcodes - 1)),
            rle_expand(Seq::empty(), rle_toks(ltree@, lcodes - 1)) == tree_lens(ltree@, lcodes as int),
            rle_expand(Seq::empty(), rle_toks(dtree@, dcodes - 1)) == tree_lens(dtree@, dcodes as int),
            final(self).bw.bits() == old(self).bw.bits() + tree_desc(
                lcodes as int,
                dcodes as int,
                blcodes as int,
                bltree@,
                rle_toks(ltree@, lcodes - 1),
                rle_toks(dtree@, dcodes - 1),
            ),
    {
        let ghost w_start = self.bw;
        proof {
            lemma_sent_after_refl(w_start);
        }
        let ghost b0 = self.bw.bits();
        let v1: i32 = lcodes - 257;
        let v2: i32 = dcodes - 1;
        let v3: i32 = blcodes - 4;
        proof {
            vstd::arithmetic::power2::lemma2_to64();
            lemma_fits_bits(v1 as u32, 5);
            lemma_fits_bits(v2 as u32, 5);
            lemma_fits_bits(v3 as u32, 4);
        }
        let ghost w_b = self.bw;
        self.bw.send_bits(v1, 5);
        proof {
            lemma_sent_after_trans(w_start, w_b, self.bw);
        }
        let ghost w_b = self.bw;
        self.bw.send_bits(v2, 5);
        proof {
            lemma_sent_after_trans(w_start, w_b, self.bw);
        }
        let ghost w_b = self.bw;
        self.bw.send_bits(v3, 4);
        proof {
            lemma_sent_after_trans(w_start, w_b, self.bw);
        }
        let ghost b1 = self.bw.bits();
        proof {
            assert(b1 =~= b0 + low_bits(v1 as u32, 5) + low_bits(v2 as u32, 5) + low_bits(v3 as u32, 4));
        }
        let mut rank: i32 = 0;
        while rank < blcodes
            invariant
                *self == (DeflateState { bw: self.bw, ..*old(self) }),
                self.bw.wf(),
                w_start.wf(),
                sent_after(w_start, self.bw),
                0 <= rank <= blcodes,
                blcodes <= 19,
                bltree.len() >= BL_CODES,
                forall|k: int| 0 <= k < BL_CODES ==> #[trigger] bltree[k].dl <= MAX_BL_BITS,
                self.bw.bits() == b1 + bl_lens_bits(bltree@, rank as int),
            decreases blcodes - rank,
        {
            let len: i32 = bltree[bl_order(rank as usize)].dl as i32;
            proof {
                vstd::arithmetic::power2::lemma2_to64();
                lemma_fits_bits(len as u32, 3);
            }
            let ghost w_b = self.bw;
            self.bw.send_bits(len, 3);
            proof {
                lemma_sent_after_trans(w_start, w_b, self.bw);
            }
            proof {
                assert(self.bw.bits() =~= b1 + bl_lens_bits(bltree@, rank + 1));
            }
            rank += 1;
        }
        let ghost w_b = self.bw;
        self.send_tree(ltree, bltree, lcodes - 1);
        proof {
            lemma_sent_after_trans(w_start, w_b, self.bw);
        }
        let ghost w_b = self.bw;
        self.send_tree(dtree, bltree, dcodes - 1);
        proof {
            lemma_sent_after_trans(w_start, w_b, self.bw);
        }
        proof {
            let tl = rle_toks(ltree@, lcodes - 1);
            let td = rle_toks(dtree@, dcodes - 1);
            assert(self.bw.bits() =~= b0 + tree_desc(lcodes as int, dcodes as int, blcodes as int, bltree@, tl, td));
        }
    }

    /// `compress_block(ltree, dtree)`: send the block's symbols with the given trees, then
    /// the end-of-block code.
    pub fn compress_block(&mut self, ltree: &Vec<CtData>, dtree: &Vec<CtData>)
        requires
            old(self).bw.wf(),
            old(self).sd.maps_ok(),
            old(self).sym_next % 3 == 0,
            old(self).sym_next <= old(self).sym_buf.len(),
            forall|i: int| 0 <= i < old(self).sym_next / 3 ==> sym_ok(#[trigger] sym_at(old(self).sym_buf@, i)),
            ltree.len() >= L_CODES,
            dtree.len() >= D_CODES,
            syms_codes_ok(old(self).sd.length_code@, old(self).sd.dist_code@, ltree@, dtree@, old(self).sym_buf@, (old(self).sym_next / 3) as int),
            code_ok(ltree[END_BLOCK as int]),
        ensures
            *final(self) == (DeflateState { bw: final(self).bw, ..*old(self) }),
            final(self).bw.wf(),
            final(self).bw.bits() == old(self).bw.bits() + syms_bits(
                old(self).sd.length_code@,
                old(self).sd.dist_code@,
                ltree@,
                dtree@,
                old(self).sym_buf@,
                (old(self).sym_next / 3) as int,
            ) + code_bits(ltree[END_BLOCK as int]),
            sent_after(old(self).bw, final(self).bw),
    {
        let ghost b0 = self.bw.bits();
        let ghost w0 = self.bw;
        proof {
            lemma_sent_after_refl(w0);
        }
        let mut sx: usize = 0;
        if self.sym_next != 0 {
            loop
                invariant_except_break
                    sx < self.sym_next,
                invariant
                    *self == (DeflateState { bw: self.bw, ..*old(self) }),
                    self.bw.wf(),
                    self.sd.maps_ok(),
                    self.sym_next % 3 == 0,
                    sx % 3 == 0,
                    sx <= self.sym_next,
                    self.sym_next <= self.sym_buf.len(),
                    forall|i: int| 0 <= i < self.sym_next / 3 ==> sym_ok(#[trigger] sym_at(self.sym_buf@, i)),
                    ltree.len() >= L_CODES,
                    dtree.len() >= D_CODES,
                    syms_codes_ok(self.sd.length_code@, self.sd.dist_code@, ltree@, dtree@, self.sym_buf@, (self.sym_next / 3) as int),
                    self.bw.bits() == b0 + syms_bits(self.sd.length_code@, self.sd.dist_code@, ltree@, dtree@, self.sym_buf@, (sx / 3) as int),
                    w0.wf(),
                    sent_after(w0, self.bw),
                ensures
                    sx == self.sym_next,
                decreases self.sym_next - sx,
            {
                let ghost k: int = (sx / 3) as int;
                let ghost bk = self.bw.bits();
                let lo: usize = self.sym_buf[sx] as usize;
                let hi: usize = self.sym_buf[sx + 1] as usize;
                let dist: usize = lo | (hi << 8);
                let lc: usize = self.sym_buf[sx + 2] as usize;
                proof {
                    assert(dist == lo + hi * 256) by (bit_vector)
                        requires
                            dist == lo | (hi << 8),
                            lo < 256,
                            hi < 256,
                    ;
                    assert(sym_ok(sym_at(self.sym_buf@, k)));
                    assert(sym_codes_ok(self.sd.length_code@, self.sd.dist_code@, ltree@, dtree@, sym_at(self.sym_buf@, k)));
                    assert(3 * k == sx);
                }
                sx += 3;
                let ghost wb = self.bw;
                self.send_symbol(dist, lc, ltree, dtree);
                proof {
                    lemma_sent_after_trans(w0, wb, self.bw);
                    assert(sx / 3 == k + 1);
                    assert(sym_at(self.sym_buf@, k) == (dist as int, lc as int));
                    assert(self.bw.bits() =~= bk + sym_bits(self.sd.length_code@, self.sd.dist_code@, ltree@, dtree@, sym_at(self.sym_buf@, k)));
                }
                if sx >= self.sym_next {
                    break;
                }
            }
        }
        let ghost we = self.bw;
        self.send_code(END_BLOCK, ltree);
        proof {
            lemma_sent_after_trans(w0, we, self.bw);
        }
    }

    /// `_tr_stored_block`: send a stored block: the block header, padding to a byte
    /// boundary, the length and its complement, and the bytes of `window[off..off + len]`.
    pub fn tr_stored_block(&mut self, buf: Option<usize>, stored_len: usize, last: bool)
        requires
            old(self).bw.wf(),
            stored_len <= 65535,
            buf matches Some(off) ==> off + stored_len <= old(self).window.len(),
        ensures
            *final(self) == (DeflateState { bw: final(self).bw, ..*old(self) }),
            final(self).bw.wf(),
            final(self).bw.bi_valid == 0,
            final(self).bw.bits() == old(self).bw.bits() + low_bits(last as u32, 3) + zero_bits(
                ((8 - (old(self).bw.bits().len() + 3) % 8) % 8) as nat,
            ) + bytes_bits(
                seq![
                    (stored_len % 256) as u8,
                    (stored_len / 256) as u8,
                    (255 - stored_len % 256) as u8,
                    (255 - stored_len / 256) as u8,
                ] + match buf {
                    Some(off) => old(self).window@.subrange(off as int, off + stored_len),
                    None => Seq::<u8>::empty(),
                },
            ),
    {
        proof {
            lemma_bytes_bits_len(self.bw.out@);
            vstd::arithmetic::power2::lemma2_to64();
            if last {
                lemma_fits_bits(1i32 as u32, 3);
            } else {
                lemma_fits_bits(0i32 as u32, 3);
            }
        }
        self.bw.send_bits(last as i32, 3);
        let ghost b1 = self.bw.bits();
        proof {
            lemma_bytes_bits_len(self.bw.out@);
        }
        self.bw.bi_windup();
        let ghost o2 = self.bw.out@;
        let len16: u16 = stored_len as u16;
        self.bw.put_short(len16);
        self.bw.put_short(!len16);
        proof {
            assert((len16 & 0xff) as u8 == (stored_len % 256) as u8 && (len16 >> 8u16) as u8 == (stored_len / 256) as u8
                && (!len16 & 0xff) as u8 == (255 - stored_len % 256) as u8 && ((!len16) >> 8u16) as u8 == (255
                - stored_len / 256) as u8) by (bit_vector)
                requires
                    len16 == stored_len as u16,
                    stored_len <= 65535,
            ;
        }
        let ghost o3 = self.bw.out@;
        match buf {
            Some(off) => {
                let mut i: usize = 0;
                while i < stored_len
                    invariant
                        *self == (DeflateState { bw: self.bw, ..*old(self) }),
                        off + stored_len <= self.window.len(),
                        i <= stored_len,
                        self.bw.out@ == o3 + self.window@.subrange(off as int, off + i),
                        self.bw.bi_valid == 0,
                        self.bw.bi_buf == 0,
                    decreases stored_len - i,
                {
                    self.bw.put_byte(self.window[off + i]);
                    assert(self.window@.subrange(off as int, off + i + 1) =~= self.window@.subrange(off as int, off + i).push(self.window[off + i]));
                    i += 1;
                }
            },
            None => {
                assert(self.bw.out@ =~= o3 + Seq::<u8>::empty());
            },
        }
        proof {
            let tail = seq![
                (stored_len % 256) as u8,
                (stored_len / 256) as u8,
                (255 - stored_len % 256) as u8,
                (255 - stored_len / 256) as u8,
            ] + match buf {
                Some(off) => old(self).window@.subrange(off as int, off + stored_len),
                None => Seq::<u8>::empty(),
            };
            assert(self.bw.out@ =~= o2 + tail);
            lemma_bytes_bits_concat(o2, tail);
            assert(low_bits(0u32, 0) =~= Seq::<bool>::empty());
            assert(self.bw.bits() =~= bytes_bits(o2) + bytes_bits(tail));
        }
    }

    /// Build the block's literal/length, distance and code-length trees from the
    /// frequencies, and return the index, in the sending order, of the last code-length code
    /// that is sent.
    ///
    /// Every symbol of the block gets codes that can be sent, and so does the end-of-block
    /// symbol; the three codes are canonical and complete, and `opt_len` and `static_len`
    /// grow by zlib's estimates of the dynamic and the fixed block.
    pub fn build_block_trees(&mut self, ltree: &mut Vec<CtData>, dtree: &mut Vec<CtData>, bltree: &mut Vec<CtData>) -> (max_blindex: i32)
        requires
            old(self).heap_arrays_ok(),
            old(self).sd.wf(),
            old(ltree).len() == HEAP_SIZE,
            old(dtree).len() == 2 * D_CODES + 1,
            old(bltree).len() == 2 * BL_CODES + 1,
            old(ltree)[END_BLOCK as int].fc >= 1,
            forall|k: int| 0 <= k < BL_CODES ==> #[trigger] old(bltree)[k].fc == 0,
            old(self).sym_next % 3 == 0,
            old(self).sym_next <= old(self).sym_buf.len(),
            forall|i: int| 0 <= i < old(self).sym_next / 3 ==> sym_ok(#[trigger] sym_at(old(self).sym_buf@, i)),
            forall|i: int|
                0 <= i < old(self).sym_next / 3 ==> sym_counted(
                    old(self).sd.length_code@,
                    old(self).sd.dist_code@,
                    old(ltree)@,
                    old(dtree)@,
                    #[trigger] sym_at(old(self).sym_buf@, i),
                ),
        ensures
            *final(self) == (DeflateState {
                heap: final(self).heap,
                heap_len: final(self).heap_len,
                heap_max: final(self).heap_max,
                depth: final(self).depth,
                bl_count: final(self).bl_count,
                opt_len: final(self).opt_len,
                static_len: final(self).static_len,
                l_max_code: final(self).l_max_code,
                d_max_code: final(self).d_max_code,
                ..*old(self)
            }),
            final(self).heap_arrays_ok(),
            END_BLOCK <= final(self).l_max_code < L_CODES,
            1 <= final(self).d_max_code < D_CODES,
            3 <= max_blindex < BL_CODES,
            final(ltree).len() == HEAP_SIZE,
            final(dtree).len() == 2 * D_CODES + 1,
            final(bltree).len() == 2 * BL_CODES + 1,
            forall|n: int| 0 <= n <= final(self).l_max_code ==> #[trigger] final(ltree)[n].dl <= 15,
            forall|n: int| 0 <= n <= final(self).d_max_code ==> #[trigger] final(dtree)[n].dl <= 15,
            tree_codes_fit(final(bltree)@, BL_CODES as int),
            forall|k: int| 0 <= k < BL_CODES ==> #[trigger] final(bltree)[k].dl <= MAX_BL_BITS,
            syms_codes_ok(
                old(self).sd.length_code@,
                old(self).sd.dist_code@,
                final(ltree)@,
                final(dtree)@,
                old(self).sym_buf@,
                (old(self).sym_next / 3) as int,
            ),
            code_ok(final(ltree)[END_BLOCK as int]),
            final(ltree)[final(self).l_max_code + 1].dl > 15,
            final(dtree)[final(self).d_max_code + 1].dl > 15,
            forall|n: int| final(self).l_max_code < n < L_CODES ==> !(1 <= #[trigger] final(ltree)[n].dl <= 15),
            forall|n: int| final(self).d_max_code < n < D_CODES ==> !(1 <= #[trigger] final(dtree)[n].dl <= 15),
            forall|r: int| max_blindex < r < BL_CODES ==> #[trigger] final(bltree)[spec_bl_order(r)].dl == 0,
            final(bltree)[spec_bl_order(max_blindex as int)].dl != 0,
            forall|i: int|
                0 <= i < rle_toks(final(ltree)@, final(self).l_max_code as int).len() ==> code_ok(
                    final(bltree)[(#[trigger] rle_toks(final(ltree)@, final(self).l_max_code as int)[i]).0],
                ),
            forall|i: int|
                0 <= i < rle_toks(final(dtree)@, final(self).d_max_code as int).len() ==> code_ok(
                    final(bltree)[(#[trigger] rle_toks(final(dtree)@, final(self).d_max_code as int)[i]).0],
                ),
            canonical_codes(final(ltree)@, final(self).l_max_code + 1),
            kraft_complete(final(ltree)@, final(self).l_max_code + 1),
            canonical_codes(final(dtree)@, final(self).d_max_code + 1),
            kraft_complete(final(dtree)@, final(self).d_max_code + 1),
            canonical_codes(final(bltree)@, BL_CODES as int),
            kraft_complete(final(bltree)@, BL_CODES as int),
            final(self).opt_len as int == (old(self).opt_len + dyn_cost(
                old(ltree)@,
                old(dtree)@,
                final(ltree)@,
                final(dtree)@,
                final(bltree)@,
                final(self).l_max_code as int,
                final(self).d_max_code as int,
                max_blindex as int,
            )) % 0x1_0000_0000,
            final(self).static_len as int == (old(self).static_len + static_cost(
                old(self).sd,
                old(ltree)@,
                old(dtree)@,
                final(self).l_max_code as int,
                final(self).d_max_code as int,
            )) % 0x1_0000_0000,
            1 <= final(ltree)[final(self).l_max_code as int].dl,
            1 <= final(dtree)[final(self).d_max_code as int].dl,
            final(self).l_max_code == tree_max(old(ltree)@, L_CODES as int),
            final(self).d_max_code == tree_max(old(dtree)@, D_CODES as int),
            huffman_code(old(ltree)@, final(ltree)@, L_CODES as int, MAX_BITS as int),
            huffman_code(old(dtree)@, final(dtree)@, D_CODES as int, MAX_BITS as int),
            bl_huffman(
                rle_toks(final(ltree)@, final(self).l_max_code as int),
                rle_toks(final(dtree)@, final(self).d_max_code as int),
                final(bltree)@,
            ),
    {
        let ghost lt0 = ltree@;
        let ghost dt0 = dtree@;
        let ghost opt0 = self.opt_len as int;
        let ghost st0 = self.static_len as int;
        let ghost k: int = (self.sym_next / 3) as int;
        self.l_max_code = self.build_tree(ltree, TreeKind::Literal);
        let ghost lt1 = ltree@;
        let ghost hl = self.heap@;
        let ghost hml = self.heap_max as int;
        let ghost dpl = self.depth@;
        let ghost cl = self.bl_count@;
        self.d_max_code = self.build_tree(dtree, TreeKind::Distance);
        let ghost dt1 = dtree@;
        let ghost hd = self.heap@;
        let ghost hmd = self.heap_max as int;
        let ghost dpd = self.depth@;
        let ghost cd = self.bl_count@;
        proof {
            assert(lt0[END_BLOCK as int].fc != 0);
        }
        let max_blindex = self.build_bl_tree(ltree, dtree, bltree);
        proof {
            lemma_huffman_code_intro(lt0, lt1, ltree@, L_CODES as int, MAX_BITS as int, hl, hml, dpl, cl, self.l_max_code as int);
            lemma_huffman_code_intro(dt0, dt1, dtree@, D_CODES as int, MAX_BITS as int, hd, hmd, dpd, cd, self.d_max_code as int);
        }
        proof {
            lemma_built_codes(lt0, lt1, ltree@, self.l_max_code as int, L_CODES as int);
            lemma_built_codes(dt0, dt1, dtree@, self.d_max_code as int, D_CODES as int);
            lemma_block_codes_ok(self.sd, lt0, dt0, ltree@, dtree@, old(self).sym_buf@, k);
            lemma_codes_frame(ltree@, lt1, self.l_max_code + 1);
            lemma_codes_frame(dtree@, dt1, self.d_max_code + 1);
            let lm = self.l_max_code as int;
            let dm = self.d_max_code as int;
            let wl = built_wt(lt0, TreeKind::Literal);
            let wd = built_wt(dt0, TreeKind::Distance);
            assert forall|n: int| 0 <= n < lm + 1 implies #[trigger] wl(n, lt1[n]) == wl(n, ltree@[n]) by {}
            lemma_sym_sum_ext(lt1, ltree@, lm + 1, wl, wl);
            assert forall|n: int| 0 <= n < dm + 1 implies #[trigger] wd(n, dt1[n]) == wd(n, dtree@[n]) by {}
            lemma_sym_sum_ext(dt1, dtree@, dm + 1, wd, wd);
            let sl = sym_sum(ltree@, lm + 1, wl);
            let sdd = sym_sum(dtree@, dm + 1, wd);
            let sb = sym_sum(
                bltree@,
                BL_CODES as int,
                built_wt(bl_freqs(ltree@, lm, dtree@, dm), TreeKind::BitLength),
            );
            lemma_mod_add_chain(opt0, sl, sdd);
            lemma_mod_add_chain(opt0 + sl, sdd, sb + 3 * (max_blindex + 1) + 14);
            lemma_mod_add_chain(
                st0,
                sym_sum(lt0, lm + 1, static_wt(self.sd, TreeKind::Literal)),
                sym_sum(dt0, dm + 1, static_wt(self.sd, TreeKind::Distance)),
            );
            assert forall|n: int| self.l_max_code < n < L_CODES implies !(1 <= #[trigger] ltree[n].dl <= 15) by {
                if n > self.l_max_code + 1 {
                    assert(ltree[n] == lt1[n]);
                }
            }
            assert forall|n: int| self.d_max_code < n < D_CODES implies !(1 <= #[trigger] dtree[n].dl <= 15) by {
                if n > self.d_max_code + 1 {
                    assert(dtree[n] == dt1[n]);
                }
            }
        }
        max_blindex
    }

    /// Send the block's symbols as a block with the fixed codes: the block header, the
    /// symbols and the end-of-block code.
    pub fn send_fixed_block(&mut self, last: bool)
        requires
            old(self).bw.wf(),
            old(self).sd.wf(),
            old(self).sym_next % 3 == 0,
            old(self).sym_next <= old(self).sym_buf.len(),
            forall|i: int| 0 <= i < old(self).sym_next / 3 ==> sym_ok(#[trigger] sym_at(old(self).sym_buf@, i)),
        ensures
            *final(self) == (DeflateState { bw: final(self).bw, ..*old(self) }),
            final(self).bw.wf(),
            final(self).bw.bits() == old(self).bw.bits() + fixed_block(
                old(self).sd,
                last,
                old(self).sym_buf@,
                (old(self).sym_next / 3) as int,
            ),
            sent_after(old(self).bw, final(self).bw),
    {
        let ghost b0 = self.bw.bits();
        let ghost w_start = self.bw;
        let ghost k: int = (self.sym_next / 3) as int;
        proof {
            lemma_static_codes_ok(self.sd, self.sym_buf@, k);
        }
        let v: i32 = 2 + last as i32;
        proof {
            vstd::arithmetic::power2::lemma2_to64();
            if last {
                lemma_fits_bits(3i32 as u32, 3);
            } else {
                lemma_fits_bits(2i32 as u32, 3);
            }
        }
        self.bw.send_bits(v, 3);
        let ghost w_b = self.bw;
        let mut stl: Vec<CtData> = Vec::new();
        std::mem::swap(&mut stl, &mut self.sd.static_ltree);
        let mut sdt: Vec<CtData> = Vec::new();
        std::mem::swap(&mut sdt, &mut self.sd.static_dtree);
        self.compress_block(&stl, &sdt);
        proof {
            lemma_sent_after_trans(w_start, w_b, self.bw);
        }
        std::mem::swap(&mut stl, &mut self.sd.static_ltree);
        std::mem::swap(&mut sdt, &mut self.sd.static_dtree);
        proof {
            assert(self.sd == old(self).sd);
            assert(self.bw.bits() =~= b0 + fixed_block(old(self).sd, last, old(self).sym_buf@, k));
        }
    }

    /// Send the block's symbols as a block with the dynamic trees: the block header, the
    /// trees, the symbols and the end-of-block code.
    #[verifier::spinoff_prover]
    #[verifier::rlimit(60)]
    pub fn send_dynamic_block(
        &mut self,
        last: bool,
        max_blindex: i32,
        ltree: &Vec<CtData>,
        dtree: &Vec<CtData>,
        bltree: &Vec<CtData>,
    )
        requires
            old(self).bw.wf(),
            old(self).sd.maps_ok(),
            old(self).sym_next % 3 == 0,
            old(self).sym_next <= old(self).sym_buf.len(),
            forall|i: int| 0 <= i < old(self).sym_next / 3 ==> sym_ok(#[trigger] sym_at(old(self).sym_buf@, i)),
            END_BLOCK <= old(self).l_max_code < L_CODES,
            1 <= old(self).d_max_code < D_CODES,
            3 <= max_blindex < BL_CODES,
            ltree.len() == HEAP_SIZE,
            dtree.len() == 2 * D_CODES + 1,
            bltree.len() == 2 * BL_CODES + 1,
            forall|n: int| 0 <= n <= old(self).l_max_code ==> #[trigger] ltree[n].dl <= 15,
            forall|n: int| 0 <= n <= old(self).d_max_code ==> #[trigger] dtree[n].dl <= 15,
            tree_codes_fit(bltree@, BL_CODES as int),
            forall|k: int| 0 <= k < BL_CODES ==> #[trigger] bltree[k].dl <= MAX_BL_BITS,
            syms_codes_ok(
                old(self).sd.length_code@,
                old(self).sd.dist_code@,
                ltree@,
                dtree@,
                old(self).sym_buf@,
                (old(self).sym_next / 3) as int,
            ),
            code_ok(ltree[END_BLOCK as int]),
            ltree[old(self).l_max_code + 1].dl > 15,
            dtree[old(self).d_max_code + 1].dl > 15,
            forall|n: int| old(self).l_max_code < n < L_CODES ==> !(1 <= #[trigger] ltree[n].dl <= 15),
            forall|n: int| old(self).d_max_code < n < D_CODES ==> !(1 <= #[trigger] dtree[n].dl <= 15),
            forall|r: int| max_blindex < r < BL_CODES ==> #[trigger] bltree[spec_bl_order(r)].dl == 0,
            forall|i: int|
                0 <= i < rle_toks(ltree@, old(self).l_max_code as int).len() ==> code_ok(
                    bltree[(#[trigger] rle_toks(ltree@, old(self).l_max_code as int)[i]).0],
                ),
            forall|i: int|
                0 <= i < rle_toks(dtree@, old(self).d_max_code as int).len() ==> code_ok(
                    bltree[(#[trigger] rle_toks(dtree@, old(self).d_max_code as int)[i]).0],
                ),
            canonical_codes(ltree@, old(self).l_max_code + 1),
            kraft_complete(ltree@, old(self).l_max_code + 1),
            canonical_codes(dtree@, old(self).d_max_code + 1),
            kraft_complete(dtree@, old(self).d_max_code + 1),
            1 <= ltree[old(self).l_max_code as int].dl,
            1 <= dtree[old(self).d_max_code as int].dl,
            bltree[spec_bl_order(max_blindex as int)].dl != 0,
            canonical_codes(bltree@, BL_CODES as int),
            kraft_complete(bltree@, BL_CODES as int),
            bl_huffman(
                rle_toks(ltree@, old(self).l_max_code as int),
                rle_toks(dtree@, old(self).d_max_code as int),
                bltree@,
            ),
        ensures
            *final(self) == (DeflateState { bw: final(self).bw, ..*old(self) }),
            final(self).bw.wf(),
            exists|hdr: Seq<bool>|
                describes(hdr, ltree@, dtree@) && final(self).bw.bits() == old(self).bw.bits() + #[trigger] dynamic_block(
                    old(self).sd,
                    last,
                    hdr,
                    ltree@,
                    dtree@,
                    old(self).sym_buf@,
                    (old(self).sym_next / 3) as int,
                ),
            sent_after(old(self).bw, final(self).bw),
    {
        let ghost b0 = self.bw.bits();
        let ghost w_start = self.bw;
        let ghost k: int = (self.sym_next / 3) as int;
        let v: i32 = 4 + last as i32;
        proof {
            vstd::arithmetic::power2::lemma2_to64();
            if last {
                lemma_fits_bits(5i32 as u32, 3);
            } else {
                lemma_fits_bits(4i32 as u32, 3);
            }
        }
        self.bw.send_bits(v, 3);
        let ghost b1 = self.bw.bits();
        let ghost w1 = self.bw;
        self.send_all_trees(self.l_max_code + 1, self.d_max_code + 1, max_blindex + 1, ltree, dtree, bltree);
        let ghost b2 = self.bw.bits();
        let ghost w2 = self.bw;
        proof {
            lemma_sent_after_trans(w_start, w1, w2);
        }
        self.compress_block(ltree, dtree);
        proof {
            lemma_sent_after_trans(w_start, w2, self.bw);
        }
        proof {
            let lcodes = self.l_max_code + 1;
            let dcodes = self.d_max_code + 1;
            let blcodes = max_blindex + 1;
            let tl = rle_toks(ltree@, lcodes - 1);
            let td = rle_toks(dtree@, dcodes - 1);
            let hdr = tree_desc(lcodes as int, dcodes as int, blcodes as int, bltree@, tl, td);
            assert(desc_ok(lcodes as int, dcodes as int, blcodes as int, bltree@, tl, td, ltree@, dtree@));
            assert(describes(hdr, ltree@, dtree@)) by {
                reveal(describes);
            }
            assert(self.bw.bits() =~= b0 + dynamic_block(old(self).sd, last, hdr, ltree@, dtree@, old(self).sym_buf@, k));
        }
    }

    /// `_tr_flush_block(buf, stored_len, last)`: encode the block's symbols as a stored,
    /// fixed or dynamic block, whichever zlib's size comparison picks, then start a new
    /// block; after the last block, align the output on a byte boundary.
    #[verifier::spinoff_prover]
    #[verifier::rlimit(100)]
    pub fn tr_flush_block(&mut self, buf: Option<usize>, stored_len: usize, last: bool)
        requires
            old(self).block_ok(),
            old(self).level == 9,
            stored_len < 0x1000_0000,
            buf matches Some(off) ==> stored_len <= 65535 && off + stored_len <= old(self).window.len(),
        ensures
            tr_flush_effect(*old(self), *final(self), buf, stored_len as int, last),
    {
        let ghost b0 = self.bw.bits();
        let ghost k: int = (self.sym_next / 3) as int;
        let ghost data: Option<Seq<u8>> = match buf {
            Some(off) => Some(self.window@.subrange(off as int, off + stored_len)),
            None => None,
        };
        let mut opt_lenb: u32;
        let static_lenb: u32;
        let mut max_blindex: i32 = 0;

        // Lend the three dynamic trees out so that the helpers can use them beside `self`.
        let mut ltree: Vec<CtData> = Vec::new();
        std::mem::swap(&mut ltree, &mut self.dyn_ltree);
        let mut dtree: Vec<CtData> = Vec::new();
        std::mem::swap(&mut dtree, &mut self.dyn_dtree);
        let mut bltree: Vec<CtData> = Vec::new();
        std::mem::swap(&mut bltree, &mut self.bl_tree);

        let ghost lt0 = ltree@;
        let ghost dt0 = dtree@;
        let ghost mut dyn_bits: int = 0;
        let ghost mut st_bits: int = 0;
        if self.level > 0 {
            max_blindex = self.build_block_trees(&mut ltree, &mut dtree, &mut bltree);
            proof {
                dyn_bits = dyn_cost(
                    lt0,
                    dt0,
                    ltree@,
                    dtree@,
                    bltree@,
                    self.l_max_code as int,
                    self.d_max_code as int,
                    max_blindex as int,
                );
                st_bits = static_cost(self.sd, lt0, dt0, self.l_max_code as int, self.d_max_code as int);
                lemma_mod_add_chain(0, dyn_bits, 10);
                lemma_mod_add_chain(0, st_bits, 10);
            }
            let ol: u32 = self.opt_len.wrapping_add(3 + 7);
            let sl: u32 = self.static_len.wrapping_add(3 + 7);
            opt_lenb = ol >> 3;
            static_lenb = sl >> 3;
            proof {
                lemma_shr3(ol);
                lemma_shr3(sl);
                assert(ol as int == (dyn_bits + 10) % 0x1_0000_0000);
                assert(sl as int == (st_bits + 10) % 0x1_0000_0000);
            }
            if static_lenb <= opt_lenb {
                opt_lenb = static_lenb;
            }
        } else {
            opt_lenb = (stored_len + 5) as u32;
            static_lenb = opt_lenb;
        }
        let ghost bt = block_type(dyn_bits, st_bits, stored_len as int, buf is Some);
        let ghost s2 = *self;
        let ghost lt_b = ltree@;
        let ghost dt_b = dtree@;
        let ghost bl_b = bltree@;
        let ghost mut blk: Seq<bool> = Seq::empty();

        if (stored_len + 4) as u32 <= opt_lenb && buf.is_some() {
            self.tr_stored_block(buf, stored_len, last);
            proof {
                let block = stored_block(b0.len() as int, last, data.unwrap());
                lemma_bytes_bits_len(old(self).bw.out@);
                assert(self.bw.bits() == b0 + block);
                assert(is_block(old(self).sd, b0.len() as int, block, last, data, old(self).sym_buf@, k));
                assert(bt is Stored);
                assert(is_block_kind(bt, old(self).sd, b0.len() as int, block, last, data, old(self).sym_buf@, k, lt_b, dt_b));
                blk = block;
            }
        } else if static_lenb == opt_lenb {
            self.send_fixed_block(last);
            proof {
                let block = fixed_block(old(self).sd, last, old(self).sym_buf@, k);
                assert(is_block(old(self).sd, b0.len() as int, block, last, data, old(self).sym_buf@, k));
                assert(bt is Fixed);
                assert(is_block_kind(bt, old(self).sd, b0.len() as int, block, last, data, old(self).sym_buf@, k, lt_b, dt_b));
                blk = block;
            }
        } else {
            self.send_dynamic_block(last, max_blindex, &ltree, &dtree, &bltree);
            proof {
                let hdr = choose|hdr: Seq<bool>|
                    describes(hdr, ltree@, dtree@) && self.bw.bits() == s2.bw.bits() + #[trigger] dynamic_block(s2.sd, last, hdr, ltree@, dtree@, s2.sym_buf@, k);
                let block = dynamic_block(old(self).sd, last, hdr, ltree@, dtree@, old(self).sym_buf@, k);
                assert(is_block(old(self).sd, b0.len() as int, block, last, data, old(self).sym_buf@, k)
                    && is_block_kind(bt, old(self).sd, b0.len() as int, block, last, data, old(self).sym_buf@, k, lt_b, dt_b))
                    by {
                    lemma_huffman_trees(old(self).sd, lt0, dt0, ltree@, dtree@, old(self).sym_buf@, k);
                    assert(is_block(old(self).sd, b0.len() as int, block, last, data, old(self).sym_buf@, k));
                    assert(bt is Dynamic);
                }
                blk = block;
            }
        }

        proof {
            lemma_last_bl(bl_b, max_blindex as int, BL_CODES - 1);
            lemma_zlib_choice(
                old(self).sd,
                b0.len() as int,
                blk,
                last,
                data,
                old(self).sym_buf@,
                k,
                lt0,
                dt0,
                lt_b,
                dt_b,
                bl_b,
                stored_len as int,
            );
        }
        // Give the trees back before init_block, which writes them.
        std::mem::swap(&mut ltree, &mut self.dyn_ltree);
        std::mem::swap(&mut dtree, &mut self.dyn_dtree);
        std::mem::swap(&mut bltree, &mut self.bl_tree);

        self.init_block();
        proof {
            lemma_block_kind_lens(
                bt,
                old(self).sd,
                b0.len() as int,
                blk,
                last,
                data,
                old(self).sym_buf@,
                k,
                lt_b,
                dt_b,
                self.dyn_ltree@,
                self.dyn_dtree@,
            );
            lemma_dyn_cost_lens(
                lt0,
                dt0,
                lt_b,
                dt_b,
                bl_b,
                self.dyn_ltree@,
                self.dyn_dtree@,
                self.bl_tree@,
                self.l_max_code as int,
                self.d_max_code as int,
                max_blindex as int,
            );
            lemma_last_bl(self.bl_tree@, max_blindex as int, BL_CODES - 1);
        }

        proof {
            assert(flush_type(*old(self), *self, buf, stored_len as int) == bt);
        }
        if last {
            proof {
                lemma_bytes_bits_len(self.bw.out@);
            }
            self.bw.bi_windup();
        }
    }
}

/// With the fixed trees, every symbol of the block has codes that can be sent, and so does
/// the end-of-block symbol.
proof fn lemma_static_codes_ok(sd: StaticData, buf: Seq<u8>, k: int)
    requires
        sd.wf(),
        forall|i: int| 0 <= i < k ==> sym_ok(#[trigger] sym_at(buf, i)),
    ensures
        syms_codes_ok(sd.length_code@, sd.dist_code@, sd.static_ltree@, sd.static_dtree@, buf, k),
        code_ok(sd.static_ltree[END_BLOCK as int]),
{
    assert forall|i: int| 0 <= i < k implies sym_codes_ok(
        sd.length_code@,
        sd.dist_code@,
        sd.static_ltree@,
        sd.static_dtree@,
        #[trigger] sym_at(buf, i),
    ) by {
        let (dist, lc) = sym_at(buf, i);
        assert(sym_ok(sym_at(buf, i)));
        if dist == 0 {
            assert(code_fits(sd.static_ltree[lc]));
        } else {
            assert(dist_code_covers(spec_d_code(sd.dist_code@, dist - 1), dist - 1));
            if lc < 255 {
                assert(length_code_covers(sd.length_code[lc] as int, lc));
            }
            let c = sd.length_code[lc] + 257;
            assert(code_fits(sd.static_ltree[c]));
            assert(code_fits(sd.static_dtree[spec_d_code(sd.dist_code@, dist - 1)]));
        }
    }
    assert(code_fits(sd.static_ltree[END_BLOCK as int]));
}

/// Built trees give every counted symbol codes that can be sent.
proof fn lemma_block_codes_ok(sd: StaticData, lt0: Seq<CtData>, dt0: Seq<CtData>, lt: Seq<CtData>, dt: Seq<CtData>, buf: Seq<u8>, k: int)
    requires
        sd.maps_ok(),
        lt0.len() >= L_CODES,
        dt0.len() >= D_CODES,
        forall|n: int| 0 <= n < L_CODES && #[trigger] lt0[n].fc != 0 ==> code_ok(lt[n]),
        forall|n: int| 0 <= n < D_CODES && #[trigger] dt0[n].fc != 0 ==> code_ok(dt[n]),
        forall|i: int| 0 <= i < k ==> sym_ok(#[trigger] sym_at(buf, i)),
        forall|i: int| 0 <= i < k ==> sym_counted(sd.length_code@, sd.dist_code@, lt0, dt0, #[trigger] sym_at(buf, i)),
    ensures
        syms_codes_ok(sd.length_code@, sd.dist_code@, lt, dt, buf, k),
{
    let lc = sd.length_code@;
    let dc = sd.dist_code@;
    assert forall|i: int| 0 <= i < k implies sym_codes_ok(lc, dc, lt, dt, #[trigger] sym_at(buf, i)) by {
        assert(sym_counted(lc, dc, lt0, dt0, sym_at(buf, i)));
        assert(sym_ok(sym_at(buf, i)));
        let (dist, l) = sym_at(buf, i);
        if dist != 0 {
            assert(dist_code_covers(spec_d_code(dc, dist - 1), dist - 1));
            if l < 255 {
                assert(length_code_covers(lc[l] as int, l));
            }
        }
    }
}

} // verus!
