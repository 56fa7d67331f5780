//! The exact order in which `build_tree` merges nodes: zlib's heap, replayed step by step
//! on the part of the state that the heap reads, so that the tree it builds, and with it
//! the code lengths, are a function of the symbol frequencies alone.
use vstd::prelude::*;

use crate::tables::{CtData, HEAP_SIZE};
use crate::trees::{forced_sym, max_depth, node_le, sift, used_count, used_max};

verus! {

/// The heap part `heap[1..=len]`, with position 0 cleared: all that the sift-down reads and
/// writes.
pub open spec fn heap_window(heap: Seq<i32>, len: int) -> Seq<i32> {
    Seq::new((len + 1) as nat, |i: int| if i == 0 { 0i32 } else { heap[i] })
}

/// The frequencies of the nodes below `node`, with the other field cleared.
pub open spec fn node_weights(tree: Seq<CtData>, node: int) -> Seq<CtData> {
    Seq::new(node as nat, |x: int| CtData { fc: tree[x].fc, dl: 0u16 })
}

/// The symbols below `n` with a nonzero frequency, in increasing order.
pub open spec fn used_list(f: Seq<CtData>, n: int) -> Seq<i32>
    decreases n,
{
    if n <= 0 {
        Seq::empty()
    } else if f[n - 1].fc != 0 {
        used_list(f, n - 1).push((n - 1) as i32)
    } else {
        used_list(f, n - 1)
    }
}

/// The symbols that `build_tree` adds, in the order it adds them, so that at least two
/// get a code.
pub open spec fn forced_list(f: Seq<CtData>, elems: int) -> Seq<i32> {
    let c = used_count(f, elems);
    let s = used_max(f, elems);
    if c == 0 {
        seq![0i32, 1i32]
    } else if c == 1 {
        if s < 2 {
            seq![(s + 1) as i32]
        } else {
            seq![0i32]
        }
    } else {
        Seq::empty()
    }
}

/// The heap part as `build_tree` first fills it: the symbols used, in increasing order,
/// then the ones it adds.
pub open spec fn leaf_window(f: Seq<CtData>, elems: int) -> Seq<i32> {
    seq![0i32] + used_list(f, elems) + forced_list(f, elems)
}

/// The frequencies of the leaves: a symbol's own, 1 for a symbol added, else 0.
pub open spec fn leaf_weights(f: Seq<CtData>, elems: int) -> Seq<CtData> {
    Seq::new(
        elems as nat,
        |x: int|
            CtData {
                fc: if f[x].fc != 0 {
                    f[x].fc
                } else if forced_sym(f, elems, x) {
                    1u16
                } else {
                    0u16
                },
                dl: 0u16,
            },
    )
}

/// zlib's heap construction: sift down from position `k`, then from each position before
/// it, back to the top.
pub open spec fn heapify(h: Seq<i32>, k: int, w: Seq<CtData>, dp: Seq<u8>) -> Seq<i32>
    decreases k,
{
    if k < 1 {
        h
    } else {
        heapify(sift(h, h.len() - 1, k, h[k], w, dp), k - 1, w, dp)
    }
}

/// One merge of `build_tree`, on the heap part `s.0`, the nodes taken off so far `s.1`
/// (the last taken first), and the frequencies `s.2` and depths `s.3` of the nodes made so
/// far: take the top node `n` off (the last node moves to the top and sifts down), take the
/// new top `m`, make a node of the two with the sum of their frequencies and one more than
/// the larger depth, put it at the top and sift it down.
pub open spec fn merge_step(s: (Seq<i32>, Seq<i32>, Seq<CtData>, Seq<u8>)) -> (
    Seq<i32>,
    Seq<i32>,
    Seq<CtData>,
    Seq<u8>,
) {
    let hp = s.0;
    let up = s.1;
    let w = s.2;
    let dp = s.3;
    let len = hp.len() - 1;
    let node = w.len() as int;
    let n = hp[1];
    let last = hp[len];
    let h2 = sift(hp.update(1, last).take(len), len - 1, 1, last, w, dp);
    let m = h2[1];
    let w2 = w.push(CtData { fc: ((w[n as int].fc + w[m as int].fc) % 0x10000) as u16, dl: 0u16 });
    let dp2 = dp.push(((max_depth(dp, n as int, m as int) + 1) % 0x100) as u8);
    (sift(h2.update(1, node as i32), len - 1, 1, node as i32, w2, dp2), seq![m, n] + up, w2, dp2)
}

/// `r` merges in a row.
pub open spec fn merge_rounds(s: (Seq<i32>, Seq<i32>, Seq<CtData>, Seq<u8>), r: nat) -> (
    Seq<i32>,
    Seq<i32>,
    Seq<CtData>,
    Seq<u8>,
)
    decreases r,
{
    if r == 0 {
        s
    } else {
        merge_rounds(merge_step(s), (r - 1) as nat)
    }
}

/// The nodes that `build_tree` leaves in `heap[heap_max..]` for the frequencies `f` of its
/// `elems` symbols: the root, then the nodes taken off the heap, the last taken first. The
/// heap is built from the leaves in the order `build_tree` collects them, and merged until
/// one node is left.
pub open spec fn huffman_heap(f: Seq<CtData>, elems: int) -> Seq<i32> {
    let h0 = leaf_window(f, elems);
    let w0 = leaf_weights(f, elems);
    let d0 = Seq::new(elems as nat, |x: int| 0u8);
    let h1 = heapify(h0, (h0.len() - 1) / 2, w0, d0);
    let s = merge_rounds((h1, Seq::empty(), w0, d0), (h1.len() - 2) as nat);
    seq![s.0[1]] + s.1
}

/// The sift-down keeps the length of the heap.
pub proof fn lemma_sift_len(heap: Seq<i32>, len: int, k: int, v: i32, tree: Seq<CtData>, depth: Seq<u8>)
    requires
        1 <= k < heap.len(),
        len < heap.len(),
    ensures
        sift(heap, len, k, v, tree, depth).len() == heap.len(),
    decreases len - k,
{
    if 2 * k <= len {
        let j = if 2 * k < len && node_le(tree, depth, heap[2 * k + 1] as int, heap[2 * k] as int) {
            2 * k + 1
        } else {
            2 * k
        };
        if !node_le(tree, depth, v as int, heap[j] as int) {
            lemma_sift_len(heap.update(k, heap[j]), len, j, v, tree, depth);
        }
    }
}

/// The heap construction keeps the length of the heap.
pub proof fn lemma_heapify_len(h: Seq<i32>, k: int, w: Seq<CtData>, dp: Seq<u8>)
    requires
        k < h.len(),
    ensures
        heapify(h, k, w, dp).len() == h.len(),
    decreases k,
{
    if k >= 1 {
        lemma_sift_len(h, h.len() - 1, k, h[k], w, dp);
        lemma_heapify_len(sift(h, h.len() - 1, k, h[k], w, dp), k - 1, w, dp);
    }
}

/// The sift-down reads and writes only the heap part, and of the tree only the frequencies
/// and depths of the nodes in it.
pub proof fn lemma_sift_window(
    heap: Seq<i32>,
    len: int,
    k: int,
    v: i32,
    tree: Seq<CtData>,
    depth: Seq<u8>,
    node: int,
)
    requires
        1 <= k <= len < heap.len(),
        node <= tree.len(),
        node <= depth.len(),
        0 <= v < node,
        forall|i: int| 1 <= i <= len ==> 0 <= #[trigger] heap[i] < node,
    ensures
        heap_window(sift(heap, len, k, v, tree, depth), len) == sift(
            heap_window(heap, len),
            len,
            k,
            v,
            node_weights(tree, node),
            depth.subrange(0, node),
        ),
    decreases len - k,
{
    let w = node_weights(tree, node);
    let dp = depth.subrange(0, node);
    let hw = heap_window(heap, len);
    if 2 * k > len {
        assert(heap_window(heap.update(k, v), len) =~= hw.update(k, v));
    } else {
        assert(hw[2 * k] == heap[2 * k]);
        let a = heap[2 * k] as int;
        assert(node_le(w, dp, v as int, a) == node_le(tree, depth, v as int, a));
        if 2 * k < len {
            assert(hw[2 * k + 1] == heap[2 * k + 1]);
            let b = heap[2 * k + 1] as int;
            assert(node_le(w, dp, b, a) == node_le(tree, depth, b, a));
            assert(node_le(w, dp, v as int, b) == node_le(tree, depth, v as int, b));
        }
        let j = if 2 * k < len && node_le(tree, depth, heap[2 * k + 1] as int, heap[2 * k] as int) {
            2 * k + 1
        } else {
            2 * k
        };
        if node_le(tree, depth, v as int, heap[j] as int) {
            assert(heap_window(heap.update(k, v), len) =~= hw.update(k, v));
        } else {
            let h1 = heap.update(k, heap[j]);
            lemma_sift_window(h1, len, j, v, tree, depth, node);
            assert(heap_window(h1, len) =~= hw.update(k, hw[j]));
        }
    }
}


/// One pass of `build_tree`'s merge loop, as it acts on the full arrays (`h0` to `h3` by the
/// first sift-down, to `h7` by the second), is `merge_step` on the part that it reads.
pub proof fn lemma_merge_window(
    h0: Seq<i32>,
    len0: int,
    hm0: int,
    t0: Seq<CtData>,
    d0: Seq<u8>,
    node0: int,
    h3: Seq<i32>,
    h7: Seq<i32>,
    t7: Seq<CtData>,
    d7: Seq<u8>,
)
    requires
        h0.len() == HEAP_SIZE,
        2 <= len0,
        len0 + 1 < hm0 - 1,
        hm0 <= HEAP_SIZE,
        0 <= node0,
        node0 < t0.len() <= HEAP_SIZE,
        node0 < d0.len(),
        t7.len() == t0.len(),
        d7.len() == d0.len(),
        forall|i: int| 1 <= i <= len0 ==> 0 <= #[trigger] h0[i] < node0,
        h3 == sift(h0.update(1, h0[len0]), len0 - 1, 1, h0[len0], t0, d0),
        forall|i: int| 0 <= i < HEAP_SIZE && !(1 <= i <= len0 - 1) ==> #[trigger] h3[i] == h0.update(1, h0[len0])[i],
        forall|i: int| 1 <= i <= len0 - 1 ==> 0 <= #[trigger] h3[i] < node0,
        forall|x: int| 0 <= x < node0 ==> #[trigger] t7[x].fc == t0[x].fc,
        t7[node0].fc as int == (t0[h0[1] as int].fc + t0[h3[1] as int].fc) % 0x10000,
        forall|x: int| 0 <= x < node0 ==> #[trigger] d7[x] == d0[x],
        d7[node0] as int == (max_depth(d0, h0[1] as int, h3[1] as int) + 1) % 0x100,
        h7 == sift(
            h3.update(hm0 - 1, h0[1]).update(hm0 - 2, h3[1]).update(1, node0 as i32),
            len0 - 1,
            1,
            node0 as i32,
            t7,
            d7,
        ),
        forall|i: int|
            0 <= i < HEAP_SIZE && !(1 <= i <= len0 - 1) ==> #[trigger] h7[i] == h3.update(hm0 - 1, h0[1]).update(
                hm0 - 2,
                h3[1],
            ).update(1, node0 as i32)[i],
    ensures
        (heap_window(h7, len0 - 1), h7.subrange(hm0 - 2, HEAP_SIZE as int), node_weights(t7, node0 + 1), d7.subrange(
            0,
            node0 + 1,
        )) == merge_step(
            (heap_window(h0, len0), h0.subrange(hm0, HEAP_SIZE as int), node_weights(t0, node0), d0.subrange(0, node0)),
        ),
{
    let hp = heap_window(h0, len0);
    let up = h0.subrange(hm0, HEAP_SIZE as int);
    let w = node_weights(t0, node0);
    let dp = d0.subrange(0, node0);
    let last = h0[len0];
    let n = h0[1];
    let m = h3[1];
    let h1 = h0.update(1, last);
    assert(node0 as i32 == node0);
    assert(hp[1] == n);
    assert(hp[len0] == last);
    assert forall|i: int| 1 <= i <= len0 - 1 implies 0 <= #[trigger] h1[i] < node0 by {}
    lemma_sift_window(h1, len0 - 1, 1, last, t0, d0, node0);
    assert(heap_window(h1, len0 - 1) =~= hp.update(1, last).take(len0));
    let h2s = sift(hp.update(1, last).take(len0), len0 - 1, 1, last, w, dp);
    assert(heap_window(h3, len0 - 1) == h2s);
    assert(h2s[1] == m);
    lemma_sift_len(h1, len0 - 1, 1, last, t0, d0);
    let h6 = h3.update(hm0 - 1, n).update(hm0 - 2, m).update(1, node0 as i32);
    assert forall|i: int| 1 <= i <= len0 - 1 implies 0 <= #[trigger] h6[i] < node0 + 1 by {
        if i != 1 {
            assert(h6[i] == h3[i]);
        }
    }
    lemma_sift_window(h6, len0 - 1, 1, node0 as i32, t7, d7, node0 + 1);
    assert(heap_window(h6, len0 - 1) =~= h2s.update(1, node0 as i32));
    assert(0 <= n < node0);
    assert(0 <= m < node0);
    let w2 = w.push(CtData { fc: ((w[n as int].fc + w[m as int].fc) % 0x10000) as u16, dl: 0u16 });
    assert(node_weights(t7, node0 + 1) =~= w2);
    assert(max_depth(dp, n as int, m as int) == max_depth(d0, n as int, m as int));
    let dp2 = dp.push(((max_depth(dp, n as int, m as int) + 1) % 0x100) as u8);
    assert(d7.subrange(0, node0 + 1) =~= dp2);
    lemma_sift_len(h6, len0 - 1, 1, node0 as i32, t7, d7);
    assert forall|g: int| hm0 - 2 <= g < HEAP_SIZE implies #[trigger] h7[g] == (seq![m, n] + up)[g - (hm0 - 2)] by {
        assert(h7[g] == h6[g]);
        if g >= hm0 {
            assert(h6[g] == h3[g]);
            assert(h3[g] == h1[g]);
        }
    }
    assert(h7.subrange(hm0 - 2, HEAP_SIZE as int) =~= seq![m, n] + up);
}


/// Position `i` of the heap lies in the subtree of position `k`: `k` itself, or below one
/// of its children.
pub open spec fn in_subtree(i: int, k: int) -> bool
    decreases i,
{
    if i < 1 || i < k {
        false
    } else if i == k {
        true
    } else {
        in_subtree(i / 2, k)
    }
}

/// The subtree of a child lies in its parent's.
proof fn lemma_subtree_child(i: int, j: int, k: int)
    requires
        1 <= k,
        j / 2 == k,
        k < j,
        in_subtree(i, j),
    ensures
        in_subtree(i, k),
    decreases i,
{
    if i != j {
        lemma_subtree_child(i / 2, j, k);
    } else {
        assert(in_subtree(k, k));
        assert(in_subtree(j / 2, k));
    }
}

/// The sift-down from `k` moves only positions in the subtree of `k`.
pub proof fn lemma_sift_subtree(heap: Seq<i32>, len: int, k: int, v: i32, tree: Seq<CtData>, depth: Seq<u8>, i: int)
    requires
        1 <= k < heap.len(),
        len < heap.len(),
        0 <= i < heap.len(),
        !in_subtree(i, k),
    ensures
        sift(heap, len, k, v, tree, depth)[i] == heap[i],
    decreases len - k,
{
    if 2 * k <= len {
        let j = if 2 * k < len && node_le(tree, depth, heap[2 * k + 1] as int, heap[2 * k] as int) {
            2 * k + 1
        } else {
            2 * k
        };
        if !node_le(tree, depth, v as int, heap[j] as int) {
            if in_subtree(i, j) {
                lemma_subtree_child(i, j, k);
            }
            lemma_sift_subtree(heap.update(k, heap[j]), len, j, v, tree, depth, i);
        }
    }
}

} // verus!
