//! The deflate engine: zlib's `deflate_state`, the level-9 configuration
//! (`good_length = 32, max_lazy = 258, nice_length = 258, max_chain = 4096`, lazy matching),
//! `fill_window`, `deflate_slow` and the one-shot `Z_FINISH` drive, for a raw stream with a
//! 32 KiB window and `memLevel = 8` (15 hash bits).
use vstd::prelude::*;
use crate::bitwriter::BitWriter;
use crate::longest_match::{insert_run, hash_insert, chain_walk, next_hash, hash_prefix, lemma_hash_start, hash3, chain_ok, hash_chains_ok, match_found,
    lemma_insert_hash, lemma_skip_hash};
use crate::trees::{sym_at, sym_ok, is_block, pad_len, is_block_kind, block_type, dyn_cost, static_cost, last_bl, zlib_choice,
    tr_flush_effect};
use crate::bitwriter::bytes_bits;
use crate::tables::{L_CODES, END_BLOCK};
use crate::bitwriter::zero_bits;
use crate::tables::{CtData, StaticData, tr_static_init, HEAP_SIZE, D_CODES, BL_CODES, MAX_BITS, MIN_MATCH, MAX_MATCH};
use crate::bitwriter::low_bits;

verus! {

pub const W_BITS: usize = 15;
pub const W_SIZE: usize = 32768;
pub const W_MASK: usize = 32767;
pub const HASH_BITS: usize = 15;
pub const HASH_SIZE: usize = 32768;
pub const HASH_MASK: u32 = 32767;
pub const HASH_SHIFT: u32 = 5;
pub const LIT_BUFSIZE: usize = 16384;
pub const WINDOW_SIZE: usize = 65536;
pub const MIN_LOOKAHEAD: usize = 262;
pub const WIN_INIT: usize = 258;
pub const TOO_FAR: usize = 4096;
pub const GOOD_MATCH: usize = 32;
pub const MAX_LAZY_MATCH: usize = 258;
pub const NICE_MATCH: usize = 258;
pub const MAX_CHAIN_LENGTH: usize = 4096;
pub const LEVEL: i32 = 9;

/// The compression state for the one fixed configuration.
pub struct DeflateState {
    // ---- input ----
    pub next_in: usize,
    pub avail_in: usize,
    // ---- output ----
    pub bw: BitWriter,
    // ---- sliding window and match state ----
    pub window: Vec<u8>,
    pub window_size: usize,
    pub w_size: usize,
    pub w_mask: usize,
    pub prev: Vec<u16>,
    pub head: Vec<u16>,
    pub ins_h: u32,
    pub hash_mask: u32,
    pub hash_shift: u32,
    pub block_start: isize,
    pub match_length: usize,
    pub prev_match: usize,
    pub match_available: bool,
    pub strstart: usize,
    pub match_start: usize,
    pub lookahead: usize,
    pub prev_length: usize,
    pub max_chain_length: usize,
    pub max_lazy_match: usize,
    pub good_match: usize,
    pub nice_match: usize,
    pub level: i32,
    pub insert: usize,
    pub high_water: usize,
    // ---- Huffman trees ----
    pub dyn_ltree: Vec<CtData>,
    pub dyn_dtree: Vec<CtData>,
    pub bl_tree: Vec<CtData>,
    pub l_max_code: i32,
    pub d_max_code: i32,
    pub bl_count: Vec<u16>,
    pub heap: Vec<i32>,
    pub heap_len: usize,
    pub heap_max: usize,
    pub depth: Vec<u8>,
    // ---- symbol buffer ----
    pub sym_buf: Vec<u8>,
    pub sym_next: usize,
    pub sym_end: usize,
    pub opt_len: u32,
    pub static_len: u32,
    // ---- the fixed tables ----
    pub sd: StaticData,
}


/// The value of a hash-table entry after the window slides down by `W_SIZE` bytes:
/// entries below `W_SIZE` fall out of the window and become `NIL` (0).
pub open spec fn slid_entry(v: u16) -> u16 {
    if v >= 32768 { (v - 32768) as u16 } else { 0 }
}

/// `n` bytes appended to `out` one at a time, each copied from `dist` bytes back (so the
/// copy may repeat bytes it has just appended).
pub open spec fn copy_back(out: Seq<u8>, dist: int, n: nat) -> Seq<u8>
    decreases n,
{
    if n == 0 {
        out
    } else {
        copy_back(out.push(out[out.len() - dist]), dist, (n - 1) as nat)
    }
}

/// The bytes `out` grows to with symbol `s` (RFC 1951, 3.2.3): a literal byte, or a match
/// of `s.1 + 3` bytes copied from `s.0` bytes back.
pub open spec fn apply_sym(out: Seq<u8>, s: (int, int)) -> Seq<u8> {
    if s.0 == 0 {
        out.push(s.1 as u8)
    } else {
        copy_back(out, s.0, (s.1 + 3) as nat)
    }
}

/// The bytes `out` grows to with the symbols `syms`, in order.
pub open spec fn apply_syms(out: Seq<u8>, syms: Seq<(int, int)>) -> Seq<u8>
    decreases syms.len(),
{
    if syms.len() == 0 {
        out
    } else {
        apply_sym(apply_syms(out, syms.drop_last()), syms.last())
    }
}

/// The number of bytes symbol `s` stands for.
pub open spec fn sym_len(s: (int, int)) -> int {
    if s.0 == 0 { 1 } else { s.1 + 3 }
}

/// The number of bytes the symbols `syms` stand for.
pub open spec fn syms_len(syms: Seq<(int, int)>) -> int
    decreases syms.len(),
{
    if syms.len() == 0 {
        0
    } else {
        syms_len(syms.drop_last()) + sym_len(syms.last())
    }
}

/// The first `k` symbols of a symbol buffer.
pub open spec fn buf_syms(buf: Seq<u8>, k: int) -> Seq<(int, int)> {
    Seq::new(k as nat, |i: int| sym_at(buf, i))
}

/// A copy from `dist` bytes back reproduces the input when the input repeats itself at
/// that distance.
pub proof fn lemma_copy_back(input: Seq<u8>, n: int, dist: int, len: nat)
    requires
        1 <= dist <= n,
        n + len <= input.len(),
        forall|i: int| 0 <= i < len ==> #[trigger] input[n + i] == input[n - dist + i],
    ensures
        copy_back(input.subrange(0, n), dist, len) == input.subrange(0, n + len),
    decreases len,
{
    if len > 0 {
        let out = input.subrange(0, n);
        assert(input[n + 0] == input[n - dist + 0]);
        assert(out.push(out[out.len() - dist]) =~= input.subrange(0, n + 1));
        assert forall|i: int| 0 <= i < len - 1 implies #[trigger] input[n + 1 + i] == input[n + 1 - dist + i] by {
            assert(input[n + (i + 1)] == input[n - dist + (i + 1)]);
        }
        lemma_copy_back(input, n + 1, dist, (len - 1) as nat);
    } else {
        assert(input.subrange(0, n) =~= input.subrange(0, n + len));
    }
}

/// A copy appends as many bytes as it copies.
pub proof fn lemma_copy_back_len(out: Seq<u8>, dist: int, n: nat)
    ensures
        copy_back(out, dist, n).len() == out.len() + n,
    decreases n,
{
    if n > 0 {
        lemma_copy_back_len(out.push(out[out.len() - dist]), dist, (n - 1) as nat);
    }
}

/// The symbols append as many bytes as they stand for.
pub proof fn lemma_apply_len(out: Seq<u8>, syms: Seq<(int, int)>)
    requires
        forall|i: int| 0 <= i < syms.len() ==> sym_ok(#[trigger] syms[i]),
    ensures
        apply_syms(out, syms).len() == out.len() + syms_len(syms),
    decreases syms.len(),
{
    if syms.len() > 0 {
        assert forall|i: int| 0 <= i < syms.len() - 1 implies sym_ok(#[trigger] syms.drop_last()[i]) by {
            assert(syms.drop_last()[i] == syms[i]);
        }
        assert(sym_ok(syms[syms.len() - 1]));
        lemma_apply_len(out, syms.drop_last());
        let s = syms.last();
        if s.0 != 0 {
            lemma_copy_back_len(apply_syms(out, syms.drop_last()), s.0, (s.1 + 3) as nat);
        }
    }
}

/// Symbols the block can hold stand for at most `MAX_MATCH` bytes each.
pub proof fn lemma_syms_len_bound(syms: Seq<(int, int)>)
    requires
        forall|i: int| 0 <= i < syms.len() ==> sym_ok(#[trigger] syms[i]),
    ensures
        0 <= syms_len(syms) <= MAX_MATCH * syms.len(),
    decreases syms.len(),
{
    if syms.len() > 0 {
        assert forall|i: int| 0 <= i < syms.len() - 1 implies sym_ok(#[trigger] syms.drop_last()[i]) by {
            assert(syms.drop_last()[i] == syms[i]);
        }
        lemma_syms_len_bound(syms.drop_last());
        assert(sym_ok(syms[syms.len() - 1]));
    }
}

/// Applying two runs of symbols in turn is applying them together.
pub proof fn lemma_apply_concat(out: Seq<u8>, a: Seq<(int, int)>, b: Seq<(int, int)>)
    ensures
        apply_syms(out, a + b) == apply_syms(apply_syms(out, a), b),
        syms_len(a + b) == syms_len(a) + syms_len(b),
    decreases b.len(),
{
    if b.len() == 0 {
        assert(a + b =~= a);
    } else {
        lemma_apply_concat(out, a, b.drop_last());
        assert((a + b).drop_last() =~= a + b.drop_last());
        assert((a + b).last() == b.last());
    }
}

/// One block of the output: its bits, whether it is the last block, the window bytes it
/// covers when they are still in the window (what a stored block holds), and its symbol
/// buffer with the number of symbols in it.
pub type BlockRec = (Seq<bool>, bool, Option<Seq<u8>>, Seq<u8>, int);

/// The symbols of a block.
pub open spec fn rec_syms(r: BlockRec) -> Seq<(int, int)> {
    buf_syms(r.3, r.4)
}

/// The bits of the blocks, in order.
pub open spec fn blocks_bits(recs: Seq<BlockRec>) -> Seq<bool>
    decreases recs.len(),
{
    if recs.len() == 0 {
        Seq::empty()
    } else {
        blocks_bits(recs.drop_last()) + recs.last().0
    }
}

/// The symbols of the blocks, in order.
pub open spec fn blocks_syms(recs: Seq<BlockRec>) -> Seq<(int, int)>
    decreases recs.len(),
{
    if recs.len() == 0 {
        Seq::empty()
    } else {
        blocks_syms(recs.drop_last()) + rec_syms(recs.last())
    }
}

/// Block `r`, sent after the blocks `before`, encodes its symbols (stored, fixed or
/// dynamic), and the bytes it holds when stored are the input bytes its symbols stand for.
pub open spec fn block_rec_ok(sd: StaticData, input: Seq<u8>, before: Seq<BlockRec>, r: BlockRec) -> bool {
    let start = syms_len(blocks_syms(before));
    &&& is_block(sd, blocks_bits(before).len() as int, r.0, r.1, r.2, r.3, r.4)
    &&& zlib_choice(sd, blocks_bits(before).len() as int, r.0, r.1, r.2, r.3, r.4)
    &&& (r.2 matches Some(d) ==> d == input.subrange(start, start + syms_len(rec_syms(r))))
}

/// Every block encodes its symbols, after the blocks before it.
pub open spec fn blocks_ok(sd: StaticData, input: Seq<u8>, recs: Seq<BlockRec>) -> bool {
    forall|i: int| 0 <= i < recs.len() ==> block_rec_ok(sd, input, recs.take(i), #[trigger] recs[i])
}

/// A block that encodes its symbols after the blocks before it extends the blocks.
pub proof fn lemma_blocks_push(sd: StaticData, input: Seq<u8>, recs: Seq<BlockRec>, r: BlockRec)
    requires
        blocks_ok(sd, input, recs),
        block_rec_ok(sd, input, recs, r),
    ensures
        blocks_ok(sd, input, recs.push(r)),
        blocks_bits(recs.push(r)) == blocks_bits(recs) + r.0,
        blocks_syms(recs.push(r)) == blocks_syms(recs) + rec_syms(r),
{
    let rs = recs.push(r);
    assert(rs.drop_last() =~= recs);
    assert forall|i: int| 0 <= i < rs.len() implies block_rec_ok(sd, input, rs.take(i), #[trigger] rs[i]) by {
        if i < recs.len() {
            assert(rs.take(i) =~= recs.take(i));
            assert(rs[i] == recs[i]);
        } else {
            assert(rs.take(i) =~= recs);
        }
    }
}

/// What `fill_window` does to the state `s0`, giving `s1`: the window slides down by
/// `W_SIZE` if `strstart` has reached `W_SIZE + MAX_DIST` (with `strstart`, `match_start`,
/// `block_start` and the hash table), input is read behind the data (all that is left, or as
/// much as fits in the window), the running hash restarts
/// on the bytes at `strstart` once input was read, and the bytes past the data up to the new
/// high-water mark are cleared.
pub open spec fn fill_effect(s0: DeflateState, s1: DeflateState, input: Seq<u8>) -> bool {
    let d: int = if s0.strstart >= W_SIZE + (W_SIZE - MIN_LOOKAHEAD) { W_SIZE as int } else { 0 };
    let kept: int = s0.strstart + s0.lookahead - d;
    let end: int = s1.strstart + s1.lookahead;
    let hw: int = if s0.high_water < WINDOW_SIZE && s0.high_water < end + WIN_INIT {
        if end + WIN_INIT < WINDOW_SIZE { end + WIN_INIT } else { WINDOW_SIZE as int }
    } else {
        s0.high_water as int
    };
    &&& s1.config_ok()
    &&& s1.strstart == s0.strstart - d
    &&& s1.strstart < W_SIZE + (W_SIZE - MIN_LOOKAHEAD)
    &&& end <= WINDOW_SIZE
    &&& s1.lookahead >= s0.lookahead
    &&& s1.next_in + s1.avail_in == input.len()
    &&& s1.next_in - s0.next_in == end - kept
    &&& end == if s0.avail_in == 0 {
        kept
    } else if kept + s0.avail_in < WINDOW_SIZE {
        kept + s0.avail_in
    } else {
        WINDOW_SIZE as int
    }
    &&& (s1.lookahead >= MIN_LOOKAHEAD || s1.avail_in == 0)
    &&& s1.match_start == if d > 0 { s0.match_start.wrapping_sub(32768) } else { s0.match_start }
    &&& s1.block_start == s0.block_start - d
    &&& s1.insert == 0
    &&& s1.high_water == hw
    &&& forall|p: int| 0 <= p < kept ==> #[trigger] s1.window[p] == s0.window[p + d]
    &&& forall|p: int| kept <= p < end ==> #[trigger] s1.window[p] == input[s0.next_in + (p - kept)]
    &&& forall|p: int| end <= p < WINDOW_SIZE ==> #[trigger] s1.window[p] == if s0.high_water <= p
        < hw { 0 } else { s0.window[p] }
    &&& forall|i: int| 0 <= i < HASH_SIZE ==> #[trigger] s1.head[i] == if d > 0 { slid_entry(s0.head[i]) } else { s0.head[i] }
    &&& forall|i: int| 0 <= i < W_SIZE ==> #[trigger] s1.prev[i] == if d > 0 { slid_entry(s0.prev[i]) } else { s0.prev[i] }
    &&& (s0.avail_in > 0 && s1.lookahead >= MIN_MATCH ==> s1.ins_h == next_hash(
        s1.window[s1.strstart as int] as u32,
        s1.window[s1.strstart + 1],
    ))
    &&& (s0.avail_in == 0 || s1.lookahead < MIN_MATCH ==> s1.ins_h == s0.ins_h)
    &&& s1 == (DeflateState {
        window: s1.window,
        strstart: s1.strstart,
        lookahead: s1.lookahead,
        next_in: s1.next_in,
        avail_in: s1.avail_in,
        match_start: s1.match_start,
        block_start: s1.block_start,
        head: s1.head,
        prev: s1.prev,
        ins_h: s1.ins_h,
        high_water: s1.high_water,
        ..s0
    })
}

impl DeflateState {
    /// The state has the fixed configuration and its buffers have their sizes.
    pub open spec fn config_ok(&self) -> bool {
        &&& self.window_size == WINDOW_SIZE
        &&& self.w_size == W_SIZE
        &&& self.w_mask == W_MASK
        &&& self.hash_mask == HASH_MASK
        &&& self.hash_shift == HASH_SHIFT
        &&& self.max_chain_length == MAX_CHAIN_LENGTH
        &&& self.max_lazy_match == MAX_LAZY_MATCH
        &&& self.good_match == GOOD_MATCH
        &&& self.nice_match == NICE_MATCH
        &&& self.level == LEVEL
        &&& self.window.len() == WINDOW_SIZE
        &&& self.prev.len() == W_SIZE
        &&& self.head.len() == HASH_SIZE
        &&& self.ins_h <= HASH_MASK
    }

    /// The state before the first step over `input`: configured, nothing read, nothing
    /// pending, empty hash chains, an empty block and no bits written.
    pub open spec fn is_fresh(&self, input: Seq<u8>) -> bool {
        &&& self.config_ok()
        &&& self.block_ok()
        &&& self.next_in == 0
        &&& self.avail_in == input.len()
        &&& self.strstart == 0
        &&& self.lookahead == 0
        &&& self.block_start == 0
        &&& self.match_length == MIN_MATCH - 1
        &&& !self.match_available
        &&& self.insert == 0
        &&& self.high_water <= WINDOW_SIZE
        &&& self.sym_next == 0
        &&& self.bw.bits() == Seq::<bool>::empty()
        &&& forall|h: int| 0 <= h < HASH_SIZE ==> #[trigger] self.head[h] == 0
    }

    /// Allocate and initialize the state for an input of `input.len()` bytes
    /// (`deflateInit2_` with `lm_init`, for the fixed configuration).
    pub fn new(input: &[u8]) -> (s: Self)
        ensures
            s.config_ok(),
            s.next_in == 0,
            s.avail_in == input.len(),
            s.bw.wf(),
            s.bw.bits() == Seq::<bool>::empty(),
            forall|i: int| 0 <= i < WINDOW_SIZE ==> #[trigger] s.window[i] == 0,
            forall|i: int| 0 <= i < HASH_SIZE ==> #[trigger] s.head[i] == 0,
            forall|i: int| 0 <= i < W_SIZE ==> #[trigger] s.prev[i] == 0,
            s.ins_h == 0,
            s.block_start == 0,
            s.match_length == MIN_MATCH - 1,
            s.prev_match == 0,
            !s.match_available,
            s.strstart == 0,
            s.match_start == 0,
            s.lookahead == 0,
            s.prev_length == MIN_MATCH - 1,
            s.insert == 0,
            s.high_water == 0,
            s.dyn_ltree.len() == HEAP_SIZE,
            s.dyn_dtree.len() == 2 * D_CODES + 1,
            s.bl_tree.len() == 2 * BL_CODES + 1,
            s.heap_arrays_ok(),
            s.sd.wf(),
            s.sym_buf.len() == LIT_BUFSIZE * 3,
            s.sym_next == 0,
            s.sym_end == (LIT_BUFSIZE - 1) * 3,
            s.opt_len == 0,
            s.static_len == 0,
    {
        let zero: CtData = CtData { fc: 0, dl: 0 };
        let s = DeflateState {
            next_in: 0,
            avail_in: input.len(),
            bw: BitWriter::new(),
            window: vec![0u8; WINDOW_SIZE],
            window_size: WINDOW_SIZE,
            w_size: W_SIZE,
            w_mask: W_MASK,
            prev: vec![0u16; W_SIZE],
            head: vec![0u16; HASH_SIZE],
            ins_h: 0,
            hash_mask: HASH_MASK,
            hash_shift: HASH_SHIFT,
            block_start: 0,
            match_length: MIN_MATCH - 1,
            prev_match: 0,
            match_available: false,
            strstart: 0,
            match_start: 0,
            lookahead: 0,
            prev_length: MIN_MATCH - 1,
            max_chain_length: MAX_CHAIN_LENGTH,
            max_lazy_match: MAX_LAZY_MATCH,
            good_match: GOOD_MATCH,
            nice_match: NICE_MATCH,
            level: LEVEL,
            insert: 0,
            high_water: 0,
            dyn_ltree: vec![zero; HEAP_SIZE],
            dyn_dtree: vec![zero; 2 * D_CODES + 1],
            bl_tree: vec![zero; 2 * BL_CODES + 1],
            l_max_code: 0,
            d_max_code: 0,
            bl_count: vec![0u16; MAX_BITS + 1],
            heap: vec![0i32; HEAP_SIZE],
            heap_len: 0,
            heap_max: 0,
            depth: vec![0u8; HEAP_SIZE],
            sym_buf: vec![0u8; LIT_BUFSIZE * 3],
            sym_next: 0,
            sym_end: (LIT_BUFSIZE - 1) * 3,
            opt_len: 0,
            static_len: 0,
            sd: tr_static_init(),
        };
        s
    }

    /// `MAX_DIST(s)`: the largest match distance.
    pub fn max_dist(&self) -> (d: usize)
        requires
            self.config_ok(),
        ensures
            d == W_SIZE - MIN_LOOKAHEAD,
    {
        self.w_size - MIN_LOOKAHEAD
    }

    /// `read_buf(buf, size)`: move up to `size` bytes of the remaining input into the window
    /// at `buf_off`, and return how many were moved.
    pub fn read_buf(&mut self, input: &[u8], buf_off: usize, size: usize) -> (n: usize)
        requires
            old(self).next_in + old(self).avail_in == input.len(),
            buf_off + (if old(self).avail_in <= size { old(self).avail_in } else { size }) <= old(self).window.len(),
        ensures
            n == if old(self).avail_in <= size { old(self).avail_in } else { size },
            *final(self) == (DeflateState {
                window: final(self).window,
                next_in: (old(self).next_in + n) as usize,
                avail_in: (old(self).avail_in - n) as usize,
                ..*old(self)
            }),
            final(self).window@ == old(self).window@.subrange(0, buf_off as int) + input@.subrange(
                old(self).next_in as int,
                old(self).next_in + n,
            ) + old(self).window@.subrange(buf_off + n, old(self).window.len() as int),
    {
        let mut len: usize = self.avail_in;
        if len > size {
            len = size;
        }
        if len == 0 {
            assert(self.window@ =~= self.window@.subrange(0, buf_off as int) + input@.subrange(
                self.next_in as int,
                self.next_in as int,
            ) + self.window@.subrange(buf_off as int, self.window.len() as int));
            return 0;
        }
        self.avail_in -= len;
        let start: usize = self.next_in;
        let ghost w0 = self.window@;
        let mut i: usize = 0;
        while i < len
            invariant
                *self == (DeflateState { window: self.window, avail_in: self.avail_in, ..*old(self) }),
                self.avail_in == old(self).avail_in - len,
                start == old(self).next_in,
                start + len <= input.len(),
                buf_off + len <= w0.len(),
                self.window.len() == w0.len(),
                i <= len,
                self.window@ == w0.subrange(0, buf_off as int) + input@.subrange(start as int, start + i)
                    + w0.subrange(buf_off + i, w0.len() as int),
            decreases len - i,
        {
            self.window.set(buf_off + i, input[start + i]);
            assert(self.window@ =~= w0.subrange(0, buf_off as int) + input@.subrange(start as int, start + i + 1)
                + w0.subrange(buf_off + i + 1, w0.len() as int));
            i += 1;
        }
        self.next_in += len;
        len
    }

    /// `slide_hash`: move the hash table and the chain links down by `W_SIZE`, as the window
    /// does; links that leave the window become `NIL`.
    pub fn slide_hash(&mut self)
        requires
            old(self).config_ok(),
        ensures
            *final(self) == (DeflateState { head: final(self).head, prev: final(self).prev, ..*old(self) }),
            final(self).head.len() == HASH_SIZE,
            final(self).prev.len() == W_SIZE,
            forall|i: int| 0 <= i < HASH_SIZE ==> #[trigger] final(self).head[i] == slid_entry(old(self).head[i]),
            forall|i: int| 0 <= i < W_SIZE ==> #[trigger] final(self).prev[i] == slid_entry(old(self).prev[i]),
    {
        let wsize: u16 = self.w_size as u16;
        let mut n: usize = 0;
        while n < HASH_SIZE
            invariant
                *self == (DeflateState { head: self.head, ..*old(self) }),
                wsize == 32768,
                n <= HASH_SIZE,
                self.head.len() == HASH_SIZE,
                forall|i: int| 0 <= i < n ==> #[trigger] self.head[i] == slid_entry(old(self).head[i]),
                forall|i: int| n <= i < HASH_SIZE ==> #[trigger] self.head[i] == old(self).head[i],
            decreases HASH_SIZE - n,
        {
            let v: u16 = self.head[n].saturating_sub(wsize);
            self.head.set(n, v);
            n += 1;
        }
        let ghost s1 = *self;
        let mut n: usize = 0;
        while n < W_SIZE
            invariant
                *self == (DeflateState { prev: self.prev, ..s1 }),
                wsize == 32768,
                n <= W_SIZE,
                self.prev.len() == W_SIZE,
                forall|i: int| 0 <= i < n ==> #[trigger] self.prev[i] == slid_entry(old(self).prev[i]),
                forall|i: int| n <= i < W_SIZE ==> #[trigger] self.prev[i] == old(self).prev[i],
            decreases W_SIZE - n,
        {
            let v: u16 = self.prev[n].saturating_sub(wsize);
            self.prev.set(n, v);
            n += 1;
        }
    }

    /// `fill_window`: when the window is nearly full, slide its upper half down by
    /// `W_SIZE` (with the hash table and the positions that point into it); then read input
    /// until `MIN_LOOKAHEAD` bytes are ahead of `strstart` or the input is used up; restart the
    /// running hash on the two bytes at `strstart`; and clear up to `WIN_INIT` bytes past the
    /// data (the high-water mark), so that the match finder reads defined bytes.
    #[verifier::spinoff_prover]
    #[verifier::rlimit(100)]
    pub fn fill_window(&mut self, input: &[u8])
        requires
            old(self).config_ok(),
            old(self).strstart + old(self).lookahead <= WINDOW_SIZE,
            old(self).next_in + old(self).avail_in == input.len(),
            old(self).insert == 0,
            old(self).high_water <= WINDOW_SIZE,
            old(self).block_start > -0x4000_0000,
        ensures
            fill_effect(*old(self), *final(self), input@),
    {
        let wsize: usize = self.w_size;
        let ghost w0 = self.window@;
        let ghost d: int = 0;
        let ghost first: bool = true;
        let ghost read_any: bool = false;
        loop
            invariant
                self.config_ok(),
                wsize == W_SIZE,
                d == 0 || (d == W_SIZE && old(self).strstart >= W_SIZE + (W_SIZE - MIN_LOOKAHEAD)),
                old(self).strstart >= W_SIZE + (W_SIZE - MIN_LOOKAHEAD) ==> (first || d == W_SIZE),
                first ==> *self == *old(self) && d == 0 && !read_any,
                !first ==> self.strstart < W_SIZE + (W_SIZE - MIN_LOOKAHEAD),
                read_any ==> old(self).avail_in > 0,
                self.strstart == old(self).strstart - d,
                self.strstart + self.lookahead <= WINDOW_SIZE,
                self.lookahead >= old(self).lookahead,
                self.next_in + self.avail_in == input.len(),
                self.next_in - old(self).next_in == self.strstart + self.lookahead - (old(self).strstart + old(self).lookahead - d),
                self.match_start == if d > 0 { old(self).match_start.wrapping_sub(32768) } else { old(self).match_start },
                self.block_start == old(self).block_start - d,
                old(self).block_start > -0x4000_0000,
                self.insert == 0,
                self.high_water == old(self).high_water,
                forall|p: int| 0 <= p < old(self).strstart + old(self).lookahead - d ==> #[trigger] self.window[p] == w0[p + d],
                forall|p: int|
                    old(self).strstart + old(self).lookahead - d <= p < self.strstart + self.lookahead ==> #[trigger] self.window[p]
                        == input[old(self).next_in + (p - (old(self).strstart + old(self).lookahead - d))],
                forall|p: int| self.strstart + self.lookahead <= p < WINDOW_SIZE ==> #[trigger] self.window[p] == w0[p],
                forall|i: int| 0 <= i < HASH_SIZE ==> #[trigger] self.head[i] == if d > 0 { slid_entry(old(self).head[i]) } else { old(self).head[i] },
                forall|i: int| 0 <= i < W_SIZE ==> #[trigger] self.prev[i] == if d > 0 { slid_entry(old(self).prev[i]) } else { old(self).prev[i] },
                read_any && self.lookahead >= MIN_MATCH ==> self.ins_h == next_hash(
                    self.window[self.strstart as int] as u32,
                    self.window[self.strstart + 1],
                ),
                !read_any || self.lookahead < MIN_MATCH ==> self.ins_h == old(self).ins_h,
                !read_any ==> self.avail_in == old(self).avail_in,
                read_any ==> self.avail_in == 0 || self.strstart + self.lookahead == WINDOW_SIZE,
                *self == (DeflateState {
                    window: self.window,
                    strstart: self.strstart,
                    lookahead: self.lookahead,
                    next_in: self.next_in,
                    avail_in: self.avail_in,
                    match_start: self.match_start,
                    block_start: self.block_start,
                    head: self.head,
                    prev: self.prev,
                    ins_h: self.ins_h,
                    ..*old(self)
                }),
            ensures
                (self.lookahead >= MIN_LOOKAHEAD || self.avail_in == 0),
                self.strstart < W_SIZE + (W_SIZE - MIN_LOOKAHEAD),
                read_any == (old(self).avail_in > 0),
            decreases self.avail_in,
        {
            let ghost avail0 = self.avail_in;
            let mut more: usize = self.window_size - self.lookahead - self.strstart;

            // If the window is almost full, move the upper half to the lower one.
            if self.strstart >= wsize + self.max_dist() {
                let cnt: usize = wsize - more;
                let ghost sa = *self;
                let ghost wa = self.window@;
                let mut i: usize = 0;
                while i < cnt
                    invariant
                        wsize == W_SIZE,
                        cnt <= W_SIZE,
                        i <= cnt,
                        self.window.len() == WINDOW_SIZE,
                        wa.len() == WINDOW_SIZE,
                        forall|p: int| 0 <= p < i ==> #[trigger] self.window[p] == wa[p + W_SIZE],
                        forall|p: int| i <= p < WINDOW_SIZE ==> #[trigger] self.window[p] == wa[p],
                        *self == (DeflateState { window: self.window, ..sa }),
                    decreases cnt - i,
                {
                    let b: u8 = self.window[wsize + i];
                    self.window.set(i, b);
                    i += 1;
                }
                self.match_start = self.match_start.wrapping_sub(wsize);
                self.strstart -= wsize;
                self.block_start -= wsize as isize;
                if self.insert > self.strstart {
                    self.insert = self.strstart;
                }
                self.slide_hash();
                more += wsize;
                proof {
                    d = W_SIZE as int;
                    first = false;
                }
            }
            if self.avail_in == 0 {
                break;
            }

            let ghost wb = self.window@;
            let n: usize = self.read_buf(input, self.strstart + self.lookahead, more);
            self.lookahead += n;
            proof {
                read_any = true;
                first = false;
            }

            // Initialize the hash value now that we have some input.
            if self.lookahead + self.insert >= MIN_MATCH {
                let mut str: usize = self.strstart - self.insert;
                self.ins_h = self.window[str] as u32;
                let c: u8 = self.window[str + 1];
                self.update_hash(c);
                let ghost sn = *self;
                // `insert` counts strings left to hash from before a return to the caller:
                // the one-shot drive never leaves any, so this loop does not run.
                while self.insert != 0
                    invariant
                        self.insert == 0,
                        *self == sn,
                    ensures
                        *self == sn,
                    decreases self.insert,
                {
                    let c3: u8 = self.window[str + MIN_MATCH - 1];
                    self.update_hash(c3);
                    let h: usize = self.ins_h as usize;
                    let hv: u16 = self.head[h];
                    self.prev.set(str & self.w_mask, hv);
                    self.head.set(h, str as u16);
                    str += 1;
                    self.insert -= 1;
                    if self.lookahead + self.insert < MIN_MATCH {
                        break;
                    }
                }
            }

            if !(self.lookahead < MIN_LOOKAHEAD && self.avail_in != 0) {
                break;
            }
        }

        // Zero the WIN_INIT bytes past the data (the high-water mark).
        let ghost wc = self.window@;
        let ghost sc = *self;
        if self.high_water < self.window_size {
            let curr: usize = self.strstart + self.lookahead;
            if self.high_water < curr {
                let mut init: usize = self.window_size - curr;
                if init > WIN_INIT {
                    init = WIN_INIT;
                }
                let mut i: usize = 0;
                while i < init
                    invariant
                        i <= init,
                        curr + init <= WINDOW_SIZE,
                        self.window.len() == WINDOW_SIZE,
                        forall|p: int| curr <= p < curr + i ==> #[trigger] self.window[p] == 0,
                        forall|p: int| 0 <= p < curr || curr + i <= p < WINDOW_SIZE ==> #[trigger] self.window[p] == wc[p],
                        *self == (DeflateState { window: self.window, ..sc }),
                    decreases init - i,
                {
                    self.window.set(curr + i, 0);
                    i += 1;
                }
                self.high_water = curr + init;
            } else if self.high_water < curr + WIN_INIT {
                let mut init: usize = curr + WIN_INIT - self.high_water;
                if init > self.window_size - self.high_water {
                    init = self.window_size - self.high_water;
                }
                let hw: usize = self.high_water;
                let mut i: usize = 0;
                while i < init
                    invariant
                        i <= init,
                        hw + init <= WINDOW_SIZE,
                        self.window.len() == WINDOW_SIZE,
                        forall|p: int| hw <= p < hw + i ==> #[trigger] self.window[p] == 0,
                        forall|p: int| 0 <= p < hw || hw + i <= p < WINDOW_SIZE ==> #[trigger] self.window[p] == wc[p],
                        *self == (DeflateState { window: self.window, ..sc }),
                    decreases init - i,
                {
                    self.window.set(hw + i, 0);
                    i += 1;
                }
                self.high_water = self.high_water + init;
            }
        }
    }
}

impl DeflateState {
    /// The input position of the window's first byte.
    pub open spec fn base(&self) -> int {
        self.next_in - (self.strstart + self.lookahead)
    }

    /// The window holds the input: each byte below the end of the data is the input byte at
    /// its position.
    pub open spec fn window_ok(&self, input: Seq<u8>) -> bool {
        &&& self.strstart + self.lookahead <= self.next_in
        &&& forall|p: int|
            0 <= p < self.strstart + self.lookahead ==> #[trigger] self.window[p] == input[self.base() + p]
    }

    /// Where the current block's bytes start in the window, while they are still there.
    pub open spec fn flush_buf(&self) -> Option<usize> {
        if self.block_start >= 0 {
            Some(self.block_start as usize)
        } else {
            None
        }
    }

    /// The bytes of the current block, from `block_start` to `strstart`, while they are still
    /// in the window.
    pub open spec fn block_data(&self) -> Option<Seq<u8>> {
        if self.block_start >= 0 {
            Some(self.window@.subrange(self.block_start as int, self.strstart as int))
        } else {
            None
        }
    }

    /// The distance of the pending match, found at `strstart - 1`, computed as zlib does in
    /// unsigned arithmetic (after a slide `match_start` may lie below the window).
    pub open spec fn pending_dist(&self) -> int {
        ((self.strstart - 1) as usize).wrapping_sub(self.match_start) as int
    }

    /// A pending match (`match_length >= MIN_MATCH`) was found at `strstart - 1`, which is
    /// not yet sent: it fits in the data, and its bytes repeat the input from at most
    /// `MAX_DIST` bytes back.
    pub open spec fn pending_ok(&self, input: Seq<u8>) -> bool {
        self.match_length >= MIN_MATCH ==> {
            let at = self.base() + self.strstart - 1;
            let dist = self.pending_dist();
            &&& self.match_available
            &&& self.strstart >= 1
            &&& self.match_length <= self.lookahead + 1
            &&& 1 <= dist <= W_SIZE - MIN_LOOKAHEAD
            &&& dist <= at
            &&& forall|i: int| 0 <= i < self.match_length ==> #[trigger] input[at + i] == input[at - dist + i]
        }
    }

    /// The blocks sent so far (symbols `done`) stand for the input up to `block_start`, and
    /// the symbols of the current block stand for the input from there up to `strstart`,
    /// or up to `strstart - 1` while the byte there waits (`match_available`).
    pub open spec fn coverage_ok(&self, input: Seq<u8>, done: Seq<(int, int)>) -> bool {
        let bs = self.base() + self.block_start;
        &&& 0 <= bs
        &&& self.block_start <= self.strstart
        &&& apply_syms(Seq::empty(), done) == input.subrange(0, bs)
        &&& apply_syms(input.subrange(0, bs), buf_syms(self.sym_buf@, (self.sym_next / 3) as int)) == input.subrange(
            0,
            self.base() + self.strstart - (if self.match_available { 1int } else { 0 }),
        )
    }

    /// The state of `deflate_slow` between two steps, with the blocks `recs` sent so far
    /// and the fixed tables `sd0`.
    pub open spec fn lazy_ok(&self, input: Seq<u8>, recs: Seq<BlockRec>, sd0: StaticData) -> bool {
        let end = self.strstart + self.lookahead;
        &&& self.config_ok()
        &&& self.block_ok()
        &&& self.sd == sd0
        &&& self.next_in + self.avail_in == input.len()
        &&& end <= WINDOW_SIZE
        &&& self.insert == 0
        &&& self.high_water <= WINDOW_SIZE
        &&& self.window_ok(input)
        &&& hash_chains_ok(self.window@, self.head@, self.prev@, self.ins_h, self.strstart as int, end)
        &&& (self.avail_in > 0 && self.strstart > 0 ==> self.lookahead >= MIN_MATCH)
        &&& MIN_MATCH - 1 <= self.match_length <= MAX_MATCH
        &&& self.pending_ok(input)
        &&& (self.match_available ==> self.strstart >= 1)
        &&& self.sym_next < self.sym_end
        &&& self.coverage_ok(input, blocks_syms(recs))
        &&& self.bw.bits() == blocks_bits(recs)
        &&& blocks_ok(sd0, input, recs)
        &&& forall|i: int| 0 <= i < recs.len() ==> !(#[trigger] recs[i]).1
    }
}

/// Sliding both ends of a distance by the same amount, in unsigned arithmetic, keeps it.
proof fn lemma_wrapping_slide(a: usize, m: usize, d: usize)
    requires
        d <= a,
    ensures
        ((a - d) as usize).wrapping_sub(m.wrapping_sub(d)) == a.wrapping_sub(m),
{
}

/// `fill_window` keeps the hash chains consistent: sliding moves every position and the
/// bytes it hashes together, and reading only appends bytes after the inserted strings.
proof fn lemma_fill_hash(s0: DeflateState, s1: DeflateState, input: Seq<u8>)
    requires
        fill_effect(s0, s1, input),
        s0.config_ok(),
        s0.strstart + s0.lookahead <= WINDOW_SIZE,
        hash_chains_ok(s0.window@, s0.head@, s0.prev@, s0.ins_h, s0.strstart as int, s0.strstart + s0.lookahead),
        s0.avail_in > 0 && s0.strstart > 0 ==> s0.lookahead >= MIN_MATCH,
        s0.next_in + s0.avail_in == input.len(),
    ensures
        hash_chains_ok(s1.window@, s1.head@, s1.prev@, s1.ins_h, s1.strstart as int, s1.strstart + s1.lookahead),
{
    let d: int = if s0.strstart >= W_SIZE + (W_SIZE - MIN_LOOKAHEAD) { W_SIZE as int } else { 0 };
    let kept: int = s0.strstart + s0.lookahead - d;
    let end0: int = s0.strstart + s0.lookahead;
    let end1: int = s1.strstart + s1.lookahead;
    let w0 = s0.window@;
    let w1 = s1.window@;
    assert(s0.avail_in == 0 ==> end1 == kept);
    assert forall|p: int| 0 <= p && p + MIN_MATCH <= kept implies hash3(w1, p) == hash3(w0, p + d) by {
        assert(w1[p] == w0[p + d]);
        assert(w1[p + 1] == w0[p + 1 + d]);
        assert(w1[p + 2] == w0[p + 2 + d]);
    }
    assert forall|h: int| 0 <= h < HASH_SIZE && #[trigger] s1.head[h] != 0 implies s1.head[h] < s1.strstart
        && s1.head[h] + MIN_MATCH <= end1 && hash3(w1, s1.head[h] as int) == h by {
        let v = s0.head[h];
        assert(v != 0);
        if d > 0 {
            assert(s1.head[h] == slid_entry(v));
            assert(v > 32768);
        }
        assert(s1.head[h] + MIN_MATCH <= kept);
        assert(hash3(w1, s1.head[h] as int) == hash3(w0, s1.head[h] + d));
    }
    assert forall|c: int|
        0 < c < s1.strstart && s1.strstart - c <= W_SIZE - MIN_LOOKAHEAD && c + MIN_MATCH <= end1 implies #[trigger] chain_ok(
        w1,
        s1.prev@,
        c,
    ) by {
        let c0 = c + d;
        assert(c0 + MIN_MATCH <= end0);
        assert(chain_ok(w0, s0.prev@, c0));
        assert(c0 % 32768 == c % 32768);
        let v0 = s0.prev[c % 32768];
        if v0 != 0 {
            if d > 0 {
                assert(s1.prev[c % 32768] == slid_entry(v0));
                if v0 >= 32768 {
                    let v1 = v0 - 32768;
                    assert(hash3(w1, v1 as int) == hash3(w0, v0 as int));
                }
            } else {
                assert(hash3(w1, v0 as int) == hash3(w0, v0 as int));
            }
            assert(hash3(w1, c) == hash3(w0, c0));
        }
    }
    if s1.strstart + MIN_MATCH <= end1 {
        if s0.avail_in > 0 {
            lemma_hash_start(w1[s1.strstart as int], w1[s1.strstart + 1]);
        } else {
            assert(w1[s1.strstart as int] == w0[s0.strstart as int]);
            assert(w1[s1.strstart + 1] == w0[s0.strstart + 1]);
        }
    }
}

/// `fill_window` keeps the state of `deflate_slow`.
#[verifier::spinoff_prover]
#[verifier::rlimit(40)]
proof fn lemma_fill_keeps(s0: DeflateState, s1: DeflateState, input: Seq<u8>, recs: Seq<BlockRec>, sd0: StaticData)
    requires
        s0.lazy_ok(input, recs, sd0),
        fill_effect(s0, s1, input),
    ensures
        s1.lazy_ok(input, recs, sd0),
        s1.strstart < W_SIZE + (W_SIZE - MIN_LOOKAHEAD),
        s1.lookahead >= MIN_LOOKAHEAD || s1.avail_in == 0,
        s1.base() + s1.strstart == s0.base() + s0.strstart,
{
    let d: int = if s0.strstart >= W_SIZE + (W_SIZE - MIN_LOOKAHEAD) { W_SIZE as int } else { 0 };
    let kept: int = s0.strstart + s0.lookahead - d;
    lemma_fill_hash(s0, s1, input);
    assert(s1.base() == s0.base() + d);
    assert forall|p: int| 0 <= p < s1.strstart + s1.lookahead implies #[trigger] s1.window[p] == input[s1.base() + p] by {
        if p < kept {
            assert(s1.window[p] == s0.window[p + d]);
        }
    }
    if s0.match_length >= MIN_MATCH {
        if d > 0 {
            lemma_wrapping_slide((s0.strstart - 1) as usize, s0.match_start, 32768);
        }
        assert(s1.pending_dist() == s0.pending_dist());
    }
    assert(s1.sym_buf == s0.sym_buf);
}

impl DeflateState {
    /// `FLUSH_BLOCK_ONLY(s, last)`: send the current block, whose bytes run from
    /// `block_start` to `strstart` (offered as a stored block while they are still in the
    /// window), and start the next block at `strstart`. Its effect is exactly that of
    /// `tr_flush_block` given where the block starts in the window (while it is there) and
    /// its length, followed by moving `block_start` to `strstart`.
    pub fn flush_block(&mut self, last: bool)
        requires
            old(self).block_ok(),
            old(self).config_ok(),
            old(self).block_start <= old(self).strstart <= 65535,
            old(self).strstart - old(self).block_start < 0x1000_0000,
        ensures
            final(self).block_ok(),
            final(self).config_ok(),
            *final(self) == (DeflateState {
                bw: final(self).bw,
                dyn_ltree: final(self).dyn_ltree,
                dyn_dtree: final(self).dyn_dtree,
                bl_tree: final(self).bl_tree,
                l_max_code: final(self).l_max_code,
                d_max_code: final(self).d_max_code,
                heap: final(self).heap,
                heap_len: final(self).heap_len,
                heap_max: final(self).heap_max,
                depth: final(self).depth,
                bl_count: final(self).bl_count,
                opt_len: final(self).opt_len,
                static_len: final(self).static_len,
                sym_next: 0,
                block_start: old(self).strstart as isize,
                ..*old(self)
            }),
            exists|block: Seq<bool>|
                #[trigger] is_block(
                    old(self).sd,
                    old(self).bw.bits().len() as int,
                    block,
                    last,
                    old(self).block_data(),
                    old(self).sym_buf@,
                    (old(self).sym_next / 3) as int,
                ) && is_block_kind(
                    block_type(
                        dyn_cost(
                            old(self).dyn_ltree@,
                            old(self).dyn_dtree@,
                            final(self).dyn_ltree@,
                            final(self).dyn_dtree@,
                            final(self).bl_tree@,
                            final(self).l_max_code as int,
                            final(self).d_max_code as int,
                            last_bl(final(self).bl_tree@, BL_CODES - 1),
                        ),
                        static_cost(
                            old(self).sd,
                            old(self).dyn_ltree@,
                            old(self).dyn_dtree@,
                            final(self).l_max_code as int,
                            final(self).d_max_code as int,
                        ),
                        old(self).strstart - old(self).block_start,
                        old(self).block_start >= 0,
                    ),
                    old(self).sd,
                    old(self).bw.bits().len() as int,
                    block,
                    last,
                    old(self).block_data(),
                    old(self).sym_buf@,
                    (old(self).sym_next / 3) as int,
                    final(self).dyn_ltree@,
                    final(self).dyn_dtree@,
                ) && zlib_choice(
                    old(self).sd,
                    old(self).bw.bits().len() as int,
                    block,
                    last,
                    old(self).block_data(),
                    old(self).sym_buf@,
                    (old(self).sym_next / 3) as int,
                ) && final(self).bw.bits() == old(self).bw.bits() + block + if last {
                    zero_bits(pad_len((old(self).bw.bits().len() + block.len()) as int))
                } else {
                    Seq::empty()
                },
            last ==> final(self).bw.bi_valid == 0 && final(self).bw.bi_buf == 0,
            tr_flush_effect(
                *old(self),
                (DeflateState { block_start: old(self).block_start, ..*final(self) }),
                old(self).flush_buf(),
                old(self).strstart - old(self).block_start,
                last,
            ),
            final(self).block_start == old(self).strstart,
    {
        let buf: Option<usize>;
        let stored_len: usize;
        if self.block_start >= 0 {
            let bs: usize = self.block_start as usize;
            buf = Some(bs);
            stored_len = self.strstart - bs;
        } else {
            buf = None;
            stored_len = (self.strstart as isize - self.block_start) as usize;
        }
        self.tr_flush_block(buf, stored_len, last);
        let ghost mid = *self;
        self.block_start = self.strstart as isize;
        proof {
            assert((DeflateState { block_start: old(self).block_start, ..*self }) == mid);
        }
    }
}

/// The symbols of all blocks sent are ones a block can hold.
pub open spec fn all_syms_ok(syms: Seq<(int, int)>) -> bool {
    forall|i: int| 0 <= i < syms.len() ==> sym_ok(#[trigger] syms[i])
}

/// The symbols of a buffer that a block holds are ones it can hold.
proof fn lemma_buf_syms_ok(st: DeflateState)
    requires
        st.block_ok(),
    ensures
        all_syms_ok(buf_syms(st.sym_buf@, (st.sym_next / 3) as int)),
{
    let cur = buf_syms(st.sym_buf@, (st.sym_next / 3) as int);
    assert forall|i: int| 0 <= i < cur.len() implies sym_ok(#[trigger] cur[i]) by {
        assert(cur[i] == sym_at(st.sym_buf@, i));
    }
}

/// The symbols of the current block stand for at most `MAX_MATCH` bytes each: the bytes
/// from the block's start to `x`.
proof fn lemma_block_span(st: DeflateState, input: Seq<u8>, bs: int, x: int)
    requires
        st.block_ok(),
        0 <= bs <= x <= input.len(),
        apply_syms(input.subrange(0, bs), buf_syms(st.sym_buf@, (st.sym_next / 3) as int)) == input.subrange(0, x),
    ensures
        x - bs == syms_len(buf_syms(st.sym_buf@, (st.sym_next / 3) as int)),
        x - bs <= MAX_MATCH * (st.sym_next / 3),
{
    let cur = buf_syms(st.sym_buf@, (st.sym_next / 3) as int);
    lemma_buf_syms_ok(st);
    lemma_apply_len(input.subrange(0, bs), cur);
    lemma_syms_len_bound(cur);
    assert(input.subrange(0, bs).len() == bs);
}

/// Between two steps of `deflate_slow`, the current block spans at most `MAX_MATCH` bytes
/// per symbol, and one more for the byte waiting at `strstart - 1`.
proof fn lemma_lazy_span(st: DeflateState, input: Seq<u8>, recs: Seq<BlockRec>, sd0: StaticData)
    requires
        st.lazy_ok(input, recs, sd0),
    ensures
        st.strstart - st.block_start <= MAX_MATCH * (st.sym_next / 3) + 1,
        st.block_start > -0x4000_0000,
{
    let ma: int = if st.match_available { 1 } else { 0 };
    let bs = st.base() + st.block_start;
    let x = st.base() + st.strstart - ma;
    let cur = buf_syms(st.sym_buf@, (st.sym_next / 3) as int);
    lemma_buf_syms_ok(st);
    lemma_apply_len(input.subrange(0, bs), cur);
    lemma_syms_len_bound(cur);
    assert(input.subrange(0, x).len() == x);
    lemma_block_span(st, input, bs, x);
}

/// The format of the stream: blocks, of which only the last is marked last, then zero bits
/// up to a byte boundary; each block encodes (stored, fixed or dynamic) its symbols, a
/// stored block holds the input bytes its symbols stand for, and all the symbols, in
/// order, stand for the input (RFC 1951).
pub open spec fn deflate_stream(sd: StaticData, input: Seq<u8>, out: Seq<u8>, recs: Seq<BlockRec>) -> bool {
    &&& recs.len() >= 1
    &&& blocks_ok(sd, input, recs)
    &&& forall|i: int| 0 <= i < recs.len() ==> (#[trigger] recs[i]).1 == (i == recs.len() - 1)
    &&& bytes_bits(out) == blocks_bits(recs) + zero_bits(pad_len(blocks_bits(recs).len() as int))
    &&& apply_syms(Seq::empty(), blocks_syms(recs)) == input
}

/// Sending the current block, whose symbols stand for the input from `block_start` to
/// `strstart`, extends the blocks sent by one that encodes them.
#[verifier::spinoff_prover]
#[verifier::rlimit(40)]
proof fn lemma_flush_keeps(
    p: DeflateState,
    q: DeflateState,
    input: Seq<u8>,
    recs: Seq<BlockRec>,
    sd0: StaticData,
    block: Seq<bool>,
    last: bool,
)
    requires
        p.sd == sd0,
        p.config_ok(),
        p.block_ok(),
        p.window_ok(input),
        p.bw.bits() == blocks_bits(recs),
        blocks_ok(sd0, input, recs),
        all_syms_ok(blocks_syms(recs)),
        0 <= p.base() + p.block_start,
        p.block_start <= p.strstart,
        apply_syms(Seq::empty(), blocks_syms(recs)) == input.subrange(0, p.base() + p.block_start),
        apply_syms(input.subrange(0, p.base() + p.block_start), buf_syms(p.sym_buf@, (p.sym_next / 3) as int))
            == input.subrange(0, p.base() + p.strstart),
        p.base() + p.strstart <= input.len(),
        p.strstart + p.lookahead <= WINDOW_SIZE,
        is_block(
            p.sd,
            p.bw.bits().len() as int,
            block,
            last,
            p.block_data(),
            p.sym_buf@,
            (p.sym_next / 3) as int,
        ),
        zlib_choice(p.sd, p.bw.bits().len() as int, block, last, p.block_data(), p.sym_buf@, (p.sym_next / 3) as int),
    ensures
        ({
            let rec: BlockRec = (
                block,
                last,
                p.block_data(),
                p.sym_buf@,
                (p.sym_next / 3) as int,
            );
            &&& blocks_ok(sd0, input, recs.push(rec))
            &&& blocks_bits(recs.push(rec)) == blocks_bits(recs) + block
            &&& blocks_syms(recs.push(rec)) == blocks_syms(recs) + buf_syms(p.sym_buf@, (p.sym_next / 3) as int)
            &&& all_syms_ok(blocks_syms(recs.push(rec)))
            &&& apply_syms(Seq::empty(), blocks_syms(recs.push(rec))) == input.subrange(0, p.base() + p.strstart)
        }),
{
    let cur = buf_syms(p.sym_buf@, (p.sym_next / 3) as int);
    let data = p.block_data();
    let rec: BlockRec = (block, last, data, p.sym_buf@, (p.sym_next / 3) as int);
    let done = blocks_syms(recs);
    let bs = p.base() + p.block_start;
    lemma_buf_syms_ok(p);
    lemma_apply_len(Seq::empty(), done);
    lemma_apply_len(input.subrange(0, bs), cur);
    assert(input.subrange(0, bs).len() == bs);
    assert(syms_len(cur) == p.strstart - p.block_start);
    if p.block_start >= 0 {
        let wb = p.window@.subrange(p.block_start as int, p.strstart as int);
        let ib = input.subrange(bs, bs + syms_len(cur));
        assert forall|j: int| 0 <= j < wb.len() implies wb[j] == ib[j] by {
            let q = p.block_start + j;
            assert(0 <= q < p.strstart + p.lookahead);
            assert(p.window[q] == input[p.base() + q]);
            assert(wb[j] == p.window[q]);
            assert(ib[j] == input[bs + j]);
        }
        assert(wb =~= ib);
    }
    assert(block_rec_ok(sd0, input, recs, rec));
    lemma_blocks_push(sd0, input, recs, rec);
    lemma_apply_concat(Seq::empty(), done, cur);
    assert forall|i: int| 0 <= i < (done + cur).len() implies sym_ok(#[trigger] (done + cur)[i]) by {
        if i < done.len() {
            assert((done + cur)[i] == done[i]);
        } else {
            assert((done + cur)[i] == cur[i - done.len()]);
        }
    }
}

/// Appending a symbol to the buffer appends it to the buffer's symbols.
proof fn lemma_tally_syms(b0: Seq<u8>, b1: Seq<u8>, k: int, sy: (int, int))
    requires
        0 <= k,
        forall|i: int| 0 <= i < k ==> #[trigger] sym_at(b1, i) == sym_at(b0, i),
        sym_at(b1, k) == sy,
    ensures
        buf_syms(b1, k + 1) == buf_syms(b0, k).push(sy),
{
    assert(buf_syms(b1, k + 1) =~= buf_syms(b0, k).push(sy));
}

/// Every block of `recs` holds a full buffer of symbols.
#[verifier::opaque]
pub open spec fn full_blocks(recs: Seq<BlockRec>) -> bool {
    forall|i: int| 0 <= i < recs.len() ==> (#[trigger] recs[i]).4 == LIT_BUFSIZE - 1
}

/// The symbols sent so far: those of the blocks sent, then those in the buffer.
pub open spec fn sent_syms(st: DeflateState, recs: Seq<BlockRec>) -> Seq<(int, int)> {
    blocks_syms(recs) + buf_syms(st.sym_buf@, (st.sym_next / 3) as int)
}

/// The length of the match that one lazy step finds at `strstart`: the string there joins
/// its hash chain when three bytes are left; the chain is searched when it is not empty, the
/// pending match is shorter than `max_lazy_match` and the chain's head is within reach,
/// keeping a match only if it is longer than the pending one; a three-byte match from more
/// than `TOO_FAR` back is dropped. `MIN_MATCH - 1` stands for no match.
pub open spec fn lazy_match_len(t: DeflateState) -> int {
    let s = t.strstart as int;
    let la = t.lookahead as int;
    let h = next_hash(t.ins_h, t.window[s + 2]);
    let hh: int = if la >= MIN_MATCH { t.head[h as int] as int } else { 0 };
    let prv = if la >= MIN_MATCH { t.prev@.update(s % 32768, t.head[h as int]) } else { t.prev@ };
    let pl = t.match_length as int;
    if hh != 0 && pl < t.max_lazy_match && s - hh <= W_SIZE - MIN_LOOKAHEAD {
        let chain: int = if pl >= GOOD_MATCH { 1024 } else { 4096 };
        let nice: int = if la < NICE_MATCH { la } else { NICE_MATCH as int };
        let limit: int = if s > W_SIZE - MIN_LOOKAHEAD { s - (W_SIZE - MIN_LOOKAHEAD) } else { 0 };
        let r = chain_walk(t.window@, prv, s, hh, chain, pl, t.match_start as int, nice, limit);
        let ml = if r.0 <= la { r.0 } else { la };
        if ml == MIN_MATCH && (t.strstart).wrapping_sub(r.1 as usize) > TOO_FAR {
            MIN_MATCH - 1
        } else {
            ml
        }
    } else {
        MIN_MATCH - 1
    }
}

/// The hash table once one lazy step has inserted the string at `strstart` (when three
/// bytes are left).
pub open spec fn lazy_hash(t: DeflateState) -> (Seq<u16>, Seq<u16>, u32) {
    if t.lookahead >= MIN_MATCH {
        hash_insert((t.head@, t.prev@, t.ins_h), t.window@, t.strstart as int)
    } else {
        (t.head@, t.prev@, t.ins_h)
    }
}

/// Where the match that one lazy step finds starts: as the chain walk leaves it when the
/// chain is searched, else where the pending match starts.
pub open spec fn lazy_match_start(t: DeflateState) -> int {
    let s = t.strstart as int;
    let la = t.lookahead as int;
    let h = next_hash(t.ins_h, t.window[s + 2]);
    let hh: int = if la >= MIN_MATCH { t.head[h as int] as int } else { 0 };
    let pl = t.match_length as int;
    if hh != 0 && pl < t.max_lazy_match && s - hh <= W_SIZE - MIN_LOOKAHEAD {
        let chain: int = if pl >= GOOD_MATCH { 1024 } else { 4096 };
        let nice: int = if la < NICE_MATCH { la } else { NICE_MATCH as int };
        let limit: int = if s > W_SIZE - MIN_LOOKAHEAD { s - (W_SIZE - MIN_LOOKAHEAD) } else { 0 };
        chain_walk(t.window@, lazy_hash(t).1, s, hh, chain, pl, t.match_start as int, nice, limit).1
    } else {
        t.match_start as int
    }
}

/// The state that one lazy step leaves for the next, as far as matching and the next
/// refill go: the window and its initialized part are kept; after sending the pending
/// match, the position moves past it with the strings inside it hashed and nothing
/// pending; otherwise the position moves by one, with the new match pending.
pub open spec fn lazy_next_ok(t: DeflateState, f: DeflateState) -> bool {
    let s = t.strstart as int;
    let la = t.lookahead as int;
    let pl = t.match_length as int;
    &&& f.window@ == t.window@
    &&& f.high_water == t.high_water
    &&& f.next_in == t.next_in
    &&& f.avail_in == t.avail_in
    &&& f.match_start == lazy_match_start(t)
    &&& if pl >= MIN_MATCH && lazy_match_len(t) <= pl {
        &&& f.strstart == s + pl - 1
        &&& f.lookahead == la - (pl - 1)
        &&& !f.match_available
        &&& f.match_length == MIN_MATCH - 1
        &&& (f.head@, f.prev@, f.ins_h) == insert_run(
            lazy_hash(t),
            t.window@,
            s + 1,
            if pl < la { s + pl - 1 } else { s + la - 2 },
        )
    } else {
        &&& f.strstart == s + 1
        &&& f.lookahead == la - 1
        &&& f.match_available
        &&& f.match_length == lazy_match_len(t)
        &&& (f.head@, f.prev@, f.ins_h) == lazy_hash(t)
    }
}

/// One round of `deflate_slow`'s loop from `a`: the window is refilled when fewer than
/// `MIN_LOOKAHEAD` bytes are ahead (giving `f`; else `f` is `a`), some byte is ahead, and one
/// lazy step leads from `f` to `b`, which keeps the fixed configuration.
pub open spec fn slow_round(a: DeflateState, f: DeflateState, b: DeflateState, input: Seq<u8>) -> bool {
    &&& if a.lookahead < MIN_LOOKAHEAD { fill_effect(a, f, input) } else { f == a }
    &&& f.lookahead > 0
    &&& lazy_next_ok(f, b)
    &&& b.config_ok()
}

/// `trace` is a run of rounds of `deflate_slow`'s loop from `start` to `cur`: the start and
/// refilled state of each round, each round leading to the next one's start.
pub open spec fn slow_run(trace: Seq<(DeflateState, DeflateState)>, input: Seq<u8>, start: DeflateState, cur: DeflateState) -> bool {
    &&& trace.len() == 0 ==> cur == start
    &&& trace.len() > 0 ==> trace[0].0 == start
    &&& forall|i: int|
        0 <= i < trace.len() ==> slow_round(
            #[trigger] trace[i].0,
            trace[i].1,
            if i + 1 < trace.len() { trace[i + 1].0 } else { cur },
            input,
        )
}

/// The symbols that the lazy steps of a run send, in order.
pub open spec fn run_syms(trace: Seq<(DeflateState, DeflateState)>) -> Seq<(int, int)>
    decreases trace.len(),
{
    if trace.len() == 0 {
        Seq::empty()
    } else {
        run_syms(trace.drop_last()) + lazy_syms(trace.last().1)
    }
}

/// The literal sent at the end of the input for the byte that was still waiting.
pub open spec fn last_syms(e: DeflateState) -> Seq<(int, int)> {
    if e.match_available {
        seq![(0int, e.window[e.strstart - 1] as int)]
    } else {
        Seq::empty()
    }
}

/// `out`, made of the blocks `recs`, is a raw DEFLATE stream of `input` whose symbols are
/// those that `deflate_slow`'s loop sends from `start`: a run of rounds while input is
/// left, the last refill that finds nothing more, then the literal still waiting. Every
/// block but the last holds a full buffer of symbols; the last holds what the buffer held
/// at the end (less than a full buffer), and the literal still waiting. Each block's bytes
/// are offered as a stored block exactly when they were still in the window when it was
/// sent: in the round whose symbol filled its buffer (`flush_rounds`), or at the end for the
/// last block.
pub open spec fn lazy_stream(start: DeflateState, input: Seq<u8>, out: Seq<u8>, recs: Seq<BlockRec>) -> bool {
    &&& deflate_stream(start.sd, input, out, recs)
    &&& forall|i: int| 0 <= i < recs.len() - 1 ==> (#[trigger] recs[i]).4 == LIT_BUFSIZE - 1
    &&& exists|trace: Seq<(DeflateState, DeflateState)>, last: DeflateState, e: DeflateState|
        #![trigger slow_run(trace, input, start, last), fill_effect(last, e, input)]
        {
            &&& slow_run(trace, input, start, last)
            &&& last.lookahead < MIN_LOOKAHEAD
            &&& fill_effect(last, e, input)
            &&& e.lookahead == 0
            &&& blocks_syms(recs) == run_syms(trace) + last_syms(e)
            &&& last_syms(e).len() <= recs.last().4 < LIT_BUFSIZE - 1 + last_syms(e).len()
            &&& exists|at: Seq<int>| #[trigger] flush_rounds(trace, recs, at) && at.len() == recs.len() - 1
            &&& (recs.last().2 is Some <==> e.base() <= syms_len(blocks_syms(recs.drop_last())))
        }
}

/// The rounds of the run in which the first `at.len()` blocks of `recs` were sent, and
/// whether their bytes could go out as a stored block: block `i` goes out in round `at[i]`,
/// whose symbol is the last of the `(i + 1)`-th full buffer, and its bytes are at hand iff
/// they start no earlier than the window did in that round.
pub open spec fn flush_rounds(trace: Seq<(DeflateState, DeflateState)>, recs: Seq<BlockRec>, at: Seq<int>) -> bool {
    &&& at.len() <= recs.len()
    &&& forall|i: int|
        0 <= i < at.len() ==> {
            &&& 0 <= #[trigger] at[i] < trace.len()
            &&& lazy_syms(trace[at[i]].1).len() == 1
            &&& run_syms(trace.take(at[i] + 1)).len() == (i + 1) * 16383
            &&& (recs[i].2 is Some <==> trace[at[i]].1.base() <= syms_len(blocks_syms(recs.take(i))))
        }
}

/// Blocks of a full buffer each hold that many symbols together.
proof fn lemma_full_len(recs: Seq<BlockRec>)
    requires
        full_blocks(recs),
    ensures
        blocks_syms(recs).len() == recs.len() * 16383,
    decreases recs.len(),
{
    reveal(full_blocks);
    if recs.len() > 0 {
        let d = recs.drop_last();
        assert forall|i: int| 0 <= i < d.len() implies (#[trigger] d[i]).4 == LIT_BUFSIZE - 1 by {
            assert(d[i] == recs[i]);
        }
        assert(full_blocks(d));
        lemma_full_len(d);
        assert(recs.last().4 == LIT_BUFSIZE - 1);
    }
}

/// One more round, and the block it may send.
proof fn lemma_flush_rounds_step(
    trace: Seq<(DeflateState, DeflateState)>,
    recs: Seq<BlockRec>,
    at: Seq<int>,
    a: DeflateState,
    f: DeflateState,
    r: Seq<BlockRec>,
) -> (at2: Seq<int>)
    requires
        flush_rounds(trace, recs, at),
        at.len() == recs.len(),
        r == recs || (r.len() == recs.len() + 1 && r.drop_last() == recs && lazy_syms(f).len() == 1 && ((r.last().2 is Some)
            == (f.block_start >= 0))),
        r.len() == recs.len() + 1 ==> run_syms(trace.push((a, f))).len() == r.len() * 16383,
        f.base() + f.block_start == syms_len(blocks_syms(recs)),
    ensures
        flush_rounds(trace.push((a, f)), r, at2),
        at2.len() == r.len(),
{
    let t2 = trace.push((a, f));
    let at2 = if r == recs { at } else { at.push(trace.len() as int) };
    assert forall|i: int| 0 <= i < at2.len() implies {
        &&& 0 <= #[trigger] at2[i] < t2.len()
        &&& lazy_syms(t2[at2[i]].1).len() == 1
        &&& run_syms(t2.take(at2[i] + 1)).len() == (i + 1) * 16383
        &&& (r[i].2 is Some <==> t2[at2[i]].1.base() <= syms_len(blocks_syms(r.take(i))))
    } by {
        if i < at.len() {
            assert(at2[i] == at[i]);
            assert(t2[at[i]] == trace[at[i]]);
            assert(t2.take(at[i] + 1) =~= trace.take(at[i] + 1));
            if r != recs {
                assert(r[i] == r.drop_last()[i]);
                assert(r.take(i) =~= recs.take(i));
            }
        } else {
            assert(t2[trace.len() as int] == (a, f));
            assert(t2.take(trace.len() + 1int) =~= t2);
            assert(r.take(i) =~= recs);
        }
    }
    at2
}

/// The rounds found for the blocks stay theirs when another block follows.
proof fn lemma_flush_rounds_extend(trace: Seq<(DeflateState, DeflateState)>, recs: Seq<BlockRec>, at: Seq<int>, r: Seq<BlockRec>)
    requires
        flush_rounds(trace, recs, at),
        r.len() == recs.len() + 1,
        r.drop_last() == recs,
    ensures
        flush_rounds(trace, r, at),
{
    assert forall|i: int| 0 <= i < at.len() implies {
        &&& 0 <= #[trigger] at[i] < trace.len()
        &&& lazy_syms(trace[at[i]].1).len() == 1
        &&& run_syms(trace.take(at[i] + 1)).len() == (i + 1) * 16383
        &&& (r[i].2 is Some <==> trace[at[i]].1.base() <= syms_len(blocks_syms(r.take(i))))
    } by {
        assert(r[i] == r.drop_last()[i]);
        assert(r.take(i) =~= recs.take(i));
    }
}

/// A run extended by one round is a run, sending that round's symbol after the others.
proof fn lemma_run_push(
    trace: Seq<(DeflateState, DeflateState)>,
    input: Seq<u8>,
    start: DeflateState,
    a: DeflateState,
    f: DeflateState,
    b: DeflateState,
)
    requires
        slow_run(trace, input, start, a),
        slow_round(a, f, b, input),
    ensures
        slow_run(trace.push((a, f)), input, start, b),
        run_syms(trace.push((a, f))) == run_syms(trace) + lazy_syms(f),
{
    let t2 = trace.push((a, f));
    assert(t2.drop_last() =~= trace);
    assert forall|i: int| 0 <= i < t2.len() implies slow_round(
        #[trigger] t2[i].0,
        t2[i].1,
        if i + 1 < t2.len() { t2[i + 1].0 } else { b },
        input,
    ) by {
        if i < trace.len() {
            assert(t2[i] == trace[i]);
            if i + 1 < trace.len() {
                assert(t2[i + 1] == trace[i + 1]);
            } else {
                assert(t2[i + 1] == (a, f));
            }
        }
    }
}

/// The symbol that one lazy step sends: the pending match when the new one is not longer;
/// else, when a match or a byte is pending, the byte before `strstart` as a literal; else
/// none.
pub open spec fn lazy_syms(t: DeflateState) -> Seq<(int, int)> {
    let pl = t.match_length as int;
    if pl >= MIN_MATCH && lazy_match_len(t) <= pl {
        seq![(t.pending_dist(), pl - MIN_MATCH)]
    } else if t.match_available {
        seq![(0int, t.window[t.strstart - 1] as int)]
    } else {
        Seq::empty()
    }
}

impl DeflateState {
    /// Send the match found at the previous position (`prev_length` bytes, `prev_match`
    /// back): tally it, insert the strings it covers into the hash chains while three bytes
    /// are left in the data, and move `strstart` past it. Returns whether the block's symbol
    /// buffer is now full.
    #[verifier::spinoff_prover]
    #[verifier::rlimit(40)]
    pub fn send_prev_match(&mut self) -> (bflush: bool)
        requires
            old(self).config_ok(),
            old(self).block_ok(),
            old(self).sym_next < old(self).sym_end,
            MIN_MATCH <= old(self).prev_length <= MAX_MATCH,
            old(self).prev_length <= old(self).lookahead + 1,
            old(self).strstart >= 1,
            1 <= ((old(self).strstart - 1) as usize).wrapping_sub(old(self).prev_match) <= W_SIZE - MIN_LOOKAHEAD,
            old(self).strstart + old(self).lookahead <= WINDOW_SIZE,
            hash_chains_ok(
                old(self).window@,
                old(self).head@,
                old(self).prev@,
                old(self).ins_h,
                old(self).strstart + 1,
                old(self).strstart + old(self).lookahead,
            ),
        ensures
            *final(self) == (DeflateState {
                sym_buf: final(self).sym_buf,
                sym_next: final(self).sym_next,
                dyn_ltree: final(self).dyn_ltree,
                dyn_dtree: final(self).dyn_dtree,
                strstart: final(self).strstart,
                lookahead: final(self).lookahead,
                prev_length: final(self).prev_length,
                ins_h: final(self).ins_h,
                head: final(self).head,
                prev: final(self).prev,
                match_available: false,
                match_length: (MIN_MATCH - 1) as usize,
                ..*old(self)
            }),
            final(self).config_ok(),
            final(self).block_ok(),
            final(self).strstart == old(self).strstart + old(self).prev_length - 1,
            final(self).lookahead == old(self).lookahead - (old(self).prev_length - 1),
            hash_chains_ok(
                final(self).window@,
                final(self).head@,
                final(self).prev@,
                final(self).ins_h,
                final(self).strstart as int,
                old(self).strstart + old(self).lookahead,
            ),
            final(self).sym_next == old(self).sym_next + 3,
            forall|i: int| 0 <= i < old(self).sym_next / 3 ==> #[trigger] sym_at(final(self).sym_buf@, i) == sym_at(
                old(self).sym_buf@,
                i,
            ),
            sym_at(final(self).sym_buf@, (old(self).sym_next / 3) as int) == (
                ((old(self).strstart - 1) as usize).wrapping_sub(old(self).prev_match) as int,
                old(self).prev_length - MIN_MATCH,
            ),
            bflush == (final(self).sym_next == final(self).sym_end),
            (final(self).head@, final(self).prev@, final(self).ins_h) == insert_run(
                (old(self).head@, old(self).prev@, old(self).ins_h),
                old(self).window@,
                old(self).strstart + 1,
                if old(self).prev_length < old(self).lookahead { old(self).strstart + old(self).prev_length - 1 } else {
                    old(self).strstart + old(self).lookahead - 2
                },
            ),
    {
        let ghost end: int = self.strstart + self.lookahead;
        let max_insert: usize = self.strstart + self.lookahead - MIN_MATCH;
        let dist: usize = (self.strstart - 1).wrapping_sub(self.prev_match);
        let lc: usize = self.prev_length - MIN_MATCH;
        let bflush: bool = self.tr_tally(dist, lc);
        self.lookahead -= self.prev_length - 1;
        self.prev_length -= 2;
        let ghost v = *self;
        let ghost mi = max_insert as int;
        proof {
            assert(insert_run((v.head@, v.prev@, v.ins_h), v.window@, v.strstart + 1, if v.strstart <= mi { v.strstart + 1 } else { mi + 1 })
                == (v.head@, v.prev@, v.ins_h));
        }
        loop
            invariant_except_break
                self.prev_length >= 1,
            invariant
                self.config_ok(),
                *self == (DeflateState {
                    strstart: self.strstart,
                    prev_length: self.prev_length,
                    ins_h: self.ins_h,
                    head: self.head,
                    prev: self.prev,
                    ..v
                }),
                self.strstart + self.prev_length == v.strstart + v.prev_length,
                v.strstart + v.prev_length + 1 + v.lookahead == end,
                end <= WINDOW_SIZE,
                max_insert == end - MIN_MATCH,
                hash_chains_ok(self.window@, self.head@, self.prev@, self.ins_h, self.strstart + 1, end),
                mi == max_insert,
                self.strstart >= v.strstart,
                (self.head@, self.prev@, self.ins_h) == insert_run(
                    (v.head@, v.prev@, v.ins_h),
                    v.window@,
                    v.strstart + 1,
                    if self.strstart <= mi { self.strstart + 1 } else { mi + 1 },
                ),
            ensures
                self.prev_length == 0,
            decreases self.prev_length,
        {
            let ghost w = *self;
            self.strstart += 1;
            if self.strstart <= max_insert {
                self.insert_string(self.strstart);
                proof {
                    lemma_insert_hash(w.window@, w.head@, w.prev@, w.ins_h, self.strstart as int, end);
                    let sp = self.strstart as int;
                    let before = insert_run((v.head@, v.prev@, v.ins_h), v.window@, v.strstart + 1, sp);
                    assert(before == (w.head@, w.prev@, w.ins_h));
                    assert(insert_run((v.head@, v.prev@, v.ins_h), v.window@, v.strstart + 1, sp + 1) == hash_insert(
                        before,
                        v.window@,
                        sp,
                    ));
                    assert(self.head@ =~= w.head@.update(self.ins_h as int, sp as u16));
                }
            } else {
                proof {
                    lemma_skip_hash(w.window@, w.head@, w.prev@, w.ins_h, self.strstart as int, end);
                }
            }
            self.prev_length -= 1;
            if self.prev_length == 0 {
                break;
            }
        }
        self.match_available = false;
        self.match_length = MIN_MATCH - 1;
        self.strstart += 1;
        bflush
    }

    /// Send the current block (not the last) and record it after the blocks `recs`, when the
    /// block's symbols stand for the input from `block_start` to `strstart`.
    pub fn flush_recorded(&mut self, input: &[u8], Ghost(recs): Ghost<Seq<BlockRec>>, Ghost(sd0): Ghost<StaticData>) -> (r: Ghost<Seq<BlockRec>>)
        requires
            old(self).sd == sd0,
            old(self).config_ok(),
            old(self).block_ok(),
            old(self).window_ok(input@),
            old(self).bw.bits() == blocks_bits(recs),
            blocks_ok(sd0, input@, recs),
            all_syms_ok(blocks_syms(recs)),
            0 <= old(self).base() + old(self).block_start,
            old(self).block_start <= old(self).strstart <= 65535,
            apply_syms(Seq::empty(), blocks_syms(recs)) == input@.subrange(0, old(self).base() + old(self).block_start),
            apply_syms(
                input@.subrange(0, old(self).base() + old(self).block_start),
                buf_syms(old(self).sym_buf@, (old(self).sym_next / 3) as int),
            ) == input@.subrange(0, old(self).base() + old(self).strstart),
            old(self).base() + old(self).strstart <= input.len(),
            old(self).strstart + old(self).lookahead <= WINDOW_SIZE,
            forall|i: int| 0 <= i < recs.len() ==> !(#[trigger] recs[i]).1,
        ensures
            final(self).block_ok(),
            final(self).config_ok(),
            *final(self) == (DeflateState {
                bw: final(self).bw,
                dyn_ltree: final(self).dyn_ltree,
                dyn_dtree: final(self).dyn_dtree,
                bl_tree: final(self).bl_tree,
                l_max_code: final(self).l_max_code,
                d_max_code: final(self).d_max_code,
                heap: final(self).heap,
                heap_len: final(self).heap_len,
                heap_max: final(self).heap_max,
                depth: final(self).depth,
                bl_count: final(self).bl_count,
                opt_len: final(self).opt_len,
                static_len: final(self).static_len,
                sym_next: 0,
                block_start: old(self).strstart as isize,
                ..*old(self)
            }),
            final(self).bw.bits() == blocks_bits(r@),
            blocks_ok(sd0, input@, r@),
            all_syms_ok(blocks_syms(r@)),
            apply_syms(Seq::empty(), blocks_syms(r@)) == input@.subrange(0, old(self).base() + old(self).strstart),
            forall|i: int| 0 <= i < r@.len() ==> !(#[trigger] r@[i]).1,
            blocks_syms(r@) == blocks_syms(recs) + buf_syms(old(self).sym_buf@, (old(self).sym_next / 3) as int),
            old(self).sym_next == old(self).sym_end && full_blocks(recs) ==> full_blocks(r@),
            r@.len() == recs.len() + 1,
            r@.drop_last() == recs,
            (r@.last().2 is Some) == (old(self).block_start >= 0),
    {
        let ghost p = *self;
        proof {
            lemma_block_span(p, input@, p.base() + p.block_start, p.base() + p.strstart);
        }
        self.flush_block(false);
        let ghost block = choose|block: Seq<bool>|
            #[trigger] is_block(
                p.sd,
                p.bw.bits().len() as int,
                block,
                false,
                p.block_data(),
                p.sym_buf@,
                (p.sym_next / 3) as int,
            ) && zlib_choice(p.sd, p.bw.bits().len() as int, block, false, p.block_data(), p.sym_buf@, (p.sym_next / 3) as int)
                && self.bw.bits() == p.bw.bits() + block + Seq::<bool>::empty();
        let ghost rec: BlockRec = (block, false, p.block_data(), p.sym_buf@, (p.sym_next / 3) as int);
        proof {
            lemma_flush_keeps(p, *self, input@, recs, sd0, block, false);
            assert(self.bw.bits() =~= blocks_bits(recs.push(rec)));
            assert forall|i: int| 0 <= i < recs.push(rec).len() implies !(#[trigger] recs.push(rec)[i]).1 by {
                if i < recs.len() {
                    assert(recs.push(rec)[i] == recs[i]);
                }
            }
            assert(recs.push(rec).drop_last() =~= recs);
            reveal(full_blocks);
            assert forall|i: int| 0 <= i < recs.push(rec).len() && full_blocks(recs) && p.sym_next == p.sym_end implies (
            #[trigger] recs.push(rec)[i]).4 == LIT_BUFSIZE - 1 by {
                if i < recs.len() {
                    assert(recs.push(rec)[i] == recs[i]);
                }
            }
        }
        Ghost(recs.push(rec))
    }

    /// One step of `deflate_slow`, once the lookahead is filled: insert the string at
    /// `strstart` and look for a match; then send the previous match if the new one is not
    /// longer, else send the previous byte as a literal, or wait when there is none.
    #[verifier::spinoff_prover]
    #[verifier::rlimit(100)]
    pub fn lazy_step(&mut self, input: &[u8], Ghost(recs): Ghost<Seq<BlockRec>>, Ghost(sd0): Ghost<StaticData>) -> (r: Ghost<Seq<BlockRec>>)
        requires
            old(self).lazy_ok(input@, recs, sd0),
            all_syms_ok(blocks_syms(recs)),
            old(self).strstart <= WINDOW_SIZE - MIN_LOOKAHEAD,
            old(self).lookahead >= 1,
            old(self).lookahead >= MIN_LOOKAHEAD || old(self).avail_in == 0,
        ensures
            final(self).lazy_ok(input@, r@, sd0),
            all_syms_ok(blocks_syms(r@)),
            final(self).next_in - final(self).lookahead > old(self).next_in - old(self).lookahead,
            sent_syms(*final(self), r@) == sent_syms(*old(self), recs) + lazy_syms(*old(self)),
            lazy_next_ok(*old(self), *final(self)),
            full_blocks(recs) ==> full_blocks(r@),
            r@ == recs || (r@.len() == recs.len() + 1 && r@.drop_last() == recs && lazy_syms(*old(self)).len() == 1
                && final(self).sym_next == 0 && ((r@.last().2 is Some) == (old(self).block_start >= 0))),
    {
        let ghost t = *self;
        let ghost end: int = self.strstart + self.lookahead;
        let ghost at: int = t.base() + t.strstart - 1;
        let ghost bs: int = t.base() + t.block_start;

        // Insert the string at strstart into its hash chain.
        let mut hash_head: usize = 0;
        if self.lookahead >= MIN_MATCH {
            hash_head = self.insert_string(self.strstart);
            proof {
                lemma_insert_hash(t.window@, t.head@, t.prev@, t.ins_h, t.strstart as int, end);
            }
        } else {
            proof {
                lemma_skip_hash(t.window@, t.head@, t.prev@, t.ins_h, t.strstart as int, end);
            }
        }

        // Find the longest match, discarding those no longer than prev_length.
        self.prev_length = self.match_length;
        self.prev_match = self.match_start;
        self.match_length = MIN_MATCH - 1;
        if hash_head != 0 && self.prev_length < self.max_lazy_match && self.strstart - hash_head <= self.max_dist() {
            self.match_length = self.longest_match(hash_head);
            // Drop a match of MIN_MATCH bytes from too far back.
            if self.match_length == MIN_MATCH && self.strstart.wrapping_sub(self.match_start) > TOO_FAR {
                self.match_length = MIN_MATCH - 1;
            }
        }
        let ghost u = *self;
        assert(u.match_length as int == lazy_match_len(t));
        assert(u.match_start as int == lazy_match_start(t));
        assert((u.head@, u.prev@, u.ins_h) == lazy_hash(t)) by {
            if t.lookahead >= MIN_MATCH {
                assert(u.head@ =~= t.head@.update(u.ins_h as int, t.strstart as u16));
            }
        }
        assert(u.sym_buf == t.sym_buf && u.sym_next == t.sym_next);
        assert(u.match_length >= MIN_MATCH && (u.prev_length < MIN_MATCH || u.match_length > u.prev_length)
            ==> match_found(u.window@, t.strstart as int, u.match_start as int, u.match_length as int)
            && u.match_length <= t.lookahead);

        if self.prev_length >= MIN_MATCH && self.match_length <= self.prev_length {
            // Send the match found at the previous position.
            let ghost k: int = (self.sym_next / 3) as int;
            let bflush: bool = self.send_prev_match();
            proof {
                let dist = t.pending_dist();
                lemma_tally_syms(u.sym_buf@, self.sym_buf@, k, (dist, u.prev_length - MIN_MATCH));
                lemma_copy_back(input@, at, dist, u.prev_length as nat);
                assert(buf_syms(self.sym_buf@, k + 1).drop_last() =~= buf_syms(u.sym_buf@, k));
            }
            proof {
                assert(lazy_syms(t) == seq![(t.pending_dist(), t.match_length - MIN_MATCH)]);
                assert(sent_syms(*self, recs) =~= sent_syms(t, recs) + lazy_syms(t));
            }
            if bflush {
                let ghost v = *self;
                let r = self.flush_recorded(input, Ghost(recs), Ghost(sd0));
                proof {
                    assert(buf_syms(self.sym_buf@, 0) =~= Seq::<(int, int)>::empty());
                    assert(sent_syms(*self, r@) =~= sent_syms(v, recs));
                }
                return r;
            }
            Ghost(recs)
        } else if self.match_available {
            // Send the byte at the previous position as a literal.
            let c: u8 = self.window[self.strstart - 1];
            let ghost k: int = (self.sym_next / 3) as int;
            let bflush: bool = self.tr_tally(0, c as usize);
            proof {
                lemma_tally_syms(u.sym_buf@, self.sym_buf@, k, (0, c as int));
                assert(buf_syms(self.sym_buf@, k + 1).drop_last() =~= buf_syms(u.sym_buf@, k));
                assert(input@.subrange(0, at).push(c) =~= input@.subrange(0, at + 1));
            }
            proof {
                assert(lazy_syms(t) == seq![(0int, c as int)]);
                assert(sent_syms(*self, recs) =~= sent_syms(t, recs) + lazy_syms(t));
            }
            let mut r: Ghost<Seq<BlockRec>> = Ghost(recs);
            if bflush {
                let ghost v = *self;
                r = self.flush_recorded(input, Ghost(recs), Ghost(sd0));
                proof {
                    assert(buf_syms(self.sym_buf@, 0) =~= Seq::<(int, int)>::empty());
                    assert(sent_syms(*self, r@) =~= sent_syms(v, recs));
                }
            }
            self.strstart += 1;
            self.lookahead -= 1;
            proof {
                lemma_pending_found(*self, input@);
            }
            r
        } else {
            // There is no previous match to compare with: wait for the next step.
            proof {
                assert(lazy_syms(t) == Seq::<(int, int)>::empty());
                assert(sent_syms(u, recs) + lazy_syms(t) =~= sent_syms(u, recs));
            }
            self.match_available = true;
            self.strstart += 1;
            self.lookahead -= 1;
            proof {
                lemma_pending_found(*self, input@);
            }
            Ghost(recs)
        }
    }

    /// `deflate_slow` with `flush == Z_FINISH`: lazy matching over the whole input. Each
    /// step keeps `MIN_LOOKAHEAD` bytes ahead while there is input, then inserts the string at
    /// `strstart`, looks for a match, and sends the previous match unless the new one is
    /// longer, in which case the previous byte goes out as a literal. Blocks are sent when
    /// the symbol buffer is full, and the last one at the end.
    ///
    /// The output is a raw DEFLATE stream of the input: blocks that encode symbols which,
    /// decoded in order, give back the input.
    #[verifier::spinoff_prover]
    #[verifier::rlimit(100)]
    pub fn deflate_slow(&mut self, input: &[u8])
        requires
            old(self).is_fresh(input@),
        ensures
            final(self).bw.wf(),
            final(self).bw.bi_valid == 0,
            final(self).bw.bi_buf == 0,
            exists|recs: Seq<BlockRec>| #[trigger] lazy_stream(*old(self), input@, final(self).bw.out@, recs),
    {
        let ghost sd0 = self.sd;
        let ghost mut recs: Seq<BlockRec> = Seq::empty();
        let ghost start = *self;
        let ghost mut trace: Seq<(DeflateState, DeflateState)> = Seq::empty();
        let ghost mut last: DeflateState = *self;
        let ghost mut at: Seq<int> = Seq::empty();
        proof {
            lemma_start_ok(*self, input@);
            assert(sent_syms(*self, recs) =~= Seq::<(int, int)>::empty());
            reveal(full_blocks);
        }
        loop
            invariant_except_break
                slow_run(trace, input@, start, *self),
            invariant
                self.lazy_ok(input@, recs, sd0),
                all_syms_ok(blocks_syms(recs)),
                start == *old(self),
                sent_syms(*self, recs) == run_syms(trace),
                full_blocks(recs),
                flush_rounds(trace, recs, at),
                at.len() == recs.len(),
            ensures
                self.lazy_ok(input@, recs, sd0),
                all_syms_ok(blocks_syms(recs)),
                self.lookahead == 0,
                self.avail_in == 0,
                self.strstart < W_SIZE + (W_SIZE - MIN_LOOKAHEAD),
                slow_run(trace, input@, start, last),
                last.lookahead < MIN_LOOKAHEAD,
                fill_effect(last, *self, input@),
                sent_syms(*self, recs) == run_syms(trace),
                full_blocks(recs),
                flush_rounds(trace, recs, at),
                at.len() == recs.len(),
            decreases input.len() - (self.next_in - self.lookahead),
        {
            let ghost a = *self;
            // Make sure that MIN_LOOKAHEAD bytes are ahead, except at the end of the input.
            if self.lookahead < MIN_LOOKAHEAD {
                let ghost s0 = *self;
                proof {
                    lemma_lazy_span(s0, input@, recs, sd0);
                }
                self.fill_window(input);
                proof {
                    lemma_fill_keeps(s0, *self, input@, recs, sd0);
                    assert(sent_syms(*self, recs) == sent_syms(s0, recs));
                }
                if self.lookahead == 0 {
                    proof {
                        last = a;
                    }
                    break;
                }
            }
            let ghost f = *self;
            proof {
                lemma_apply_len(Seq::empty(), blocks_syms(recs));
            }
            let r = self.lazy_step(input, Ghost(recs), Ghost(sd0));
            proof {
                assert(slow_round(a, f, *self, input@));
                lemma_run_push(trace, input@, start, a, f, *self);
                if r@ != recs {
                    lemma_full_len(r@);
                    assert(buf_syms(self.sym_buf@, (self.sym_next / 3) as int) =~= Seq::<(int, int)>::empty());
                    assert(sent_syms(*self, r@) =~= blocks_syms(r@));
                }
                at = lemma_flush_rounds_step(trace, recs, at, a, f, r@);
                trace = trace.push((a, f));
                recs = r@;
            }
        }

        let ghost e = *self;
        proof {
            lemma_apply_len(Seq::empty(), blocks_syms(recs));
        }
        let r = self.send_last_block(input, Ghost(recs), Ghost(sd0));
        proof {
            lemma_flush_rounds_extend(trace, recs, at, r@);
            assert(flush_rounds(trace, r@, at) && at.len() == r@.len() - 1);
            assert(blocks_syms(r@) == run_syms(trace) + last_syms(e));
            reveal(full_blocks);
            assert forall|i: int| 0 <= i < r@.len() - 1 implies (#[trigger] r@[i]).4 == LIT_BUFSIZE - 1 by {
                assert(r@[i] == r@.drop_last()[i]);
            }
            assert(lazy_stream(*old(self), input@, self.bw.out@, r@));
        }
    }

    /// The end of `deflate_slow`: the pending literal, if a byte is still waiting, goes into
    /// the buffer, and the last block is sent with everything left in it.
    #[verifier::spinoff_prover]
    #[verifier::rlimit(40)]
    fn send_last_block(&mut self, input: &[u8], Ghost(recs): Ghost<Seq<BlockRec>>, Ghost(sd0): Ghost<StaticData>) -> (r: Ghost<Seq<BlockRec>>)
        requires
            old(self).lazy_ok(input@, recs, sd0),
            all_syms_ok(blocks_syms(recs)),
            old(self).lookahead == 0,
            old(self).avail_in == 0,
            old(self).strstart < W_SIZE + (W_SIZE - MIN_LOOKAHEAD),
        ensures
            final(self).bw.wf(),
            final(self).bw.bi_valid == 0,
            final(self).bw.bi_buf == 0,
            deflate_stream(sd0, input@, final(self).bw.out@, r@),
            r@.drop_last() == recs,
            r@.len() >= 1,
            (r@.last().2 is Some) == (old(self).block_start >= 0),
            r@.last().4 == old(self).sym_next / 3 + if old(self).match_available { 1int } else { 0 },
            blocks_syms(r@) == sent_syms(*old(self), recs) + if old(self).match_available {
                seq![(0int, old(self).window[old(self).strstart - 1] as int)]
            } else {
                Seq::empty()
            },
    {
        if self.match_available {
            let c: u8 = self.window[self.strstart - 1];
            let ghost k: int = (self.sym_next / 3) as int;
            let ghost b0 = self.sym_buf@;
            self.tr_tally(0, c as usize);
            proof {
                lemma_tally_syms(b0, self.sym_buf@, k, (0, c as int));
                assert(buf_syms(self.sym_buf@, k + 1).drop_last() =~= buf_syms(b0, k));
                let at: int = self.base() + self.strstart - 1;
                assert(input@.subrange(0, at).push(c) =~= input@.subrange(0, at + 1));
            }
            self.match_available = false;
        }
        self.insert = if self.strstart < MIN_MATCH - 1 {
            self.strstart
        } else {
            MIN_MATCH - 1
        };
        let ghost p = *self;
        proof {
            lemma_block_span(p, input@, p.base() + p.block_start, p.base() + p.strstart);
        }
        self.flush_block(true);
        let ghost mut r = recs;
        proof {
            let block = choose|block: Seq<bool>|
                #[trigger] is_block(
                    p.sd,
                    p.bw.bits().len() as int,
                    block,
                    true,
                    p.block_data(),
                    p.sym_buf@,
                    (p.sym_next / 3) as int,
                ) && zlib_choice(p.sd, p.bw.bits().len() as int, block, true, p.block_data(), p.sym_buf@, (p.sym_next / 3) as int)
                    && self.bw.bits() == p.bw.bits() + block + zero_bits(
                    pad_len((p.bw.bits().len() + block.len()) as int),
                );
            lemma_flush_keeps(p, *self, input@, recs, sd0, block, true);
            let rec: BlockRec = (block, true, p.block_data(), p.sym_buf@, (p.sym_next / 3) as int);
            let recs2 = recs.push(rec);
            assert(low_bits(self.bw.bi_buf as u32, 0) =~= Seq::<bool>::empty());
            assert(bytes_bits(self.bw.out@) =~= blocks_bits(recs2) + zero_bits(pad_len(blocks_bits(recs2).len() as int)));
            assert(input@.subrange(0, input.len() as int) =~= input@);
            assert forall|i: int| 0 <= i < recs2.len() implies (#[trigger] recs2[i]).1 == (i == recs2.len() - 1) by {
                if i < recs.len() {
                    assert(recs2[i] == recs[i]);
                }
            }
            assert(deflate_stream(sd0, input@, self.bw.out@, recs2));
            assert(recs2.drop_last() =~= recs);
            assert(blocks_syms(recs2) =~= sent_syms(p, recs));
            r = recs2;
        }
        Ghost(r)
    }
}

/// A match found at `strstart - 1` in a window that holds the input is a pending match.
proof fn lemma_pending_found(st: DeflateState, input: Seq<u8>)
    requires
        st.window_ok(input),
        st.strstart >= 1,
        st.match_available,
        st.match_length >= MIN_MATCH ==> match_found(
            st.window@,
            st.strstart - 1,
            st.match_start as int,
            st.match_length as int,
        ) && st.match_length <= st.lookahead + 1,
    ensures
        st.pending_ok(input),
{
    if st.match_length >= MIN_MATCH {
        let s = st.strstart - 1;
        let ms = st.match_start as int;
        let at = st.base() + s;
        assert(st.pending_dist() == s - ms);
        assert forall|i: int| 0 <= i < st.match_length implies #[trigger] input[at + i] == input[at - (s - ms) + i] by {
            assert(st.window[s + i] == input[st.base() + (s + i)]);
            assert(st.window[ms + i] == input[st.base() + (ms + i)]);
            assert(st.window@[ms + i] == st.window@[s + i]);
        }
    }
}

/// The state `deflate_slow` starts from is a state between two steps, with no block sent.
proof fn lemma_start_ok(st: DeflateState, input: Seq<u8>)
    requires
        st.config_ok(),
        st.block_ok(),
        st.next_in == 0,
        st.avail_in == input.len(),
        st.strstart == 0,
        st.lookahead == 0,
        st.block_start == 0,
        st.match_length == MIN_MATCH - 1,
        !st.match_available,
        st.insert == 0,
        st.high_water <= WINDOW_SIZE,
        st.sym_next == 0,
        st.bw.bits() == Seq::<bool>::empty(),
        forall|h: int| 0 <= h < HASH_SIZE ==> #[trigger] st.head[h] == 0,
    ensures
        st.lazy_ok(input, Seq::empty(), st.sd),
        all_syms_ok(blocks_syms(Seq::<BlockRec>::empty())),
{
    let recs = Seq::<BlockRec>::empty();
    assert(buf_syms(st.sym_buf@, 0) =~= Seq::<(int, int)>::empty());
    assert(input.subrange(0, 0) =~= Seq::<u8>::empty());
    assert(blocks_syms(recs) =~= Seq::<(int, int)>::empty());
    assert(blocks_bits(recs) =~= Seq::<bool>::empty());
    assert(blocks_ok(st.sd, input, recs));
    assert(st.window_ok(input));
    assert(hash_chains_ok(st.window@, st.head@, st.prev@, st.ins_h, 0, 0));
    assert(st.pending_ok(input));
    assert(st.coverage_ok(input, blocks_syms(recs)));
    assert(st.bw.bits() == blocks_bits(recs));
}

/// `out` is a raw DEFLATE stream of `input` (RFC 1951), with the fixed tables `sd`.
pub open spec fn is_raw_deflate(input: Seq<u8>, out: Seq<u8>) -> bool {
    exists|sd: StaticData, recs: Seq<BlockRec>| sd.wf() && #[trigger] deflate_stream(sd, input, out, recs)
}

/// `out` is a raw DEFLATE stream of `input` whose LZ77 symbols are those that lazy matching
/// sends, round by round, from a fresh state, cut into blocks of a full buffer each but the
/// last.
pub open spec fn is_lazy_deflate(input: Seq<u8>, out: Seq<u8>) -> bool {
    exists|s0: DeflateState, recs: Seq<BlockRec>|
        s0.is_fresh(input) && s0.sd.wf() && #[trigger] lazy_stream(s0, input, out, recs)
}

/// Compress `input` with the fixed level-9 raw configuration: `deflateInit2` and one
/// `deflate(Z_FINISH)`.
pub fn deflate_raw_level9(input: &[u8]) -> (out: Vec<u8>)
    ensures
        is_raw_deflate(input@, out@),
        is_lazy_deflate(input@, out@),
{
    let mut s = DeflateState::new(input);
    s.tr_init();
    proof {
        assert(s.bw.bits() =~= Seq::<bool>::empty()) by {
            assert(low_bits(0u32, 0) =~= Seq::<bool>::empty());
            assert(bytes_bits(Seq::<u8>::empty()) =~= Seq::<bool>::empty());
        }
        assert((0u16 as u32) >> (0i32 as u32) == 0) by (bit_vector);
        assert(s.bw.wf());
        assert(s.block_ok());
    }
    let ghost sd = s.sd;
    let ghost s0 = s;
    s.deflate_slow(input);
    let mut out: Vec<u8> = Vec::new();
    std::mem::swap(&mut out, &mut s.bw.out);
    proof {
        let recs = choose|recs: Seq<BlockRec>| #[trigger] lazy_stream(s0, input@, out@, recs);
        assert(sd.wf() && deflate_stream(sd, input@, out@, recs));
        assert(s0.is_fresh(input@) && s0.sd.wf() && lazy_stream(s0, input@, out@, recs));
    }
    out
}

} // verus!
