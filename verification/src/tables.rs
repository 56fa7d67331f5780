//! The fixed data of DEFLATE (RFC 1951, section 3.2.5 and 3.2.6): extra-bit counts, the
//! order in which code-length code lengths are sent, bit reversal, canonical code
//! assignment, and the length / distance code maps that zlib builds in `tr_static_init`.
use vstd::prelude::*;
use vstd::arithmetic::power2::{pow2, lemma2_to64};
use vstd::bits::{lemma_u32_shr_is_div, lemma_u32_shl_is_mul};
use crate::bitwriter::low_bits;

verus! {

pub const LENGTH_CODES: usize = 29;
pub const LITERALS: usize = 256;
pub const L_CODES: usize = 286;
pub const D_CODES: usize = 30;
pub const BL_CODES: usize = 19;
pub const HEAP_SIZE: usize = 573;
pub const MAX_BITS: usize = 15;
pub const MAX_BL_BITS: usize = 7;
pub const MIN_MATCH: usize = 3;
pub const MAX_MATCH: usize = 258;
pub const END_BLOCK: usize = 256;
pub const REP_3_6: usize = 16;
pub const REPZ_3_10: usize = 17;
pub const REPZ_11_138: usize = 18;
pub const DIST_CODE_LEN: usize = 512;

/// One element of a Huffman tree. `fc` is the frequency while the tree is built and the
/// code (bit-reversed) afterwards; `dl` is the parent while the tree is built and the code
/// length afterwards.
#[derive(Clone, Copy)]
pub struct CtData {
    pub fc: u16,
    pub dl: u16,
}

/// Number of extra bits of length code `c` (codes 257..285 as 0..28).
pub open spec fn spec_extra_lbits(c: int) -> int {
    if c < 8 || c == 28 { 0 } else { (c - 4) / 4 }
}

/// Number of extra bits of distance code `c`.
pub open spec fn spec_extra_dbits(c: int) -> int {
    if c < 4 { 0 } else { (c - 2) / 2 }
}

/// Number of extra bits of code-length code `c`.
pub open spec fn spec_extra_blbits(c: int) -> int {
    if c == 16 { 2 } else if c == 17 { 3 } else if c == 18 { 7 } else { 0 }
}

/// The order in which the code-length code lengths are sent.
pub open spec fn spec_bl_order(r: int) -> int {
    seq![16int, 17, 18, 0, 8, 7, 9, 6, 10, 5, 11, 4, 12, 3, 13, 2, 14, 1, 15][r]
}

/// Position of code-length code `c` in the order of `spec_bl_order`.
pub open spec fn spec_bl_pos(c: int) -> int {
    if c == 16 { 0 } else if c == 17 { 1 } else if c == 18 { 2 } else if c == 0 { 3 } else if c == 8 { 4 } else if c == 7 { 5 } else if c == 9 { 6 } else if c == 6 { 7 } else if c == 10 { 8 } else if c == 5 { 9 } else if c == 11 { 10 } else if c == 4 { 11 } else if c == 12 { 12 } else if c == 3 { 13 } else if c == 13 { 14 } else if c == 2 { 15 } else if c == 14 { 16 } else if c == 1 { 17 } else { 18 }
}

/// The order is a permutation: every code has its position, and the nonzero lengths
/// 1..15 come after the first four.
pub proof fn lemma_bl_pos(c: int)
    requires
        0 <= c < 19,
    ensures
        0 <= spec_bl_pos(c) < 19,
        spec_bl_order(spec_bl_pos(c)) == c,
        1 <= c <= 15 ==> spec_bl_pos(c) >= 4,
{
    if c == 0 {} else if c == 1 {} else if c == 2 {} else if c == 3 {} else if c == 4 {} else if c == 5 {} else if c == 6 {} else if c == 7 {} else if c == 8 {} else if c == 9 {} else if c == 10 {} else if c == 11 {} else if c == 12 {} else if c == 13 {} else if c == 14 {} else if c == 15 {} else if c == 16 {} else if c == 17 {} else {}
}

/// Smallest match length minus 3 of length code `c` (RFC 1951, 3.2.5), for `c < 28`.
pub open spec fn spec_base_length(c: int) -> int {
    if c == 0 { 0 } else if c == 1 { 1 } else if c == 2 { 2 } else if c == 3 { 3 } else if c == 4 { 4 } else if c == 5 { 5 } else if c == 6 { 6 } else if c == 7 { 7 } else if c == 8 { 8 } else if c == 9 { 10 } else if c == 10 { 12 } else if c == 11 { 14 } else if c == 12 { 16 } else if c == 13 { 20 } else if c == 14 { 24 } else if c == 15 { 28 } else if c == 16 { 32 } else if c == 17 { 40 } else if c == 18 { 48 } else if c == 19 { 56 } else if c == 20 { 64 } else if c == 21 { 80 } else if c == 22 { 96 } else if c == 23 { 112 } else if c == 24 { 128 } else if c == 25 { 160 } else if c == 26 { 192 } else if c == 27 { 224 } else { 0 }
}

/// Smallest distance minus 1 of distance code `c` (RFC 1951, 3.2.5).
pub open spec fn spec_base_dist(c: int) -> int {
    if c == 0 { 0 } else if c == 1 { 1 } else if c == 2 { 2 } else if c == 3 { 3 } else if c == 4 { 4 } else if c == 5 { 6 } else if c == 6 { 8 } else if c == 7 { 12 } else if c == 8 { 16 } else if c == 9 { 24 } else if c == 10 { 32 } else if c == 11 { 48 } else if c == 12 { 64 } else if c == 13 { 96 } else if c == 14 { 128 } else if c == 15 { 192 } else if c == 16 { 256 } else if c == 17 { 384 } else if c == 18 { 512 } else if c == 19 { 768 } else if c == 20 { 1024 } else if c == 21 { 1536 } else if c == 22 { 2048 } else if c == 23 { 3072 } else if c == 24 { 4096 } else if c == 25 { 6144 } else if c == 26 { 8192 } else if c == 27 { 12288 } else if c == 28 { 16384 } else if c == 29 { 24576 } else { 0 }
}

pub fn extra_lbits(c: usize) -> (r: i32)
    requires
        c < LENGTH_CODES,
    ensures
        r == spec_extra_lbits(c as int),
        0 <= r <= 5,
{
    if c < 8 || c == 28 { 0 } else { ((c - 4) / 4) as i32 }
}

pub fn extra_dbits(c: usize) -> (r: i32)
    requires
        c < D_CODES,
    ensures
        r == spec_extra_dbits(c as int),
        0 <= r <= 13,
{
    if c < 4 { 0 } else { ((c - 2) / 2) as i32 }
}

pub fn extra_blbits(c: usize) -> (r: i32)
    requires
        c < BL_CODES,
    ensures
        r == spec_extra_blbits(c as int),
{
    if c == 16 { 2 } else if c == 17 { 3 } else if c == 18 { 7 } else { 0 }
}

pub fn bl_order(r: usize) -> (o: usize)
    requires
        r < BL_CODES,
    ensures
        o == spec_bl_order(r as int),
        o < BL_CODES,
{
    let o: usize = match r {
        0 => 16,
        1 => 17,
        2 => 18,
        3 => 0,
        4 => 8,
        5 => 7,
        6 => 9,
        7 => 6,
        8 => 10,
        9 => 5,
        10 => 11,
        11 => 4,
        12 => 12,
        13 => 3,
        14 => 13,
        15 => 2,
        16 => 14,
        17 => 1,
        _ => 15,
    };
    o
}

/// Reversal undoes itself: when `r` is `bi_reverse(code, len)` and `r2` is
/// `bi_reverse(r, len)`, as `bi_reverse`'s contract states them, `r2` is the low `len` bits
/// of `code`.
pub proof fn lemma_bi_reverse_twice(code: u32, r: u32, r2: u32, len: u32)
    requires
        1 <= len <= 15,
        r >> len == 0,
        low_bits(r, len as nat) == low_bits(code, len as nat).reverse(),
        r2 >> len == 0,
        low_bits(r2, len as nat) == low_bits(r, len as nat).reverse(),
    ensures
        r2 == code & (((1u32 << len) - 1) as u32),
{
    assert forall|i: int| 0 <= i < len implies #[trigger] low_bits(r2, len as nat)[i] == low_bits(code, len as nat)[i] by {
        assert(low_bits(r2, len as nat)[i] == low_bits(r, len as nat)[len - 1 - i]);
        assert(low_bits(r, len as nat)[len - 1 - i] == low_bits(code, len as nat)[len - 1 - (len - 1 - i)]);
    }
    assert(0 < len ==> low_bits(r2, len as nat)[0] == low_bits(code, len as nat)[0]);
    assert(1 < len ==> low_bits(r2, len as nat)[1] == low_bits(code, len as nat)[1]);
    assert(2 < len ==> low_bits(r2, len as nat)[2] == low_bits(code, len as nat)[2]);
    assert(3 < len ==> low_bits(r2, len as nat)[3] == low_bits(code, len as nat)[3]);
    assert(4 < len ==> low_bits(r2, len as nat)[4] == low_bits(code, len as nat)[4]);
    assert(5 < len ==> low_bits(r2, len as nat)[5] == low_bits(code, len as nat)[5]);
    assert(6 < len ==> low_bits(r2, len as nat)[6] == low_bits(code, len as nat)[6]);
    assert(7 < len ==> low_bits(r2, len as nat)[7] == low_bits(code, len as nat)[7]);
    assert(8 < len ==> low_bits(r2, len as nat)[8] == low_bits(code, len as nat)[8]);
    assert(9 < len ==> low_bits(r2, len as nat)[9] == low_bits(code, len as nat)[9]);
    assert(10 < len ==> low_bits(r2, len as nat)[10] == low_bits(code, len as nat)[10]);
    assert(11 < len ==> low_bits(r2, len as nat)[11] == low_bits(code, len as nat)[11]);
    assert(12 < len ==> low_bits(r2, len as nat)[12] == low_bits(code, len as nat)[12]);
    assert(13 < len ==> low_bits(r2, len as nat)[13] == low_bits(code, len as nat)[13]);
    assert(14 < len ==> low_bits(r2, len as nat)[14] == low_bits(code, len as nat)[14]);
    assert(r2 == code & (((1u32 << len) - 1) as u32)) by (bit_vector)
        requires
            1u32 <= len <= 15u32,
            r2 >> len == 0,
            0u32 < len ==> ((r2 >> 0u32) & 1u32 == 1u32) == ((code >> 0u32) & 1u32 == 1u32),
            1u32 < len ==> ((r2 >> 1u32) & 1u32 == 1u32) == ((code >> 1u32) & 1u32 == 1u32),
            2u32 < len ==> ((r2 >> 2u32) & 1u32 == 1u32) == ((code >> 2u32) & 1u32 == 1u32),
            3u32 < len ==> ((r2 >> 3u32) & 1u32 == 1u32) == ((code >> 3u32) & 1u32 == 1u32),
            4u32 < len ==> ((r2 >> 4u32) & 1u32 == 1u32) == ((code >> 4u32) & 1u32 == 1u32),
            5u32 < len ==> ((r2 >> 5u32) & 1u32 == 1u32) == ((code >> 5u32) & 1u32 == 1u32),
            6u32 < len ==> ((r2 >> 6u32) & 1u32 == 1u32) == ((code >> 6u32) & 1u32 == 1u32),
            7u32 < len ==> ((r2 >> 7u32) & 1u32 == 1u32) == ((code >> 7u32) & 1u32 == 1u32),
            8u32 < len ==> ((r2 >> 8u32) & 1u32 == 1u32) == ((code >> 8u32) & 1u32 == 1u32),
            9u32 < len ==> ((r2 >> 9u32) & 1u32 == 1u32) == ((code >> 9u32) & 1u32 == 1u32),
            10u32 < len ==> ((r2 >> 10u32) & 1u32 == 1u32) == ((code >> 10u32) & 1u32 == 1u32),
            11u32 < len ==> ((r2 >> 11u32) & 1u32 == 1u32) == ((code >> 11u32) & 1u32 == 1u32),
            12u32 < len ==> ((r2 >> 12u32) & 1u32 == 1u32) == ((code >> 12u32) & 1u32 == 1u32),
            13u32 < len ==> ((r2 >> 13u32) & 1u32 == 1u32) == ((code >> 13u32) & 1u32 == 1u32),
            14u32 < len ==> ((r2 >> 14u32) & 1u32 == 1u32) == ((code >> 14u32) & 1u32 == 1u32),
    ;
}

/// `bi_reverse(code, len)`: the `len` low bits of `code` in reverse order.
pub fn bi_reverse(code: u32, len: i32) -> (res: u32)
    requires
        1 <= len <= 15,
    ensures
        res >> (len as u32) == 0,
        low_bits(res, len as nat) == low_bits(code, len as nat).reverse(),
{
    let ghost code0 = code;
    let ghost len0 = len as u32;
    let mut code: u32 = code;
    let mut len: i32 = len;
    let mut res: u32 = 0;
    let ghost mut k: u32 = 0;
    assert(code == code0 >> 0u32 && res >> 1u32 == 0 && res & 1 == 0) by (bit_vector)
        requires
            code == code0,
            res == 0,
    ;
    loop
        invariant_except_break
            1 <= len,
        invariant
            0 <= len <= 15,
            len0 <= 15,
            k + len == len0,
            code == code0 >> k,
            res >> (k + 1) == 0,
            res & 1 == 0,
            forall|j: u32| j < k ==> #[trigger] ((res >> (j + 1)) & 1) == (code0 >> ((k - 1 - j) as u32)) & 1,
        ensures
            len == 0,
        decreases len,
    {
        let ghost r0 = res;
        let ghost c0 = code;
        res |= code & 1;
        code >>= 1;
        res <<= 1;
        len -= 1;
        proof {
            let kk = k;
            assert(res >> (kk + 2) == 0 && res & 1 == 0) by (bit_vector)
                requires
                    res == (r0 | (c0 & 1)) << 1,
                    r0 >> (kk + 1) == 0,
                    r0 & 1 == 0,
                    kk < 15,
            ;
            assert forall|j: u32| j < kk + 1 implies #[trigger] ((res >> (j + 1)) & 1) == (code0 >> ((kk - j) as u32)) & 1 by {
                if j == 0 {
                    assert(((res >> (j + 1)) & 1) == (code0 >> ((kk - j) as u32)) & 1) by (bit_vector)
                        requires
                            res == (r0 | (c0 & 1)) << 1,
                            c0 == code0 >> kk,
                            r0 & 1 == 0,
                            j == 0,
                            kk < 15,
                    ;
                } else {
                    let jm = (j - 1) as u32;
                    assert(((r0 >> (jm + 1)) & 1) == (code0 >> ((kk - 1 - jm) as u32)) & 1);
                    assert(((res >> (j + 1)) & 1) == (code0 >> ((kk - j) as u32)) & 1) by (bit_vector)
                        requires
                            res == (r0 | (c0 & 1)) << 1,
                            ((r0 >> (jm + 1)) & 1) == (code0 >> ((kk - 1 - jm) as u32)) & 1,
                            jm == j - 1,
                            1 <= j <= kk,
                            kk < 15,
                    ;
                }
            }
            assert(code == code0 >> (kk + 1)) by (bit_vector)
                requires
                    code == c0 >> 1,
                    c0 == code0 >> kk,
                    kk < 15,
            ;
            k = (kk + 1) as u32;
        }
        if len <= 0 {
            break;
        }
    }
    let out: u32 = res >> 1;
    proof {
        assert(out >> len0 == 0) by (bit_vector)
            requires
                out == res >> 1,
                res >> (len0 + 1) == 0,
                len0 <= 15,
        ;
        let a = low_bits(out, len0 as nat);
        let b = low_bits(code0, len0 as nat).reverse();
        assert forall|i: int| 0 <= i < len0 implies #[trigger] a[i] == b[i] by {
            let iu = i as u32;
            let jj = (len0 - 1 - iu) as u32;
            assert(((res >> (iu + 1)) & 1) == (code0 >> ((len0 - 1 - iu) as u32)) & 1);
            assert(((out >> iu) & 1 == 1) == ((code0 >> jj) & 1 == 1)) by (bit_vector)
                requires
                    out == res >> 1,
                    ((res >> (iu + 1)) & 1) == (code0 >> jj) & 1,
                    iu < 15,
            ;
        }
        assert(a =~= b);
    }
    out
}

/// The first code of length `bits` in a canonical Huffman code with `bl_count[b]` codes of
/// each length `b` (RFC 1951, 3.2.2, step 2), before truncation to 16 bits.
pub open spec fn spec_next_code(bl_count: Seq<u16>, bits: int) -> int
    decreases bits,
{
    if bits <= 0 { 0 } else { (spec_next_code(bl_count, bits - 1) + bl_count[bits - 1]) * 2 }
}

/// How many of the first `n` elements of `tree` have code length `len`.
pub open spec fn count_len(tree: Seq<CtData>, n: int, len: int) -> int
    decreases n,
{
    if n <= 0 { 0 } else { count_len(tree, n - 1, len) + if tree[n - 1].dl == len { 1int } else { 0 } }
}

/// The canonical code of element `n` (RFC 1951, 3.2.2, step 3), as the 16-bit value zlib
/// keeps: the first code of its length plus the number of earlier elements of that length.
pub open spec fn spec_canonical_code(tree: Seq<CtData>, bl_count: Seq<u16>, n: int) -> u32 {
    let len = tree[n].dl as int;
    (((spec_next_code(bl_count, len) % 65536) + count_len(tree, n, len)) % 65536) as u32
}

/// A tree element's code can be sent: its length is at most 15 bits and the code fits.
pub open spec fn code_fits(c: CtData) -> bool {
    &&& c.dl <= 15
    &&& (c.fc as u32) >> (c.dl as u32) == 0
}

proof fn lemma_next_code_bound(bl_count: Seq<u16>, bits: int)
    requires
        0 <= bits <= 16,
        bl_count.len() == 16,
    ensures
        0 <= spec_next_code(bl_count, bits) <= 65535 * (pow2((bits + 1) as nat) - 2),
    decreases bits,
{
    vstd::arithmetic::power2::lemma_pow2_pos(bits as nat);
    vstd::arithmetic::power2::lemma_pow2_unfold((bits + 1) as nat);
    if bits > 0 {
        lemma_next_code_bound(bl_count, bits - 1);
        vstd::arithmetic::power2::lemma_pow2_unfold(bits as nat);
    } else {
        lemma2_to64();
    }
}

/// `gen_codes(tree, max_code, bl_count)`: give every element `0..=max_code` with a nonzero
/// length its canonical code, bit-reversed so that it can be sent least significant bit
/// first. Lengths, and the elements of length zero, are left as they are.
pub fn gen_codes(tree: &mut Vec<CtData>, max_code: i32, bl_count: &Vec<u16>)
    requires
        -1 <= max_code < 1000,
        max_code < old(tree).len(),
        bl_count.len() == MAX_BITS + 1,
        forall|n: int| 0 <= n <= max_code ==> #[trigger] old(tree)[n].dl <= 15,
    ensures
        final(tree).len() == old(tree).len(),
        forall|n: int| 0 <= n < old(tree).len() ==> #[trigger] final(tree)[n].dl == old(tree)[n].dl,
        forall|n: int|
            0 <= n < old(tree).len() && (n > max_code || old(tree)[n].dl == 0) ==> #[trigger] final(tree)[n]
                == old(tree)[n],
        forall|n: int|
            0 <= n <= max_code && old(tree)[n].dl != 0 ==> {
                &&& code_fits(#[trigger] final(tree)[n])
                &&& low_bits(final(tree)[n].fc as u32, final(tree)[n].dl as nat) == low_bits(
                    spec_canonical_code(old(tree)@, bl_count@, n),
                    final(tree)[n].dl as nat,
                ).reverse()
            },
{
    let mut next_code: Vec<u16> = vec![0u16; MAX_BITS + 1];
    let mut code: u32 = 0;
    let mut bits: usize = 1;
    while bits <= MAX_BITS
        invariant
            1 <= bits <= 16,
            next_code.len() == 16,
            bl_count.len() == 16,
            code == spec_next_code(bl_count@, bits - 1),
            forall|b: int| 1 <= b < bits ==> #[trigger] next_code[b] == spec_next_code(bl_count@, b) % 65536,
        decreases 16 - bits,
    {
        proof {
            lemma2_to64();
            lemma_next_code_bound(bl_count@, bits - 1);
            lemma_next_code_bound(bl_count@, bits as int);
            assert(pow2(bits as nat) <= 32768) by {
                if bits < 15 {
                    vstd::arithmetic::power2::lemma_pow2_strictly_increases(bits as nat, 15);
                }
            }
        }
        let ghost c0: u32 = (code + bl_count[bits - 1] as u32) as u32;
        code = (code + bl_count[bits - 1] as u32) << 1;
        proof {
            assert(code == c0 * 2) by (bit_vector)
                requires
                    code == c0 << 1,
                    c0 < 0x8000_0000,
            ;
            assert(code == spec_next_code(bl_count@, bits as int));
            assert(code as u16 == code % 65536) by (bit_vector);
        }
        next_code.set(bits, code as u16);
        bits += 1;
    }
    let ghost old_tree = tree@;
    let mut n: i32 = 0;
    while n <= max_code
        invariant
            0 <= n,
            n <= max_code + 1,
            max_code < 1000,
            max_code < tree.len(),
            tree.len() == old_tree.len(),
            next_code.len() == 16,
            forall|m: int| 0 <= m <= max_code ==> #[trigger] old_tree[m].dl <= 15,
            forall|b: int|
                1 <= b < 16 ==> #[trigger] next_code[b] == ((spec_next_code(bl_count@, b) % 65536)
                    + count_len(old_tree, n as int, b)) % 65536,
            forall|m: int| 0 <= m < tree.len() ==> #[trigger] tree[m].dl == old_tree[m].dl,
            forall|m: int|
                0 <= m < tree.len() && (m >= n || old_tree[m].dl == 0) ==> #[trigger] tree[m]
                    == old_tree[m],
            forall|m: int|
                0 <= m < n && old_tree[m].dl != 0 ==> {
                    &&& code_fits(#[trigger] tree[m])
                    &&& low_bits(tree[m].fc as u32, tree[m].dl as nat) == low_bits(
                        spec_canonical_code(old_tree, bl_count@, m),
                        tree[m].dl as nat,
                    ).reverse()
                },
        decreases max_code + 1 - n,
    {
        let nu: usize = n as usize;
        let len: usize = tree[nu].dl as usize;
        if len != 0 {
            let c: u32 = bi_reverse(next_code[len] as u32, len as i32);
            let e: CtData = CtData { fc: c as u16, dl: tree[nu].dl };
            proof {
                assert((c as u16) as u32 == c) by (bit_vector)
                    requires
                        c >> (len as u32) == 0,
                        len <= 15,
                ;
                assert(next_code[len as int] as u32 == spec_canonical_code(old_tree, bl_count@, n as int));
            }
            tree.set(nu, e);
            next_code.set(len, next_code[len].wrapping_add(1));
        }
        proof {
            assert forall|b: int| 1 <= b < 16 implies #[trigger] next_code[b] == ((spec_next_code(bl_count@, b) % 65536)
                    + count_len(old_tree, n + 1, b)) % 65536 by {
                assert(count_len(old_tree, n + 1, b) == count_len(old_tree, n as int, b)
                    + if old_tree[n as int].dl == b { 1int } else { 0 });
            }
        }
        n += 1;
    }
}

/// Code length of literal/length symbol `n` in the fixed Huffman code (RFC 1951, 3.2.6).
pub open spec fn spec_static_llen(n: int) -> int {
    if n <= 143 { 8 } else if n <= 255 { 9 } else if n <= 279 { 7 } else { 8 }
}

/// The fixed literal/length code of symbol `n`, most significant bit first (RFC 1951,
/// 3.2.6): `00110000` up for 0..=143, `110010000` up for 144..=255, `0000000` up for
/// 256..=279 and `11000000` up for 280..=287.
pub open spec fn spec_fixed_lcode(n: int) -> int {
    if n <= 143 {
        48 + n
    } else if n <= 255 {
        400 + (n - 144)
    } else if n <= 279 {
        n - 256
    } else {
        192 + (n - 280)
    }
}

/// Counting the code lengths of the fixed literal/length tree.
proof fn lemma_fixed_counts(t: Seq<CtData>, n: int)
    requires
        t.len() == 288,
        0 <= n <= 288,
        forall|m: int| 0 <= m < 288 ==> #[trigger] t[m].dl == spec_static_llen(m),
    ensures
        count_len(t, n, 8) == if n <= 144 { n } else if n <= 280 { 144 } else { 144 + (n - 280) },
        count_len(t, n, 9) == if n <= 144 { 0 } else if n <= 256 { n - 144 } else { 112 },
        count_len(t, n, 7) == if n <= 256 { 0 } else if n <= 280 { n - 256 } else { 24 },
    decreases n,
{
    if n > 0 {
        lemma_fixed_counts(t, n - 1);
        assert(t[n - 1].dl == spec_static_llen(n - 1));
    }
}

/// The canonical codes of the fixed code lengths are the fixed codes of RFC 1951.
proof fn lemma_fixed_canonical(t: Seq<CtData>, bl_count: Seq<u16>, n: int)
    requires
        t.len() == 288,
        0 <= n < 288,
        forall|m: int| 0 <= m < 288 ==> #[trigger] t[m].dl == spec_static_llen(m),
        bl_count.len() == 16,
        forall|b: int|
            0 <= b < 16 ==> #[trigger] bl_count[b] == if b == 8 { 152u16 } else if b == 9 { 112u16 } else if b == 7 { 24u16 } else { 0u16 },
    ensures
        spec_canonical_code(t, bl_count, n) == spec_fixed_lcode(n) as u32,
{
    lemma_fixed_counts(t, n);
    assert(spec_next_code(bl_count, 7) == 0) by {
        reveal_with_fuel(spec_next_code, 8);
        assert(bl_count[0] == 0 && bl_count[1] == 0 && bl_count[2] == 0 && bl_count[3] == 0);
        assert(bl_count[4] == 0 && bl_count[5] == 0 && bl_count[6] == 0);
    }
    assert(spec_next_code(bl_count, 8) == 48) by {
        assert(bl_count[7] == 24);
    }
    assert(spec_next_code(bl_count, 9) == 400) by {
        assert(bl_count[8] == 152);
    }
    assert(t[n].dl == spec_static_llen(n));
}

/// The distance code of distance `d` (a distance minus one), read from zlib's `dist_code`
/// map: direct below 256, by `d / 128` above.
pub open spec fn spec_d_code(dist_code: Seq<u8>, d: int) -> int {
    if d < 256 { dist_code[d] as int } else { dist_code[256 + d / 128] as int }
}

/// Length code `c` covers `lc` (a match length minus 3).
pub open spec fn length_code_covers(c: int, lc: int) -> bool {
    &&& 0 <= c < 28
    &&& spec_base_length(c) <= lc < spec_base_length(c) + pow2(spec_extra_lbits(c) as nat)
}

/// Distance code `c` covers `d` (a distance minus one).
pub open spec fn dist_code_covers(c: int, d: int) -> bool {
    &&& 0 <= c < 30
    &&& spec_base_dist(c) <= d < spec_base_dist(c) + pow2(spec_extra_dbits(c) as nat)
}

/// The immutable tables zlib builds once in `tr_static_init`.
pub struct StaticData {
    pub static_ltree: Vec<CtData>,
    pub static_dtree: Vec<CtData>,
    pub dist_code: Vec<u8>,
    pub length_code: Vec<u8>,
    pub base_length: Vec<i32>,
    pub base_dist: Vec<i32>,
}

impl StaticData {
    /// The tables are RFC 1951's: base values, the length and distance code maps, and the
    /// fixed Huffman codes.
    pub open spec fn wf(&self) -> bool {
        self.maps_ok() && self.trees_ok()
    }

    /// The base values and the length and distance code maps are RFC 1951's.
    pub open spec fn maps_ok(&self) -> bool {
        &&& self.dist_code.len() == DIST_CODE_LEN
        &&& self.length_code.len() == 256
        &&& self.base_length.len() == 29
        &&& self.base_dist.len() == 30
        &&& forall|c: int| 0 <= c < 28 ==> #[trigger] self.base_length[c] == spec_base_length(c)
        &&& forall|c: int| 0 <= c < 30 ==> #[trigger] self.base_dist[c] == spec_base_dist(c)
        &&& forall|lc: int|
            0 <= lc < 255 ==> length_code_covers(#[trigger] self.length_code[lc] as int, lc)
        &&& self.length_code[255] == 28
        &&& forall|d: int| 0 <= d < 32768 ==> dist_code_covers(#[trigger] spec_d_code(self.dist_code@, d), d)
    }

    /// The fixed trees have RFC 1951's code lengths, and their codes fit.
    pub open spec fn trees_ok(&self) -> bool {
        &&& self.static_ltree.len() == 288
        &&& self.static_dtree.len() == 30
        &&& forall|n: int|
            0 <= n < 288 ==> (#[trigger] self.static_ltree[n]).dl == spec_static_llen(n) && code_fits(
                self.static_ltree[n],
            )
        &&& forall|n: int|
            0 <= n < 30 ==> (#[trigger] self.static_dtree[n]).dl == 5 && code_fits(self.static_dtree[n])
        &&& forall|n: int|
            0 <= n < 288 ==> low_bits((#[trigger] self.static_ltree[n]).fc as u32, self.static_ltree[n].dl as nat)
                == low_bits(spec_fixed_lcode(n) as u32, self.static_ltree[n].dl as nat).reverse()
        &&& forall|n: int|
            0 <= n < 30 ==> low_bits((#[trigger] self.static_dtree[n]).fc as u32, 5) == low_bits(n as u32, 5).reverse()
    }
}

/// `d_code(dist)`: the distance code of `dist` (a distance minus one).
pub fn d_code(sd: &StaticData, dist: usize) -> (c: usize)
    requires
        sd.maps_ok(),
        dist < 32768,
    ensures
        c == spec_d_code(sd.dist_code@, dist as int),
        dist_code_covers(c as int, dist as int),
{
    if dist < 256 {
        assert(dist_code_covers(spec_d_code(sd.dist_code@, dist as int), dist as int));
        sd.dist_code[dist] as usize
    } else {
        assert(dist >> 7 == dist / 128) by (bit_vector);
        let r: usize = sd.dist_code[256 + (dist >> 7)] as usize;
        assert(dist_code_covers(spec_d_code(sd.dist_code@, dist as int), dist as int));
        r
    }
}

/// `tr_static_init`: build the length and distance code maps and the fixed
/// literal/length and distance trees.
pub fn tr_static_init() -> (sd: StaticData)
    ensures
        sd.wf(),
{
    let mut length_code: Vec<u8> = vec![0u8; 256];
    let mut base_length: Vec<i32> = vec![0i32; 29];
    let mut dist_code: Vec<u8> = vec![0u8; DIST_CODE_LEN];
    let mut base_dist: Vec<i32> = vec![0i32; 30];

    // Map each length (0..255) to its length code (0..28).
    let mut length: usize = 0;
    let mut code: usize = 0;
    while code < LENGTH_CODES - 1
        invariant
            code <= 28,
            length_code.len() == 256,
            base_length.len() == 29,
            length == if code < 28 { spec_base_length(code as int) } else { 256 },
            forall|c: int| 0 <= c < code ==> #[trigger] base_length[c] == spec_base_length(c),
            forall|l: int|
                0 <= l < length ==> #[trigger] length_code[l] < code && length_code_covers(
                    length_code[l] as int,
                    l,
                ),
        decreases 28 - code,
    {
        proof {
            lemma_length_step(code as int);
        }
        base_length.set(code, length as i32);
        let e: i32 = extra_lbits(code);
        let cnt: u32 = 1u32 << (e as u32);
        proof {
            lemma2_to64();
            lemma_u32_shl_is_mul(1u32, e as u32);
        }
        let ghost start: int = length as int;
        let mut k: u32 = 0;
        while k < cnt
            invariant
                code < 28,
                length_code.len() == 256,
                cnt == pow2(spec_extra_lbits(code as int) as nat),
                start == spec_base_length(code as int),
                start + cnt <= 256,
                k <= cnt,
                length == start + k,
                forall|l: int|
                    0 <= l < start ==> #[trigger] length_code[l] < code && length_code_covers(
                        length_code[l] as int,
                        l,
                    ),
                forall|l: int|
                    start <= l < length ==> #[trigger] length_code[l] == code,
            decreases cnt - k,
        {
            length_code.set(length, code as u8);
            length += 1;
            k += 1;
        }
        proof {
            assert forall|l: int| 0 <= l < length implies #[trigger] length_code[l] < code + 1
                && length_code_covers(length_code[l] as int, l) by {
                if l >= start {
                    assert(length_code[l] == code);
                }
            }
        }
        code += 1;
    }
    // Length 255 (match length 258) gets the single code 28 with no extra bits.
    length_code.set(length - 1, (LENGTH_CODES - 1) as u8);

    // Map each distance (0..32K) to its distance code (0..29).
    let mut dist: usize = 0;
    let mut code: usize = 0;
    while code < 16
        invariant
            code <= 16,
            dist_code.len() == DIST_CODE_LEN,
            base_dist.len() == 30,
            dist == spec_base_dist(code as int),
            forall|c: int| 0 <= c < code ==> #[trigger] base_dist[c] == spec_base_dist(c),
            forall|d: int|
                0 <= d < dist ==> #[trigger] dist_code[d] < code && dist_code_covers(
                    dist_code[d] as int,
                    d,
                ),
        decreases 16 - code,
    {
        proof {
            lemma_dist_step(code as int);
            lemma_dist_step(16);
        }
        base_dist.set(code, dist as i32);
        let e: i32 = extra_dbits(code);
        let cnt: u32 = 1u32 << (e as u32);
        proof {
            lemma2_to64();
            lemma_u32_shl_is_mul(1u32, e as u32);
        }
        let ghost start: int = dist as int;
        let mut k: u32 = 0;
        while k < cnt
            invariant
                code < 16,
                dist_code.len() == DIST_CODE_LEN,
                cnt == pow2(spec_extra_dbits(code as int) as nat),
                start == spec_base_dist(code as int),
                start + cnt <= 256,
                k <= cnt,
                dist == start + k,
                forall|d: int|
                    0 <= d < start ==> #[trigger] dist_code[d] < code && dist_code_covers(
                        dist_code[d] as int,
                        d,
                    ),
                forall|d: int| start <= d < dist ==> #[trigger] dist_code[d] == code,
            decreases cnt - k,
        {
            dist_code.set(dist, code as u8);
            dist += 1;
            k += 1;
        }
        proof {
            assert forall|d: int| 0 <= d < dist implies #[trigger] dist_code[d] < code + 1
                && dist_code_covers(dist_code[d] as int, d) by {
                if d >= start {
                    assert(dist_code[d] == code);
                }
            }
        }
        code += 1;
    }
    // From now on, all distances are divided by 128.
    proof {
        lemma_dist_step(15);
    }
    assert(dist >> 7 == dist / 128) by (bit_vector);
    dist >>= 7;
    while code < D_CODES
        invariant
            16 <= code <= 30,
            dist_code.len() == DIST_CODE_LEN,
            base_dist.len() == 30,
            dist * 128 == if code < 30 { spec_base_dist(code as int) } else { 32768 },
            forall|c: int| 0 <= c < code ==> #[trigger] base_dist[c] == spec_base_dist(c),
            forall|d: int|
                0 <= d < 256 ==> #[trigger] dist_code[d] < 16 && dist_code_covers(
                    dist_code[d] as int,
                    d,
                ),
            forall|j: int|
                2 <= j < dist ==> {
                    let c = #[trigger] dist_code[256 + j] as int;
                    &&& 16 <= c < code
                    &&& spec_base_dist(c) <= j * 128
                    &&& (j + 1) * 128 <= spec_base_dist(c) + pow2(spec_extra_dbits(c) as nat)
                },
        decreases 30 - code,
    {
        proof {
            lemma_dist_step(code as int);
            lemma_dist_step(29);
        }
        assert(dist << 7 == dist * 128) by (bit_vector)
            requires
                dist < 256,
        ;
        base_dist.set(code, (dist << 7) as i32);
        let e: i32 = extra_dbits(code) - 7;
        let cnt: u32 = 1u32 << (e as u32);
        proof {
            lemma2_to64();
            lemma_u32_shl_is_mul(1u32, e as u32);
        }
        let ghost start: int = dist as int;
        let mut k: u32 = 0;
        while k < cnt
            invariant
                16 <= code < 30,
                dist_code.len() == DIST_CODE_LEN,
                cnt * 128 == pow2(spec_extra_dbits(code as int) as nat),
                start * 128 == spec_base_dist(code as int),
                start >= 2,
                (start + cnt) * 128 <= 32768,
                k <= cnt,
                dist == start + k,
                forall|d: int|
                    0 <= d < 256 ==> #[trigger] dist_code[d] < 16 && dist_code_covers(
                        dist_code[d] as int,
                        d,
                    ),
                forall|j: int|
                    2 <= j < start ==> {
                        let c = #[trigger] dist_code[256 + j] as int;
                        &&& 16 <= c < code
                        &&& spec_base_dist(c) <= j * 128
                        &&& (j + 1) * 128 <= spec_base_dist(c) + pow2(spec_extra_dbits(c) as nat)
                    },
                forall|j: int| start <= j < dist ==> #[trigger] dist_code[256 + j] == code,
            decreases cnt - k,
        {
            dist_code.set(256 + dist, code as u8);
            dist += 1;
            k += 1;
        }
        proof {
            assert forall|j: int| 2 <= j < dist implies {
                let c = #[trigger] dist_code[256 + j] as int;
                &&& 16 <= c < code + 1
                &&& spec_base_dist(c) <= j * 128
                &&& (j + 1) * 128 <= spec_base_dist(c) + pow2(spec_extra_dbits(c) as nat)
            } by {
                if j >= start {
                    assert(dist_code[256 + j] == code);
                }
            }
        }
        code += 1;
    }
    proof {
        assert forall|d: int| 0 <= d < 32768 implies dist_code_covers(
            #[trigger] spec_d_code(dist_code@, d),
            d,
        ) by {
            if d >= 256 {
                let j = d / 128;
                assert(2 <= j < 256);
                assert(dist_code[256 + j] == dist_code@[256 + d / 128]);
            }
        }
    }

    // The fixed literal/length tree.
    let mut static_ltree: Vec<CtData> = vec![CtData { fc: 0, dl: 0 }; 288];
    let mut bl_count: Vec<u16> = vec![0u16; MAX_BITS + 1];
    let mut n: usize = 0;
    while n <= 143
        invariant
            n <= 144,
            static_ltree.len() == 288,
            bl_count.len() == 16,
            forall|b: int| 0 <= b < 16 ==> #[trigger] bl_count[b] == if b == 8 { n as int } else { 0 },
            forall|m: int| 0 <= m < n ==> #[trigger] static_ltree[m].dl == spec_static_llen(m),
        decreases 144 - n,
    {
        static_ltree.set(n, CtData { fc: 0, dl: 8 });
        bl_count.set(8, bl_count[8] + 1);
        n += 1;
    }
    while n <= 255
        invariant
            144 <= n <= 256,
            static_ltree.len() == 288,
            bl_count.len() == 16,
            forall|b: int|
                0 <= b < 16 ==> #[trigger] bl_count[b] == if b == 8 { 144 } else if b == 9 { n - 144 } else { 0 },
            forall|m: int| 0 <= m < n ==> #[trigger] static_ltree[m].dl == spec_static_llen(m),
        decreases 256 - n,
    {
        static_ltree.set(n, CtData { fc: 0, dl: 9 });
        bl_count.set(9, bl_count[9] + 1);
        n += 1;
    }
    while n <= 279
        invariant
            256 <= n <= 280,
            static_ltree.len() == 288,
            bl_count.len() == 16,
            forall|b: int|
                0 <= b < 16 ==> #[trigger] bl_count[b] == if b == 8 { 144 } else if b == 9 { 112 } else if b
                    == 7 { n - 256 } else { 0 },
            forall|m: int| 0 <= m < n ==> #[trigger] static_ltree[m].dl == spec_static_llen(m),
        decreases 280 - n,
    {
        static_ltree.set(n, CtData { fc: 0, dl: 7 });
        bl_count.set(7, bl_count[7] + 1);
        n += 1;
    }
    while n <= 287
        invariant
            280 <= n <= 288,
            static_ltree.len() == 288,
            bl_count.len() == 16,
            forall|b: int|
                0 <= b < 16 ==> #[trigger] bl_count[b] == if b == 8 { 144 + n - 280 } else if b == 9 { 112 } else if b
                    == 7 { 24 } else { 0 },
            forall|m: int| 0 <= m < n ==> #[trigger] static_ltree[m].dl == spec_static_llen(m),
        decreases 288 - n,
    {
        static_ltree.set(n, CtData { fc: 0, dl: 8 });
        bl_count.set(8, bl_count[8] + 1);
        n += 1;
    }
    // Codes 286 and 287 exist only to make the tree complete.
    let ghost lt0 = static_ltree@;
    gen_codes(&mut static_ltree, (L_CODES + 1) as i32, &bl_count);
    proof {
        assert forall|n: int| 0 <= n < 288 implies low_bits((#[trigger] static_ltree[n]).fc as u32, static_ltree[n].dl as nat)
            == low_bits(spec_fixed_lcode(n) as u32, static_ltree[n].dl as nat).reverse() by {
            lemma_fixed_canonical(lt0, bl_count@, n);
            assert(lt0[n].dl != 0);
        }
    }

    // The fixed distance tree: every code is 5 bits.
    let mut static_dtree: Vec<CtData> = vec![CtData { fc: 0, dl: 0 }; D_CODES];
    let mut n: usize = 0;
    while n < D_CODES
        invariant
            n <= 30,
            static_dtree.len() == 30,
            forall|m: int| 0 <= m < n ==> (#[trigger] static_dtree[m]).dl == 5 && code_fits(static_dtree[m]),
            forall|m: int| 0 <= m < n ==> low_bits((#[trigger] static_dtree[m]).fc as u32, 5) == low_bits(m as u32, 5).reverse(),
        decreases 30 - n,
    {
        let r: u32 = bi_reverse(n as u32, 5);
        assert((r as u16) as u32 == r) by (bit_vector)
            requires
                r >> 5u32 == 0,
        ;
        static_dtree.set(n, CtData { fc: r as u16, dl: 5 });
        n += 1;
    }

    StaticData { static_ltree, static_dtree, dist_code, length_code, base_length, base_dist }
}

proof fn lemma_length_step(c: int)
    requires
        0 <= c < 28,
    ensures
        spec_base_length(c) + pow2(spec_extra_lbits(c) as nat) == if c + 1 < 28 { spec_base_length(c + 1) } else { 256 },
        0 <= spec_base_length(c) <= 224,
{
    lemma2_to64();
    if c == 0 {} else if c == 1 {} else if c == 2 {} else if c == 3 {} else if c == 4 {} else if c == 5 {} else if c == 6 {} else if c == 7 {} else if c == 8 {} else if c == 9 {} else if c == 10 {} else if c == 11 {} else if c == 12 {} else if c == 13 {} else if c == 14 {} else if c == 15 {} else if c == 16 {} else if c == 17 {} else if c == 18 {} else if c == 19 {} else if c == 20 {} else if c == 21 {} else if c == 22 {} else if c == 23 {} else if c == 24 {} else if c == 25 {} else if c == 26 {} else if c == 27 {} else {}
}

proof fn lemma_dist_step(c: int)
    requires
        0 <= c < 30,
    ensures
        spec_base_dist(c) + pow2(spec_extra_dbits(c) as nat) == if c + 1 < 30 { spec_base_dist(c + 1) } else { 32768 },
        0 <= spec_base_dist(c) <= 24576,
        c >= 16 ==> spec_base_dist(c) % 128 == 0 && pow2((spec_extra_dbits(c) - 7) as nat) * 128 == pow2(
            spec_extra_dbits(c) as nat,
        ),
{
    lemma2_to64();
    if c == 0 {} else if c == 1 {} else if c == 2 {} else if c == 3 {} else if c == 4 {} else if c == 5 {} else if c == 6 {} else if c == 7 {} else if c == 8 {} else if c == 9 {} else if c == 10 {} else if c == 11 {} else if c == 12 {} else if c == 13 {} else if c == 14 {} else if c == 15 {} else if c == 16 {} else if c == 17 {} else if c == 18 {} else if c == 19 {} else if c == 20 {} else if c == 21 {} else if c == 22 {} else if c == 23 {} else if c == 24 {} else if c == 25 {} else if c == 26 {} else if c == 27 {} else if c == 28 {} else if c == 29 {} else {}
}


} // verus!
