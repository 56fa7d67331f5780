//! deflate's bit output: the `send_bits` / `bi_buf` / `bi_windup` accumulator of zlib.
//!
//! Bits are packed least-significant-first. The accumulator holds up to 16 pending bits;
//! whenever a value does not fit, the 16 full bits go out as two bytes, low byte first.
//!
//! The model of a writer is the sequence of bits written so far: the bits of every output
//! byte, each byte least-significant bit first, followed by the pending bits.
use vstd::prelude::*;
use vstd::arithmetic::power2::pow2;

verus! {

/// Size of the bit buffer `bi_buf`, in bits.
pub const BUF_SIZE: i32 = 16;

/// The `n` low bits of `x`, least significant first.
pub open spec fn low_bits(x: u32, n: nat) -> Seq<bool> {
    Seq::new(n, |i: int| (x >> (i as u32)) & 1u32 == 1u32)
}

/// The eight bits of a byte, least significant first.
pub open spec fn byte_bits(b: u8) -> Seq<bool> {
    low_bits(b as u32, 8)
}

/// The bits of a byte string: each byte's bits, least significant first, in byte order.
pub open spec fn bytes_bits(s: Seq<u8>) -> Seq<bool>
    decreases s.len(),
{
    if s.len() == 0 {
        Seq::empty()
    } else {
        bytes_bits(s.drop_last()) + byte_bits(s.last())
    }
}

/// `n` zero bits.
pub open spec fn zero_bits(n: nat) -> Seq<bool> {
    Seq::new(n, |i: int| false)
}

/// A byte string has eight bits per byte.
pub proof fn lemma_bytes_bits_len(s: Seq<u8>)
    ensures
        bytes_bits(s).len() == 8 * s.len(),
    decreases s.len(),
{
    if s.len() > 0 {
        lemma_bytes_bits_len(s.drop_last());
    }
}

/// The bits of a concatenation are the concatenation of the bits.
pub proof fn lemma_bytes_bits_concat(a: Seq<u8>, b: Seq<u8>)
    ensures
        bytes_bits(a + b) == bytes_bits(a) + bytes_bits(b),
    decreases b.len(),
{
    if b.len() == 0 {
        assert(a + b =~= a);
        assert(bytes_bits(b) =~= Seq::<bool>::empty());
        assert(bytes_bits(a) + bytes_bits(b) =~= bytes_bits(a));
    } else {
        lemma_bytes_bits_concat(a, b.drop_last());
        assert((a + b).drop_last() =~= a + b.drop_last());
        assert((a + b).last() == b.last());
        assert(bytes_bits(a + b) =~= bytes_bits(a) + bytes_bits(b));
    }
}

/// Appending one byte appends its eight bits.
pub proof fn lemma_bytes_bits_push(s: Seq<u8>, b: u8)
    ensures
        bytes_bits(s.push(b)) == bytes_bits(s) + byte_bits(b),
{
    assert(s.push(b).drop_last() =~= s);
}

/// A value below `2^n` has no bits at or above bit `n`.
pub proof fn lemma_fits_bits(v: u32, n: u32)
    requires
        n < 32,
        v < pow2(n as nat),
    ensures
        v >> n == 0,
{
    vstd::bits::lemma_u32_shr_is_div(v, n);
    vstd::arithmetic::div_mod::lemma_basic_div(v as int, pow2(n as nat) as int);
}

/// LSB-first bit accumulator writing straight to the output vector.
/// How many bits wait in the buffer once `n` bits have gone into it from an empty one, two
/// bytes being written out whenever the next field would not fit: none for no bits, else
/// between 1 and 16, as many as `n` modulo 16.
pub open spec fn pending_bits(n: int) -> int {
    if n <= 0 {
        0
    } else {
        (n - 1) % 16 + 1
    }
}

/// `w1` follows `w0` by fields sent with zlib's rule: as many bits wait in `w1`'s buffer as
/// the rule leaves after `w0`'s waiting bits and the bits sent since. With `w1`'s bits,
/// this fixes how they divide between the bytes written and the buffer.
pub open spec fn sent_after(w0: BitWriter, w1: BitWriter) -> bool {
    &&& w0.bits().len() <= w1.bits().len()
    &&& w1.bi_valid == pending_bits(w0.bi_valid + (w1.bits().len() - w0.bits().len()))
}

/// Sending more bits after `a` leaves as many waiting as sending them all at once.
pub proof fn lemma_pending_add(a: int, b: int)
    requires
        0 <= a,
        0 <= b,
    ensures
        pending_bits(pending_bits(a) + b) == pending_bits(a + b),
{
}

/// Nothing sent leaves the buffer as it is.
pub proof fn lemma_sent_after_refl(w: BitWriter)
    requires
        w.wf(),
    ensures
        sent_after(w, w),
{
}

/// Fields sent one after another leave as many bits waiting as sent together.
pub proof fn lemma_sent_after_trans(w0: BitWriter, w1: BitWriter, w2: BitWriter)
    requires
        w0.wf(),
        sent_after(w0, w1),
        sent_after(w1, w2),
    ensures
        sent_after(w0, w2),
{
    lemma_pending_add(w0.bi_valid + (w1.bits().len() - w0.bits().len()), w2.bits().len() - w1.bits().len());
}

/// A byte is fixed by its eight bits.
proof fn lemma_byte_bits_inj(a: u8, b: u8)
    requires
        byte_bits(a) == byte_bits(b),
    ensures
        a == b,
{
    assert(byte_bits(a)[0] == byte_bits(b)[0]);
    assert(byte_bits(a)[0] == (((a as u32) >> 0u32) & 1u32 == 1u32));
    assert(byte_bits(b)[0] == (((b as u32) >> 0u32) & 1u32 == 1u32));
    assert(byte_bits(a)[1] == byte_bits(b)[1]);
    assert(byte_bits(a)[1] == (((a as u32) >> 1u32) & 1u32 == 1u32));
    assert(byte_bits(b)[1] == (((b as u32) >> 1u32) & 1u32 == 1u32));
    assert(byte_bits(a)[2] == byte_bits(b)[2]);
    assert(byte_bits(a)[2] == (((a as u32) >> 2u32) & 1u32 == 1u32));
    assert(byte_bits(b)[2] == (((b as u32) >> 2u32) & 1u32 == 1u32));
    assert(byte_bits(a)[3] == byte_bits(b)[3]);
    assert(byte_bits(a)[3] == (((a as u32) >> 3u32) & 1u32 == 1u32));
    assert(byte_bits(b)[3] == (((b as u32) >> 3u32) & 1u32 == 1u32));
    assert(byte_bits(a)[4] == byte_bits(b)[4]);
    assert(byte_bits(a)[4] == (((a as u32) >> 4u32) & 1u32 == 1u32));
    assert(byte_bits(b)[4] == (((b as u32) >> 4u32) & 1u32 == 1u32));
    assert(byte_bits(a)[5] == byte_bits(b)[5]);
    assert(byte_bits(a)[5] == (((a as u32) >> 5u32) & 1u32 == 1u32));
    assert(byte_bits(b)[5] == (((b as u32) >> 5u32) & 1u32 == 1u32));
    assert(byte_bits(a)[6] == byte_bits(b)[6]);
    assert(byte_bits(a)[6] == (((a as u32) >> 6u32) & 1u32 == 1u32));
    assert(byte_bits(b)[6] == (((b as u32) >> 6u32) & 1u32 == 1u32));
    assert(byte_bits(a)[7] == byte_bits(b)[7]);
    assert(byte_bits(a)[7] == (((a as u32) >> 7u32) & 1u32 == 1u32));
    assert(byte_bits(b)[7] == (((b as u32) >> 7u32) & 1u32 == 1u32));
    assert(a == b) by (bit_vector)
        requires
            (((a as u32) >> 0u32) & 1u32 == 1u32) == (((b as u32) >> 0u32) & 1u32 == 1u32),
            (((a as u32) >> 1u32) & 1u32 == 1u32) == (((b as u32) >> 1u32) & 1u32 == 1u32),
            (((a as u32) >> 2u32) & 1u32 == 1u32) == (((b as u32) >> 2u32) & 1u32 == 1u32),
            (((a as u32) >> 3u32) & 1u32 == 1u32) == (((b as u32) >> 3u32) & 1u32 == 1u32),
            (((a as u32) >> 4u32) & 1u32 == 1u32) == (((b as u32) >> 4u32) & 1u32 == 1u32),
            (((a as u32) >> 5u32) & 1u32 == 1u32) == (((b as u32) >> 5u32) & 1u32 == 1u32),
            (((a as u32) >> 6u32) & 1u32 == 1u32) == (((b as u32) >> 6u32) & 1u32 == 1u32),
            (((a as u32) >> 7u32) & 1u32 == 1u32) == (((b as u32) >> 7u32) & 1u32 == 1u32),
    ;
}

/// A byte string is fixed by its bits.
proof fn lemma_bytes_bits_inj(a: Seq<u8>, b: Seq<u8>)
    requires
        a.len() == b.len(),
        bytes_bits(a) == bytes_bits(b),
    ensures
        a == b,
    decreases a.len(),
{
    if a.len() > 0 {
        lemma_bytes_bits_len(a.drop_last());
        lemma_bytes_bits_len(b.drop_last());
        let n: int = 8 * (a.len() - 1);
        assert(bytes_bits(a.drop_last()) =~= bytes_bits(a).take(n));
        assert(bytes_bits(b.drop_last()) =~= bytes_bits(b).take(n));
        assert(byte_bits(a.last()) =~= bytes_bits(a).skip(n));
        assert(byte_bits(b.last()) =~= bytes_bits(b).skip(n));
        lemma_bytes_bits_inj(a.drop_last(), b.drop_last());
        lemma_byte_bits_inj(a.last(), b.last());
        assert(a =~= a.drop_last().push(a.last()));
        assert(b =~= b.drop_last().push(b.last()));
    }
}

/// Buffers with no bits above the `v` valid ones are fixed by those bits.
proof fn lemma_low_bits_inj(x: u32, y: u32, v: u32)
    requires
        v <= 16,
        x >> v == 0,
        y >> v == 0,
        low_bits(x, v as nat) == low_bits(y, v as nat),
    ensures
        x == y,
{
    assert(0 < v ==> low_bits(x, v as nat)[0] == low_bits(y, v as nat)[0]);
    assert(0 < v ==> low_bits(x, v as nat)[0] == ((x >> 0u32) & 1u32 == 1u32));
    assert(0 < v ==> low_bits(y, v as nat)[0] == ((y >> 0u32) & 1u32 == 1u32));
    assert(1 < v ==> low_bits(x, v as nat)[1] == low_bits(y, v as nat)[1]);
    assert(1 < v ==> low_bits(x, v as nat)[1] == ((x >> 1u32) & 1u32 == 1u32));
    assert(1 < v ==> low_bits(y, v as nat)[1] == ((y >> 1u32) & 1u32 == 1u32));
    assert(2 < v ==> low_bits(x, v as nat)[2] == low_bits(y, v as nat)[2]);
    assert(2 < v ==> low_bits(x, v as nat)[2] == ((x >> 2u32) & 1u32 == 1u32));
    assert(2 < v ==> low_bits(y, v as nat)[2] == ((y >> 2u32) & 1u32 == 1u32));
    assert(3 < v ==> low_bits(x, v as nat)[3] == low_bits(y, v as nat)[3]);
    assert(3 < v ==> low_bits(x, v as nat)[3] == ((x >> 3u32) & 1u32 == 1u32));
    assert(3 < v ==> low_bits(y, v as nat)[3] == ((y >> 3u32) & 1u32 == 1u32));
    assert(4 < v ==> low_bits(x, v as nat)[4] == low_bits(y, v as nat)[4]);
    assert(4 < v ==> low_bits(x, v as nat)[4] == ((x >> 4u32) & 1u32 == 1u32));
    assert(4 < v ==> low_bits(y, v as nat)[4] == ((y >> 4u32) & 1u32 == 1u32));
    assert(5 < v ==> low_bits(x, v as nat)[5] == low_bits(y, v as nat)[5]);
    assert(5 < v ==> low_bits(x, v as nat)[5] == ((x >> 5u32) & 1u32 == 1u32));
    assert(5 < v ==> low_bits(y, v as nat)[5] == ((y >> 5u32) & 1u32 == 1u32));
    assert(6 < v ==> low_bits(x, v as nat)[6] == low_bits(y, v as nat)[6]);
    assert(6 < v ==> low_bits(x, v as nat)[6] == ((x >> 6u32) & 1u32 == 1u32));
    assert(6 < v ==> low_bits(y, v as nat)[6] == ((y >> 6u32) & 1u32 == 1u32));
    assert(7 < v ==> low_bits(x, v as nat)[7] == low_bits(y, v as nat)[7]);
    assert(7 < v ==> low_bits(x, v as nat)[7] == ((x >> 7u32) & 1u32 == 1u32));
    assert(7 < v ==> low_bits(y, v as nat)[7] == ((y >> 7u32) & 1u32 == 1u32));
    assert(8 < v ==> low_bits(x, v as nat)[8] == low_bits(y, v as nat)[8]);
    assert(8 < v ==> low_bits(x, v as nat)[8] == ((x >> 8u32) & 1u32 == 1u32));
    assert(8 < v ==> low_bits(y, v as nat)[8] == ((y >> 8u32) & 1u32 == 1u32));
    assert(9 < v ==> low_bits(x, v as nat)[9] == low_bits(y, v as nat)[9]);
    assert(9 < v ==> low_bits(x, v as nat)[9] == ((x >> 9u32) & 1u32 == 1u32));
    assert(9 < v ==> low_bits(y, v as nat)[9] == ((y >> 9u32) & 1u32 == 1u32));
    assert(10 < v ==> low_bits(x, v as nat)[10] == low_bits(y, v as nat)[10]);
    assert(10 < v ==> low_bits(x, v as nat)[10] == ((x >> 10u32) & 1u32 == 1u32));
    assert(10 < v ==> low_bits(y, v as nat)[10] == ((y >> 10u32) & 1u32 == 1u32));
    assert(11 < v ==> low_bits(x, v as nat)[11] == low_bits(y, v as nat)[11]);
    assert(11 < v ==> low_bits(x, v as nat)[11] == ((x >> 11u32) & 1u32 == 1u32));
    assert(11 < v ==> low_bits(y, v as nat)[11] == ((y >> 11u32) & 1u32 == 1u32));
    assert(12 < v ==> low_bits(x, v as nat)[12] == low_bits(y, v as nat)[12]);
    assert(12 < v ==> low_bits(x, v as nat)[12] == ((x >> 12u32) & 1u32 == 1u32));
    assert(12 < v ==> low_bits(y, v as nat)[12] == ((y >> 12u32) & 1u32 == 1u32));
    assert(13 < v ==> low_bits(x, v as nat)[13] == low_bits(y, v as nat)[13]);
    assert(13 < v ==> low_bits(x, v as nat)[13] == ((x >> 13u32) & 1u32 == 1u32));
    assert(13 < v ==> low_bits(y, v as nat)[13] == ((y >> 13u32) & 1u32 == 1u32));
    assert(14 < v ==> low_bits(x, v as nat)[14] == low_bits(y, v as nat)[14]);
    assert(14 < v ==> low_bits(x, v as nat)[14] == ((x >> 14u32) & 1u32 == 1u32));
    assert(14 < v ==> low_bits(y, v as nat)[14] == ((y >> 14u32) & 1u32 == 1u32));
    assert(15 < v ==> low_bits(x, v as nat)[15] == low_bits(y, v as nat)[15]);
    assert(15 < v ==> low_bits(x, v as nat)[15] == ((x >> 15u32) & 1u32 == 1u32));
    assert(15 < v ==> low_bits(y, v as nat)[15] == ((y >> 15u32) & 1u32 == 1u32));
    assert(x == y) by (bit_vector)
        requires
            v <= 16u32,
            x >> v == 0,
            y >> v == 0,
            0u32 < v ==> ((x >> 0u32) & 1u32 == 1u32) == ((y >> 0u32) & 1u32 == 1u32),
            1u32 < v ==> ((x >> 1u32) & 1u32 == 1u32) == ((y >> 1u32) & 1u32 == 1u32),
            2u32 < v ==> ((x >> 2u32) & 1u32 == 1u32) == ((y >> 2u32) & 1u32 == 1u32),
            3u32 < v ==> ((x >> 3u32) & 1u32 == 1u32) == ((y >> 3u32) & 1u32 == 1u32),
            4u32 < v ==> ((x >> 4u32) & 1u32 == 1u32) == ((y >> 4u32) & 1u32 == 1u32),
            5u32 < v ==> ((x >> 5u32) & 1u32 == 1u32) == ((y >> 5u32) & 1u32 == 1u32),
            6u32 < v ==> ((x >> 6u32) & 1u32 == 1u32) == ((y >> 6u32) & 1u32 == 1u32),
            7u32 < v ==> ((x >> 7u32) & 1u32 == 1u32) == ((y >> 7u32) & 1u32 == 1u32),
            8u32 < v ==> ((x >> 8u32) & 1u32 == 1u32) == ((y >> 8u32) & 1u32 == 1u32),
            9u32 < v ==> ((x >> 9u32) & 1u32 == 1u32) == ((y >> 9u32) & 1u32 == 1u32),
            10u32 < v ==> ((x >> 10u32) & 1u32 == 1u32) == ((y >> 10u32) & 1u32 == 1u32),
            11u32 < v ==> ((x >> 11u32) & 1u32 == 1u32) == ((y >> 11u32) & 1u32 == 1u32),
            12u32 < v ==> ((x >> 12u32) & 1u32 == 1u32) == ((y >> 12u32) & 1u32 == 1u32),
            13u32 < v ==> ((x >> 13u32) & 1u32 == 1u32) == ((y >> 13u32) & 1u32 == 1u32),
            14u32 < v ==> ((x >> 14u32) & 1u32 == 1u32) == ((y >> 14u32) & 1u32 == 1u32),
            15u32 < v ==> ((x >> 15u32) & 1u32 == 1u32) == ((y >> 15u32) & 1u32 == 1u32),
    ;
}

/// Two writers with the same bits and as many of them waiting have written the same bytes
/// and wait with the same buffer: with `sent_after`, the bits sent fix the writer's state.
pub proof fn lemma_split_fixed(w1: BitWriter, w2: BitWriter)
    requires
        w1.wf(),
        w2.wf(),
        w1.bits() == w2.bits(),
        w1.bi_valid == w2.bi_valid,
    ensures
        w1.out@ == w2.out@,
        w1.bi_buf == w2.bi_buf,
{
    lemma_bytes_bits_len(w1.out@);
    lemma_bytes_bits_len(w2.out@);
    let n: int = 8 * w1.out@.len() as int;
    assert(w1.bits().len() == n + w1.bi_valid);
    assert(w2.bits().len() == 8 * w2.out@.len() + w2.bi_valid);
    assert(w1.out@.len() == w2.out@.len());
    assert(bytes_bits(w1.out@) =~= w1.bits().take(n));
    assert(bytes_bits(w2.out@) =~= w2.bits().take(n));
    lemma_bytes_bits_inj(w1.out@, w2.out@);
    assert(low_bits(w1.bi_buf as u32, w1.bi_valid as nat) =~= w1.bits().skip(n));
    assert(low_bits(w2.bi_buf as u32, w2.bi_valid as nat) =~= w2.bits().skip(n));
    lemma_low_bits_inj(w1.bi_buf as u32, w2.bi_buf as u32, w1.bi_valid as u32);
}

pub struct BitWriter {
    /// The DEFLATE output bytes produced so far.
    pub out: Vec<u8>,
    /// Pending bits, inserted starting at the least significant bit (`bi_buf`).
    pub bi_buf: u16,
    /// Number of valid bits in `bi_buf`; all bits above them are zero (`bi_valid`).
    pub bi_valid: i32,
}

impl BitWriter {
    /// The accumulator holds at most 16 bits and nothing above the valid ones.
    pub open spec fn wf(&self) -> bool {
        &&& 0 <= self.bi_valid <= 16
        &&& (self.bi_buf as u32) >> (self.bi_valid as u32) == 0
    }

    /// Everything written so far, in stream order.
    pub open spec fn bits(&self) -> Seq<bool> {
        bytes_bits(self.out@) + low_bits(self.bi_buf as u32, self.bi_valid as nat)
    }

    /// An empty writer.
    pub fn new() -> (w: Self)
        ensures
            w.wf(),
            w.out@ == Seq::<u8>::empty(),
            w.bi_valid == 0,
            w.bits() == Seq::<bool>::empty(),
    {
        let w = BitWriter { out: Vec::new(), bi_buf: 0, bi_valid: 0 };
        assert((0u16 as u32) >> (0i32 as u32) == 0) by (bit_vector);
        assert(w.bits() =~= Seq::<bool>::empty());
        w
    }

    /// `put_byte(s, c)`: append one byte to the output.
    pub fn put_byte(&mut self, b: u8)
        ensures
            final(self).out@ == old(self).out@.push(b),
            final(self).bi_buf == old(self).bi_buf,
            final(self).bi_valid == old(self).bi_valid,
    {
        self.out.push(b);
    }

    /// `put_short(s, w)`: append a 16-bit value, low byte first.
    pub fn put_short(&mut self, w: u16)
        ensures
            final(self).out@ == old(self).out@ + seq![(w & 0xff) as u8, (w >> 8u16) as u8],
            final(self).bi_buf == old(self).bi_buf,
            final(self).bi_valid == old(self).bi_valid,
    {
        self.out.push((w & 0xff) as u8);
        self.out.push((w >> 8) as u8);
        assert(self.out@ =~= old(self).out@ + seq![(w & 0xff) as u8, (w >> 8u16) as u8]);
    }

    /// `send_bits(s, value, length)`: send the `length` low bits of `value`, least
    /// significant first. As in zlib, `value` must fit in `length` bits.
    pub fn send_bits(&mut self, value: i32, length: i32)
        requires
            old(self).wf(),
            0 <= length <= 16,
            0 <= value,
            (value as u32) >> (length as u32) == 0,
        ensures
            final(self).wf(),
            final(self).bits() == old(self).bits() + low_bits(value as u32, length as nat),
            sent_after(*old(self), *final(self)),
            ({
                let nb: u16 = old(self).bi_buf | (((value as u32) << (old(self).bi_valid as u32)) as u16);
                if old(self).bi_valid > 16 - length {
                    &&& final(self).out@ == old(self).out@ + seq![(nb & 0xff) as u8, (nb >> 8u16) as u8]
                    &&& final(self).bi_buf == ((value as u32) >> ((16 - old(self).bi_valid) as u32)) as u16
                    &&& final(self).bi_valid == old(self).bi_valid + length - 16
                } else {
                    &&& final(self).out@ == old(self).out@
                    &&& final(self).bi_buf == nb
                    &&& final(self).bi_valid == old(self).bi_valid + length
                }
            }),
    {
        let v: u32 = (value as u32) & 0xffff;
        let ghost old_bits = self.bits();
        let ghost buf = self.bi_buf as u32;
        let ghost valid = self.bi_valid as u32;
        let ghost len = length as u32;
        assert(v == value as u32) by (bit_vector)
            requires
                v == (value as u32) & 0xffff,
                (value as u32) >> len == 0,
                len <= 16,
        ;
        if self.bi_valid > BUF_SIZE - length {
            let nb: u16 = self.bi_buf | (v << (self.bi_valid as u32)) as u16;
            self.put_short(nb);
            self.bi_buf = (v >> ((BUF_SIZE - self.bi_valid) as u32)) as u16;
            self.bi_valid = self.bi_valid + length - BUF_SIZE;
            let ghost nbuf = self.bi_buf as u32;
            let ghost nvalid = self.bi_valid as u32;
            let ghost sh = (16 - valid) as u32;
            assert(nbuf >> nvalid == 0) by (bit_vector)
                requires
                    nbuf == ((v >> sh) as u16) as u32,
                    sh == 16 - valid,
                    nvalid == valid + len - 16,
                    v >> len == 0,
                    valid <= 16,
                    len <= 16,
                    valid + len > 16,
            ;
            proof {
                lemma_bytes_bits_concat(old(self).out@, seq![(nb & 0xff) as u8, (nb >> 8u16) as u8]);
                lemma_bytes_bits_push(seq![(nb & 0xff) as u8], (nb >> 8u16) as u8);
                lemma_bytes_bits_push(Seq::<u8>::empty(), (nb & 0xff) as u8);
                assert(seq![(nb & 0xff) as u8, (nb >> 8u16) as u8] =~= seq![(nb & 0xff) as u8].push((nb >> 8u16) as u8));
                assert(Seq::<u8>::empty().push((nb & 0xff) as u8) =~= seq![(nb & 0xff) as u8]);
                assert(bytes_bits(Seq::<u8>::empty()) =~= Seq::<bool>::empty());
                let lo = (nb & 0xff) as u8;
                let hi = (nb >> 8u16) as u8;
                let pending = low_bits(buf, valid as nat);
                let added = low_bits(value as u32, len as nat);
                let emitted = byte_bits(lo) + byte_bits(hi);
                let rest = low_bits(nbuf, nvalid as nat);
                assert(pending + added =~= emitted + rest) by {
                    assert forall|i: int| 0 <= i < valid + len implies
                        #[trigger] (pending + added)[i] == (emitted + rest)[i] by {
                        let iu = i as u32;
                        if i < 8 {
                            assert(((buf >> iu) & 1 == 1 && iu < valid)
                                || ((v >> ((iu - valid) as u32)) & 1 == 1 && iu >= valid)
                                <==> ((lo as u32) >> iu) & 1 == 1) by (bit_vector)
                                requires
                                    nb == (buf as u16) | ((v << valid) as u16),
                                    lo == (nb & 0xff) as u8,
                                    buf >> valid == 0,
                                    buf < 0x10000,
                                    iu < 8,
                                    valid <= 16,
                                    v >> len == 0,
                                    len <= 16,
                            ;
                        } else if i < 16 {
                            let j = (iu - 8) as u32;
                            assert(((buf >> iu) & 1 == 1 && iu < valid)
                                || ((v >> ((iu - valid) as u32)) & 1 == 1 && iu >= valid)
                                <==> ((hi as u32) >> j) & 1 == 1) by (bit_vector)
                                requires
                                    nb == (buf as u16) | ((v << valid) as u16),
                                    hi == (nb >> 8u16) as u8,
                                    buf >> valid == 0,
                                    buf < 0x10000,
                                    8 <= iu < 16,
                                    j == iu - 8,
                                    valid <= 16,
                                    v >> len == 0,
                                    len <= 16,
                            ;
                        } else {
                            let j = (iu - 16) as u32;
                            assert((v >> ((iu - valid) as u32)) & 1 == 1 <==> (nbuf >> j) & 1 == 1)
                                by (bit_vector)
                                requires
                                    nbuf == ((v >> sh) as u16) as u32,
                                    sh == 16 - valid,
                                    16 <= iu,
                                    iu < valid + len,
                                    j == iu - 16,
                                    valid <= 16,
                                    v >> len == 0,
                                    len <= 16,
                            ;
                        }
                    }
                }
                assert(self.bits() =~= bytes_bits(old(self).out@) + emitted + rest);
                assert(old_bits + added =~= bytes_bits(old(self).out@) + (pending + added));
            }
        } else {
            self.bi_buf = self.bi_buf | (v << (self.bi_valid as u32)) as u16;
            self.bi_valid = self.bi_valid + length;
            let ghost nbuf = self.bi_buf as u32;
            let ghost nvalid = self.bi_valid as u32;
            assert(nbuf >> nvalid == 0) by (bit_vector)
                requires
                    nbuf == ((buf as u16) | ((v << valid) as u16)) as u32,
                    nvalid == valid + len,
                    buf >> valid == 0,
                    buf < 0x10000,
                    v >> len == 0,
                    valid + len <= 16,
            ;
            proof {
                let pending = low_bits(buf, valid as nat);
                let added = low_bits(value as u32, len as nat);
                let now = low_bits(nbuf, nvalid as nat);
                assert(pending + added =~= now) by {
                    assert forall|i: int| 0 <= i < valid + len implies
                        #[trigger] (pending + added)[i] == now[i] by {
                        let iu = i as u32;
                        assert(((buf >> iu) & 1 == 1 && iu < valid)
                            || ((v >> ((iu - valid) as u32)) & 1 == 1 && iu >= valid)
                            <==> (nbuf >> iu) & 1 == 1) by (bit_vector)
                            requires
                                nbuf == ((buf as u16) | ((v << valid) as u16)) as u32,
                                buf >> valid == 0,
                                buf < 0x10000,
                                iu < valid + len,
                                v >> len == 0,
                                valid + len <= 16,
                        ;
                    }
                }
                assert(self.bits() =~= bytes_bits(old(self).out@) + (pending + added));
            }
        }
    }

    /// `bi_windup(s)`: flush the pending bits and align the output on a byte boundary,
    /// padding the last byte with zero bits.
    pub fn bi_windup(&mut self)
        requires
            old(self).wf(),
        ensures
            final(self).wf(),
            final(self).bi_valid == 0,
            final(self).bi_buf == 0,
            final(self).bits() == old(self).bits() + zero_bits(
                ((8 - old(self).bi_valid % 8) % 8) as nat,
            ),
    {
        let ghost buf = self.bi_buf as u32;
        let ghost valid = self.bi_valid as u32;
        let ghost pad = ((8 - old(self).bi_valid % 8) % 8) as nat;
        let ghost pending = low_bits(buf, valid as nat);
        if self.bi_valid > 8 {
            let b: u16 = self.bi_buf;
            self.put_short(b);
            proof {
                let lo = (b & 0xff) as u8;
                let hi = (b >> 8u16) as u8;
                lemma_bytes_bits_concat(old(self).out@, seq![lo, hi]);
                assert(seq![lo, hi] =~= seq![lo].push(hi));
                lemma_bytes_bits_push(seq![lo], hi);
                assert(Seq::<u8>::empty().push(lo) =~= seq![lo]);
                lemma_bytes_bits_push(Seq::<u8>::empty(), lo);
                assert(bytes_bits(Seq::<u8>::empty()) =~= Seq::<bool>::empty());
                assert(pending + zero_bits(pad) =~= byte_bits(lo) + byte_bits(hi)) by {
                    assert forall|i: int| 0 <= i < 16 implies
                        #[trigger] (pending + zero_bits(pad))[i] == (byte_bits(lo) + byte_bits(hi))[i] by {
                        let iu = i as u32;
                        if i < 8 {
                            assert(((buf >> iu) & 1 == 1 && iu < valid) <==> ((lo as u32) >> iu) & 1 == 1)
                                by (bit_vector)
                                requires
                                    lo == (b & 0xff) as u8,
                                    buf == b as u32,
                                    buf >> valid == 0,
                                    iu < 8,
                            ;
                        } else {
                            let j = (iu - 8) as u32;
                            assert(((buf >> iu) & 1 == 1 && iu < valid) <==> ((hi as u32) >> j) & 1 == 1)
                                by (bit_vector)
                                requires
                                    hi == (b >> 8u16) as u8,
                                    buf == b as u32,
                                    buf >> valid == 0,
                                    8 <= iu < 16,
                                    j == iu - 8,
                            ;
                        }
                    }
                }
            }
        } else if self.bi_valid > 0 {
            let b: u8 = self.bi_buf as u8;
            self.put_byte(b);
            proof {
                lemma_bytes_bits_push(old(self).out@, b);
                assert(pending + zero_bits(pad) =~= byte_bits(b)) by {
                    assert forall|i: int| 0 <= i < 8 implies
                        #[trigger] (pending + zero_bits(pad))[i] == byte_bits(b)[i] by {
                        let iu = i as u32;
                        assert(((buf >> iu) & 1 == 1 && iu < valid) <==> ((b as u32) >> iu) & 1 == 1)
                            by (bit_vector)
                            requires
                                b == buf as u8,
                                buf >> valid == 0,
                                valid <= 8,
                                buf < 0x10000,
                                iu < 8,
                        ;
                    }
                }
            }
        } else {
            assert(pending + zero_bits(pad) =~= Seq::<bool>::empty());
        }
        self.bi_buf = 0;
        self.bi_valid = 0;
        assert(low_bits(0u32, 0) =~= Seq::<bool>::empty());
        assert((0u16 as u32) >> (0i32 as u32) == 0) by (bit_vector);
        assert(self.bits() =~= old(self).bits() + zero_bits(pad));
    }
}

} // verus!
