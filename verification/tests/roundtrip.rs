//! Round trips: every output of `deflate_raw` is inflated by a small, independent RFC 1951
//! decoder written here, which must give back the input, read every byte of the output, and
//! find only zero bits after the last block.

use zlib_bitexact_rs::deflate_raw;

/// Least-significant-bit-first reader over a byte slice.
struct BitReader<'a> {
    data: &'a [u8],
    pos: usize,
}

impl<'a> BitReader<'a> {
    fn new(data: &'a [u8]) -> Self {
        BitReader { data, pos: 0 }
    }

    fn bit(&mut self) -> u32 {
        let byte = self.data[self.pos / 8];
        let b = (byte >> (self.pos % 8)) & 1;
        self.pos += 1;
        b as u32
    }

    fn bits(&mut self, n: u32) -> u32 {
        let mut v = 0u32;
        for i in 0..n {
            v |= self.bit() << i;
        }
        v
    }

    fn align(&mut self) {
        while self.pos % 8 != 0 {
            assert_eq!(self.bit(), 0, "stored block padding must be zero");
        }
    }
}

/// A canonical Huffman decoder built from code lengths (RFC 1951, 3.2.2).
struct Huffman {
    counts: Vec<u32>,
    symbols: Vec<u32>,
}

impl Huffman {
    fn new(lengths: &[u8]) -> Self {
        let mut counts = vec![0u32; 16];
        for &l in lengths {
            counts[l as usize] += 1;
        }
        counts[0] = 0;
        let mut offs = vec![0u32; 16];
        for len in 1..16 {
            offs[len] = offs[len - 1] + counts[len - 1];
        }
        let mut symbols = vec![0u32; lengths.len()];
        for (sym, &l) in lengths.iter().enumerate() {
            if l != 0 {
                symbols[offs[l as usize] as usize] = sym as u32;
                offs[l as usize] += 1;
            }
        }
        Huffman { counts, symbols }
    }

    fn decode(&self, r: &mut BitReader) -> u32 {
        let mut code: i64 = 0;
        let mut first: i64 = 0;
        let mut index: i64 = 0;
        for len in 1..16 {
            code |= r.bit() as i64;
            let count = self.counts[len] as i64;
            if code - count < first {
                return self.symbols[(index + (code - first)) as usize];
            }
            index += count;
            first += count;
            first <<= 1;
            code <<= 1;
        }
        panic!("invalid Huffman code");
    }
}

const LEN_BASE: [u32; 29] = [
    3, 4, 5, 6, 7, 8, 9, 10, 11, 13, 15, 17, 19, 23, 27, 31, 35, 43, 51, 59, 67, 83, 99, 115,
    131, 163, 195, 227, 258,
];
const LEN_EXTRA: [u32; 29] = [
    0, 0, 0, 0, 0, 0, 0, 0, 1, 1, 1, 1, 2, 2, 2, 2, 3, 3, 3, 3, 4, 4, 4, 4, 5, 5, 5, 5, 0,
];
const DIST_BASE: [u32; 30] = [
    1, 2, 3, 4, 5, 7, 9, 13, 17, 25, 33, 49, 65, 97, 129, 193, 257, 385, 513, 769, 1025, 1537,
    2049, 3073, 4097, 6145, 8193, 12289, 16385, 24577,
];
const DIST_EXTRA: [u32; 30] = [
    0, 0, 0, 0, 1, 1, 2, 2, 3, 3, 4, 4, 5, 5, 6, 6, 7, 7, 8, 8, 9, 9, 10, 10, 11, 11, 12, 12,
    13, 13,
];
const CL_ORDER: [usize; 19] = [16, 17, 18, 0, 8, 7, 9, 6, 10, 5, 11, 4, 12, 3, 13, 2, 14, 1, 15];

/// The result of inflating a raw DEFLATE stream.
struct Inflated {
    data: Vec<u8>,
    /// The type of each block: 0 stored, 1 fixed, 2 dynamic.
    block_types: Vec<u32>,
    /// Every back-reference, as (length, distance).
    matches: Vec<(usize, usize)>,
}

fn inflate_codes(
    r: &mut BitReader,
    out: &mut Vec<u8>,
    matches: &mut Vec<(usize, usize)>,
    lit: &Huffman,
    dist: &Huffman,
) {
    loop {
        let sym = lit.decode(r);
        if sym < 256 {
            out.push(sym as u8);
        } else if sym == 256 {
            return;
        } else {
            let li = (sym - 257) as usize;
            assert!(li < 29, "invalid length symbol {sym}");
            let len = LEN_BASE[li] + r.bits(LEN_EXTRA[li]);
            let di = dist.decode(r) as usize;
            assert!(di < 30, "invalid distance symbol {di}");
            let d = (DIST_BASE[di] + r.bits(DIST_EXTRA[di])) as usize;
            assert!(d <= out.len(), "distance {d} reaches before the output");
            matches.push((len as usize, d));
            for _ in 0..len {
                let b = out[out.len() - d];
                out.push(b);
            }
        }
    }
}

fn inflate(stream: &[u8]) -> Inflated {
    let mut r = BitReader::new(stream);
    let mut out = Vec::new();
    let mut block_types = Vec::new();
    let mut matches = Vec::new();
    loop {
        let last = r.bit();
        let btype = r.bits(2);
        block_types.push(btype);
        match btype {
            0 => {
                r.align();
                let len = r.bits(16);
                let nlen = r.bits(16);
                assert_eq!(len ^ 0xffff, nlen, "stored length and its complement disagree");
                for _ in 0..len {
                    out.push(r.bits(8) as u8);
                }
            }
            1 => {
                let mut l = vec![8u8; 288];
                for x in l.iter_mut().take(256).skip(144) {
                    *x = 9;
                }
                for x in l.iter_mut().take(280).skip(256) {
                    *x = 7;
                }
                let lit = Huffman::new(&l);
                let dist = Huffman::new(&[5u8; 30]);
                inflate_codes(&mut r, &mut out, &mut matches, &lit, &dist);
            }
            2 => {
                let hlit = r.bits(5) as usize + 257;
                let hdist = r.bits(5) as usize + 1;
                let hclen = r.bits(4) as usize + 4;
                let mut cl = [0u8; 19];
                for &i in CL_ORDER.iter().take(hclen) {
                    cl[i] = r.bits(3) as u8;
                }
                let clh = Huffman::new(&cl);
                let mut lens: Vec<u8> = Vec::new();
                while lens.len() < hlit + hdist {
                    let sym = clh.decode(&mut r);
                    match sym {
                        0..=15 => lens.push(sym as u8),
                        16 => {
                            let prev = *lens.last().expect("repeat with no previous length");
                            for _ in 0..3 + r.bits(2) {
                                lens.push(prev);
                            }
                        }
                        17 => {
                            for _ in 0..3 + r.bits(3) {
                                lens.push(0);
                            }
                        }
                        _ => {
                            for _ in 0..11 + r.bits(7) {
                                lens.push(0);
                            }
                        }
                    }
                }
                assert_eq!(lens.len(), hlit + hdist, "code lengths overrun");
                let lit = Huffman::new(&lens[..hlit]);
                let dist = Huffman::new(&lens[hlit..]);
                inflate_codes(&mut r, &mut out, &mut matches, &lit, &dist);
            }
            _ => panic!("reserved block type"),
        }
        if last == 1 {
            break;
        }
    }
    // Only zero padding may follow the last block, up to the end of the last byte.
    while r.pos % 8 != 0 {
        assert_eq!(r.bit(), 0, "padding after the last block must be zero");
    }
    assert_eq!(r.pos / 8, stream.len(), "bytes left after the last block");
    Inflated { data: out, block_types, matches }
}

fn xorshift_bytes(seed: u32, n: usize) -> Vec<u8> {
    let mut x = seed;
    (0..n)
        .map(|_| {
            x ^= x << 13;
            x ^= x >> 17;
            x ^= x << 5;
            (x & 0xff) as u8
        })
        .collect()
}

const TEXT: &[u8] = b"the quick brown fox jumps over the lazy dog. ";

fn repeated(src: &[u8], len: usize) -> Vec<u8> {
    let mut v = Vec::with_capacity(len);
    while v.len() < len {
        let take = (len - v.len()).min(src.len());
        v.extend_from_slice(&src[..take]);
    }
    v
}

/// Compress, inflate, and check that the input comes back; return the block types.
fn round_trip(input: &[u8]) -> Vec<u32> {
    let out = deflate_raw(input);
    let back = inflate(&out);
    assert_eq!(back.data.len(), input.len(), "inflated length differs");
    assert!(back.data == input, "inflated bytes differ from the input");
    back.block_types
}

#[test]
fn round_trip_empty_is_one_fixed_block() {
    assert_eq!(round_trip(&[]), vec![1]);
}

#[test]
fn round_trip_tiny_inputs() {
    for n in [1usize, 2, 3, 4, 5, 6, 7, 8, 257, 258, 259, 261, 262, 263] {
        round_trip(&vec![0u8; n]);
    }
    round_trip(&[0x5a]);
    round_trip(&[0xaa, 0xaa]);
    round_trip(&[7, 7, 7]);
    round_trip(b"abc");
}

#[test]
fn round_trip_runs() {
    for n in [4096usize, 19584, 65535, 65536, 65537, 70000] {
        round_trip(&vec![0u8; n]);
        round_trip(&vec![0xffu8; n]);
    }
}

#[test]
fn round_trip_text_uses_dynamic_blocks() {
    let types = round_trip(&repeated(TEXT, 8192));
    assert!(types.contains(&2), "repeated text should give a dynamic block: {types:?}");
    for n in [45usize, 4096, 19584, 100_000] {
        round_trip(&repeated(TEXT, n));
    }
}

#[test]
fn round_trip_random_uses_stored_blocks() {
    let types = round_trip(&xorshift_bytes(0x1234_5678, 4096));
    assert_eq!(types, vec![0], "incompressible input should be one stored block");
    for n in [100usize, 5000, 19584, 33000, 60000] {
        round_trip(&xorshift_bytes(0x1234_5678 ^ n as u32, n));
    }
}

#[test]
fn round_trip_random_sliding_window() {
    // Over 64 KiB of incompressible input: the window slides and blocks are cut by the
    // symbol buffer.
    let types = round_trip(&xorshift_bytes(0x9E37_79B9, 150_000));
    assert!(types.len() > 1, "more than 16383 symbols need more than one block");
}

#[test]
fn round_trip_periodic_patterns() {
    for period in [1usize, 2, 3, 4, 7, 16, 256, 1000, 5000] {
        let pat = xorshift_bytes(0xC0FFEE ^ period as u32, period);
        round_trip(&repeated(&pat, 40_000));
    }
}

#[test]
fn round_trip_ramp() {
    round_trip(&(0..100_000u32).map(|i| (i & 0xff) as u8).collect::<Vec<u8>>());
}

#[test]
fn round_trip_too_far_match() {
    let mut v = Vec::with_capacity(50_000);
    v.extend_from_slice(b"XYZ");
    v.extend(xorshift_bytes(0xBEEF, 20_000));
    v.extend_from_slice(b"XYZ");
    v.extend(xorshift_bytes(0xFACE, 20_000));
    round_trip(&v);
}

#[test]
fn round_trip_mixed_and_three_regimes() {
    for &n in &[4096usize, 19584] {
        let mixed: Vec<u8> = (0..n as u32)
            .map(|i| match (i / 96) % 3 {
                0 => 0u8,
                1 => TEXT[(i as usize) % TEXT.len()],
                _ => i.wrapping_mul(7) as u8,
            })
            .collect();
        round_trip(&mixed);
    }
    let mut v = xorshift_bytes(0xABCD, 40_000);
    v.extend(repeated(TEXT, 40_000));
    v.extend(vec![0u8; 40_000]);
    let types = round_trip(&v);
    assert!(types.contains(&0), "the random part should be stored: {types:?}");
}

#[test]
fn round_trip_skewed_literals() {
    // Geometric literal frequencies push Huffman code lengths past 15 bits before limiting.
    let mut x: u32 = 0x9E37_79B9;
    let geom: Vec<u8> = (0..60_000)
        .map(|_| {
            x ^= x << 13;
            x ^= x >> 17;
            x ^= x << 5;
            (x.trailing_ones().min(255)) as u8
        })
        .collect();
    round_trip(&geom);
}

#[test]
fn round_trip_cd_subcode_hunks() {
    for mult in [1usize, 2, 8] {
        let n = 2448 * mult;
        round_trip(&repeated(TEXT, n));
        round_trip(&xorshift_bytes(0x5151 ^ n as u32, n));
    }
}

#[test]
fn equal_matches_prefer_the_nearest() {
    // The last "abcd" matches both 5 and 10 bytes back, equally long; the nearer one is
    // kept. (The string at position 0 is never a candidate: its position is NIL.)
    let input = b"-abcd1abcd2abcd3";
    let back = inflate(&deflate_raw(input));
    assert!(back.data == input);
    assert_eq!(back.matches, vec![(4, 5), (4, 5)]);
}

#[test]
fn a_run_is_one_long_back_reference() {
    // Literals for the first two bytes, then one match of distance 1.
    let input = vec![0x41u8; 100];
    let back = inflate(&deflate_raw(&input));
    assert!(back.data == input);
    assert_eq!(back.matches, vec![(98, 1)]);
}

#[test]
fn matches_are_at_most_258_bytes() {
    let input = vec![0u8; 1000];
    let back = inflate(&deflate_raw(&input));
    assert!(back.data == input);
    assert!(back.matches.iter().all(|&(l, d)| (3..=258).contains(&l) && d >= 1));
    assert_eq!(back.matches[0], (258, 1));
}

#[test]
fn a_far_three_byte_match_is_dropped() {
    // "XYZ" repeats more than 4096 bytes later: a three-byte match that far is sent as
    // literals instead.
    let mut v = Vec::new();
    v.extend_from_slice(b"XYZ");
    v.extend(xorshift_bytes(0xBEEF, 5000));
    v.extend_from_slice(b"XYZ");
    let back = inflate(&deflate_raw(&v));
    assert!(back.data == v);
    assert!(back.matches.iter().all(|&(l, d)| !(l == 3 && d > 4096)));
}
