//! The building blocks on concrete values: the bit writer, bit reversal, the fixed tables,
//! canonical codes, stored blocks and the hash.

use zlib_bitexact_rs::bitwriter::BitWriter;
use zlib_bitexact_rs::deflate::DeflateState;
use zlib_bitexact_rs::tables::{bi_reverse, d_code, gen_codes, tr_static_init, CtData};
use zlib_bitexact_rs::trees::TreeKind;

#[test]
fn bits_are_packed_least_significant_first() {
    let mut w = BitWriter::new();
    w.send_bits(0b101, 3);
    w.send_bits(0x1ff, 9);
    // Twelve bits wait in the buffer.
    assert!(w.out.is_empty());
    assert_eq!((w.bi_buf, w.bi_valid), (0x0ffd, 12));
    w.bi_windup();
    assert_eq!(w.out, vec![0xfd, 0x0f]);
    assert_eq!(w.bi_valid, 0);
    assert_eq!(w.bi_buf, 0);
}

#[test]
fn sixteen_pending_bits_go_out_as_two_bytes() {
    let mut w = BitWriter::new();
    w.send_bits(0x1234, 16);
    w.send_bits(1, 1);
    assert_eq!(w.out, vec![0x34, 0x12]);
    w.bi_windup();
    assert_eq!(w.out, vec![0x34, 0x12, 0x01]);
}

#[test]
fn a_full_buffer_flushes_two_bytes_and_keeps_the_rest() {
    let mut w = BitWriter::new();
    w.send_bits(0x763, 11);
    assert!(w.out.is_empty());
    w.send_bits(0xec, 8);
    assert_eq!(w.out, vec![0x63, 0x67]);
    assert_eq!((w.bi_buf, w.bi_valid), (0x7, 3));
}

#[test]
fn reversing_twice_gives_the_low_bits_back() {
    for len in 1..=15i32 {
        for code in [0u32, 1, 0x5a5a, 0xffff_ffff, 0x1234_5678] {
            let r = bi_reverse(code, len);
            assert_eq!(bi_reverse(r, len), code & ((1u32 << len) - 1));
        }
    }
}

#[test]
fn windup_of_nothing_writes_nothing() {
    let mut w = BitWriter::new();
    w.bi_windup();
    assert!(w.out.is_empty());
}

#[test]
fn shorts_are_little_endian() {
    let mut w = BitWriter::new();
    w.put_short(0x1234);
    w.put_byte(0xab);
    assert_eq!(w.out, vec![0x34, 0x12, 0xab]);
}

#[test]
fn bit_reversal() {
    assert_eq!(bi_reverse(0b0011, 4), 0b1100);
    assert_eq!(bi_reverse(1, 15), 0x4000);
    assert_eq!(bi_reverse(0b10110, 5), 0b01101);
    // Reversing twice gives the bits back.
    assert_eq!(bi_reverse(bi_reverse(0x2a5, 10), 10), 0x2a5);
}

#[test]
fn fixed_codes_are_those_of_rfc_1951() {
    let sd = tr_static_init();
    // Literal 0: 00110000, sent least significant bit first as 00001100.
    assert_eq!((sd.static_ltree[0].fc, sd.static_ltree[0].dl), (0x0c, 8));
    // Literal 144: 110010000 (9 bits).
    assert_eq!((sd.static_ltree[144].fc, sd.static_ltree[144].dl), (0x013, 9));
    // End of block, 256: 0000000 (7 bits).
    assert_eq!((sd.static_ltree[256].fc, sd.static_ltree[256].dl), (0, 7));
    // Length code 280: 11000000 (8 bits).
    assert_eq!((sd.static_ltree[280].fc, sd.static_ltree[280].dl), (0x03, 8));
    // Distance code 1: 00001 (5 bits).
    assert_eq!((sd.static_dtree[1].fc, sd.static_dtree[1].dl), (0x10, 5));
}

#[test]
fn length_and_distance_codes() {
    let sd = tr_static_init();
    // Lengths 3, 11 and 258 (less 3): codes 257, 265 and 285 (less 257).
    assert_eq!(sd.length_code[0], 0);
    assert_eq!(sd.length_code[8], 8);
    assert_eq!(sd.length_code[255], 28);
    assert_eq!(sd.base_length[8], 8);
    // Distances 1, 5, 257 and 32768 (less 1).
    assert_eq!(d_code(&sd, 0), 0);
    assert_eq!(d_code(&sd, 4), 4);
    assert_eq!(d_code(&sd, 256), 16);
    assert_eq!(d_code(&sd, 32767), 29);
    assert_eq!(sd.base_dist[16], 256);
}

#[test]
fn canonical_codes_of_rfc_example() {
    // RFC 1951, 3.2.2: lengths (3, 3, 3, 3, 3, 2, 4, 4) give the codes 010, 011, 100, 101,
    // 110, 00, 1110, 1111, kept bit-reversed.
    let lens = [3u16, 3, 3, 3, 3, 2, 4, 4];
    let mut tree: Vec<CtData> = lens.iter().map(|&l| CtData { fc: 0, dl: l }).collect();
    let mut bl_count = vec![0u16; 16];
    for &l in &lens {
        bl_count[l as usize] += 1;
    }
    gen_codes(&mut tree, 7, &bl_count);
    let codes: Vec<u16> = tree.iter().map(|c| c.fc).collect();
    assert_eq!(codes, vec![0b010, 0b110, 0b001, 0b101, 0b011, 0b00, 0b0111, 0b1111]);
}

#[test]
fn a_stored_block_holds_the_window_bytes() {
    let input = b"stored!";
    let mut s = DeflateState::new(input);
    s.tr_init();
    for (i, &b) in input.iter().enumerate() {
        s.window[i] = b;
    }
    s.tr_stored_block(Some(0), input.len(), true);
    // Header 001 padded to a byte, the length 7 and its complement, then the bytes.
    let mut expected = vec![0x01, 0x07, 0x00, 0xf8, 0xff];
    expected.extend_from_slice(input);
    assert_eq!(s.bw.out, expected);
}

#[test]
fn the_hash_rolls_three_bytes() {
    let mut s = DeflateState::new(b"");
    s.update_hash(0x61);
    s.update_hash(0x62);
    s.update_hash(0x63);
    assert_eq!(s.ins_h, ((0x61u32 << 10) ^ (0x62 << 5) ^ 0x63) & 0x7fff);
    s.update_hash(0x64);
    assert_eq!(s.ins_h, ((0x62u32 << 10) ^ (0x63 << 5) ^ 0x64) & 0x7fff);
}

#[test]
fn sliding_the_hash_drops_old_positions() {
    let mut s = DeflateState::new(b"");
    s.head[0] = 40000;
    s.head[1] = 100;
    s.prev[5] = 32768;
    s.slide_hash();
    assert_eq!(s.head[0], 40000 - 32768);
    assert_eq!(s.head[1], 0);
    assert_eq!(s.prev[5], 0);
}

/// Checks that the first `n` lengths of `tree` fill the Kraft inequality exactly and that the
/// codes are their canonical codes (RFC 1951, 3.2.2), bit-reversed.
fn assert_complete_canonical(tree: &[CtData], n: usize, max_len: u16) {
    let mut count = [0u32; 16];
    for c in &tree[..n] {
        assert!(c.dl <= max_len);
        count[c.dl as usize] += 1;
    }
    let kraft: u32 = (1..16).map(|b| count[b] << (15 - b)).sum();
    assert_eq!(kraft, 1 << 15);
    let mut next = [0u32; 16];
    let mut code = 0u32;
    for b in 1..16 {
        code = (code + if b == 1 { 0 } else { count[b - 1] }) << 1;
        next[b] = code;
    }
    for c in &tree[..n] {
        if c.dl != 0 {
            let expected = next[c.dl as usize];
            next[c.dl as usize] += 1;
            assert_eq!(c.fc as u32, bi_reverse(expected, c.dl as i32));
        }
    }
    // No code, most significant bit first, begins another.
    let codes: Vec<(u32, u16)> = tree[..n]
        .iter()
        .filter(|c| c.dl != 0)
        .map(|c| (bi_reverse(c.fc as u32, c.dl as i32), c.dl))
        .collect();
    for (a, &(ca, la)) in codes.iter().enumerate() {
        for (b, &(cb, lb)) in codes.iter().enumerate() {
            if a != b && la <= lb {
                assert_ne!(cb >> (lb - la), ca);
            }
        }
    }
}

fn fibonacci(n: usize) -> Vec<u16> {
    let mut f = vec![1u16, 1];
    while f.len() < n {
        let k = f.len();
        f.push(f[k - 1] + f[k - 2]);
    }
    f.truncate(n);
    f
}

#[test]
fn length_limited_literal_code_is_complete_and_canonical() {
    // Fibonacci frequencies give a Huffman tree 21 deep: zlib limits it to 15 bits.
    let mut s = DeflateState::new(b"");
    let mut tree = vec![CtData { fc: 0, dl: 0 }; 573];
    for (i, f) in fibonacci(22).into_iter().enumerate() {
        tree[i].fc = f;
    }
    let max_code = s.build_tree(&mut tree, TreeKind::Literal);
    assert_eq!(max_code, 21);
    assert!(tree[..22].iter().all(|c| c.dl >= 1));
    assert!(tree[..22].iter().any(|c| c.dl == 15));
    assert_complete_canonical(&tree, 286, 15);
}

#[test]
fn length_limited_code_length_code_is_complete_and_canonical() {
    // Nineteen Fibonacci frequencies, limited to 7 bits.
    let mut s = DeflateState::new(b"");
    let mut tree = vec![CtData { fc: 0, dl: 0 }; 39];
    for (i, f) in fibonacci(19).into_iter().enumerate() {
        tree[i].fc = f;
    }
    let max_code = s.build_tree(&mut tree, TreeKind::BitLength);
    assert_eq!(max_code, 18);
    assert!(tree[..19].iter().any(|c| c.dl == 7));
    assert_complete_canonical(&tree, 19, 7);
}

#[test]
fn a_single_symbol_gets_a_complete_code() {
    // zlib forces a second code, so even one used distance gives a complete code.
    let mut s = DeflateState::new(b"");
    let mut tree = vec![CtData { fc: 0, dl: 0 }; 61];
    tree[5].fc = 7;
    let max_code = s.build_tree(&mut tree, TreeKind::Distance);
    assert_eq!(max_code, 5);
    assert_eq!(tree[5].dl, 1);
    assert_complete_canonical(&tree, 30, 15);
}

#[test]
fn equal_nodes_follow_zlib_heap_order() {
    // Frequencies 2, 3, 2, 5, 1: on a tie of frequency and depth the heap takes the right
    // child, which gives lengths 2, 2, 3, 2, 3 (the left child would give 3, 2, 2, 2, 3).
    let mut s = DeflateState::new(b"");
    let mut tree = vec![CtData { fc: 0, dl: 0 }; 61];
    for (i, f) in [2u16, 3, 2, 5, 1].into_iter().enumerate() {
        tree[i].fc = f;
    }
    let max_code = s.build_tree(&mut tree, TreeKind::Distance);
    assert_eq!(max_code, 4);
    let lens: Vec<u16> = tree[..5].iter().map(|c| c.dl).collect();
    assert_eq!(lens, vec![2, 2, 3, 2, 3]);
}

#[test]
fn literal_tree_costs_are_frequency_times_length() {
    // Frequencies 5, 3, 1, 1 for four literals: lengths 1, 2, 3, 3.
    let mut s = DeflateState::new(b"");
    let mut tree = vec![CtData { fc: 0, dl: 0 }; 573];
    for (i, f) in [5u16, 3, 1, 1].into_iter().enumerate() {
        tree[65 + i].fc = f;
    }
    let max_code = s.build_tree(&mut tree, TreeKind::Literal);
    assert_eq!(max_code, 68);
    let lens: Vec<u16> = tree[65..69].iter().map(|c| c.dl).collect();
    assert_eq!(lens, vec![1, 2, 3, 3]);
    // 5*1 + 3*2 + 1*3 + 1*3 bits with these codes; with the fixed codes every literal
    // below 144 takes 8 bits.
    assert_eq!(s.opt_len, 17);
    assert_eq!(s.static_len, 10 * 8);
}

#[test]
fn a_forced_code_costs_one_bit_less() {
    // One distance code (5, with one extra bit) used 7 times: zlib adds code 0 with
    // frequency 1 and counts it one bit short, so the estimate is 7 * (1 + 1) + 0.
    let mut s = DeflateState::new(b"");
    let mut tree = vec![CtData { fc: 0, dl: 0 }; 61];
    tree[5].fc = 7;
    s.build_tree(&mut tree, TreeKind::Distance);
    assert_eq!((tree[0].dl, tree[5].dl), (1, 1));
    assert_eq!(s.opt_len, 14);
    // With the fixed codes: 7 * (5 + 1); the forced code counts nothing.
    assert_eq!(s.static_len, 42);
}

#[test]
fn with_no_symbol_used_two_codes_are_added() {
    // A block without matches: zlib gives distance codes 0 and 1 one bit each.
    let mut s = DeflateState::new(b"");
    let mut tree = vec![CtData { fc: 0, dl: 0 }; 61];
    let max_code = s.build_tree(&mut tree, TreeKind::Distance);
    assert_eq!(max_code, 1);
    assert_eq!((tree[0].dl, tree[1].dl), (1, 1));
    assert!(tree[2..30].iter().all(|c| c.dl == 0));
}

#[test]
fn with_symbol_zero_or_one_used_the_next_one_is_added() {
    for used in [0usize, 1] {
        let mut s = DeflateState::new(b"");
        let mut tree = vec![CtData { fc: 0, dl: 0 }; 61];
        tree[used].fc = 4;
        let max_code = s.build_tree(&mut tree, TreeKind::Distance);
        assert_eq!(max_code as usize, used + 1);
        assert_eq!((tree[used].dl, tree[used + 1].dl), (1, 1));
        let others = (0..30).filter(|&n| n != used && n != used + 1);
        assert!(others.into_iter().all(|n| tree[n].dl == 0));
    }
}

#[test]
fn merges_take_the_least_frequent_nodes_first() {
    // Frequencies 5, 3, 1, 1 for literals 65..=68: first the two 1s merge into node 286
    // (frequency 2), then 286 and 66 into 287 (frequency 5), then 65 and 287, the tie on
    // frequency going to the shallower node 65.
    let mut s = DeflateState::new(b"");
    let mut tree = vec![CtData { fc: 0, dl: 0 }; 573];
    for (i, f) in [5u16, 3, 1, 1].into_iter().enumerate() {
        tree[65 + i].fc = f;
    }
    s.build_tree(&mut tree, TreeKind::Literal);
    let mut first = vec![s.heap[572], s.heap[571]];
    first.sort();
    assert_eq!(first, vec![67, 68]);
    assert_eq!(tree[286].fc, 2);
    let mut second = vec![s.heap[570], s.heap[569]];
    second.sort();
    assert_eq!(second, vec![66, 286]);
    assert_eq!(tree[287].fc, 5);
    assert_eq!((s.heap[568], s.heap[567]), (65, 287));
    assert_eq!(tree[288].fc, 10);
    assert_eq!((s.heap_max, s.heap[566]), (566, 288));
    assert_eq!((s.depth[286], s.depth[287], s.depth[288]), (1, 2, 3));
}

#[test]
fn compressed_symbols_leave_two_bytes_and_eleven_pending_bits() {
    // Literal 0 (8 bits), a copy of 4 bytes from 1 back (code 258 in 7 bits, distance
    // code 0 in 5 bits), then END_BLOCK (7 zero bits), with the fixed codes.
    let mut s = DeflateState::new(b"");
    s.tr_init();
    s.tr_tally(0, 0);
    s.tr_tally(1, 1);
    let lt = s.sd.static_ltree.clone();
    let dt = s.sd.static_dtree.clone();
    s.compress_block(&lt, &dt);
    assert_eq!(s.bw.out, vec![0x0c, 0x20]);
    assert_eq!((s.bw.bi_buf, s.bw.bi_valid), (0, 11));
}

/// A state with ten literals tallied for the first ten bytes of `input`.
fn ten_literals(input: &[u8]) -> DeflateState {
    let mut s = DeflateState::new(input);
    s.tr_init();
    s.fill_window(input);
    for i in 0..10 {
        let c = s.window[i] as usize;
        s.tr_tally(0, c);
    }
    s.strstart = 10;
    s.lookahead -= 10;
    s
}

#[test]
fn flush_block_is_tr_flush_block_then_a_new_block_start() {
    let input: Vec<u8> = (0..300u32).map(|i| (i * 7 % 11) as u8).collect();
    let mut a = ten_literals(&input);
    let mut b = ten_literals(&input);
    a.flush_block(false);
    b.tr_flush_block(Some(0), 10, false);
    b.block_start = b.strstart as isize;
    assert!(!a.bw.out.is_empty() || a.bw.bi_valid > 0);
    assert_eq!(a.bw.out, b.bw.out);
    assert_eq!((a.bw.bi_buf, a.bw.bi_valid), (b.bw.bi_buf, b.bw.bi_valid));
    assert_eq!((a.block_start, a.sym_next), (10, 0));
    assert_eq!((b.block_start, b.sym_next), (10, 0));
}

#[test]
fn read_buf_near_the_window_end_reads_only_what_is_left() {
    let input = [7u8, 8, 9];
    let mut s = DeflateState::new(&input);
    let n = s.read_buf(&input, 65530, 100);
    assert_eq!(n, 3);
    assert_eq!(&s.window[65530..65533], &input);
    assert_eq!((s.next_in, s.avail_in), (3, 0));
}
