# zlib_bitexact_rs

A raw DEFLATE encoder (RFC 1951) that produces the byte stream of stock zlib 1.3.1's
`deflate` for one configuration: `deflateInit2(9, Z_DEFLATED, -15, 8, Z_DEFAULT_STRATEGY)`
followed by a single `deflate(Z_FINISH)` over the whole input. It is written in Verus, and
its behaviour is stated in `requires` / `ensures` contracts that Verus proves.

```rust
let raw = zlib_bitexact_rs::deflate_raw(b"the quick brown fox jumps over the lazy dog");
```

## What is proved

`deflate_raw(input)` returns a raw DEFLATE stream of `input`: a sequence of blocks, only
the last marked last, padded with zero bits to a byte boundary, where

- each block is a stored block (its header, padding, the length and its complement, and
  the input bytes it covers), a block with the fixed codes of RFC 1951, or a block with
  dynamic codes whose tree description sends exactly the code lengths of its trees (with
  zlib's run-length coding, every code-length symbol having a code);
- in a dynamic block, the literal/length, distance and code-length codes are the canonical
  codes (RFC 1951, 3.2.2) of the lengths the header sends, and those lengths fill the Kraft
  inequality exactly; this holds also when zlib has to limit the lengths to 15 (7) bits; and
  canonical codes whose lengths fill the Kraft inequality are proved to be prefix codes
  (`kraft::lemma_prefix_free`, `trees::lemma_dynamic_codes_prefix_free`), so a dynamic
  block's bits decode one way only;
- in a dynamic block, the literal/length and distance codes are the Huffman codes that zlib
  builds from the frequencies of the block's own symbols (with the one end-of-block code),
  and the code-length code is the one it builds from the frequencies of the code-length
  symbols the header sends (see below for what "the Huffman codes zlib builds" states);
- every literal and match of every block is sent with a code of its tree;
- the LZ77 symbols of all blocks, decoded in order (literals, and copies from up to 32 KiB
  back), give back `input`.

Along the way each step has an exact contract: the bit writer, the fixed tables, canonical
code generation, the sliding window and its refill, the hash chains, the match finder (the
longest match along the chain, nearest first among equals), symbol tallying, and the three
block encodings. The bit writer's state is fixed, not only the bits it holds: each send
states which bytes it writes and what stays in the buffer; the code, symbol, tree-description
and block senders state how many bits wait afterwards (`bitwriter::sent_after`), and a
stored block or the last block leaves none (`trees::tr_flush_effect`); and a writer is fixed
by its bits and that count (`bitwriter::lemma_split_fixed`).

Each block's encoding is the one zlib picks, and this is stated of every block of the
output (`trees::zlib_choice`): the cost estimates with the Huffman trees of the block's
frequencies and with the fixed trees (stated exactly, as sums over the symbols of
frequency times code length plus extra bits and header bits, with zlib's one-bit allowance
for a forced code) are compared as `_tr_flush_block` compares them, to choose stored, fixed
or dynamic. A dynamic block's header sends its counts up to the last symbol with a code,
and its code lengths run-length coded, as zlib does.

Each step of the lazy matcher (`lazy_step`) sends the symbol that zlib's rule picks from
the state it starts in: the pending match unless the longest match found at the next
position (nearest first among equals, within zlib's chain limits) is longer, else a literal;
and it says exactly which state it leaves: the position, the pending match, and the hash
chains with the strings it inserted. The refill (`fill_window`) says exactly what it reads
and how it slides. From these, `deflate_raw` states that the LZ77 symbols of its output are
those of a run of such rounds from a fresh state, each round keeping level 9's fixed
configuration, followed by the literal still waiting at the end; that every block but the
last holds a full buffer of 16383 symbols; and that the last holds what the buffer held at
the end, fewer than 16383 symbols, and that literal (`deflate::is_lazy_deflate`). Whether
a block may be stored is fixed too: its bytes are offered as a stored block exactly when
they start no earlier than the window did in the round whose symbol filled its buffer (at
the end, for the last block) (`deflate::flush_rounds`).

The tree builder (`build_tree`) follows Huffman's rule: each merge takes off the heap a
node of least frequency (ties broken by depth), the new node has the sum of the two
frequencies, and the code lengths are the depths in the tree so built, limited to 15 (7)
bits by zlib's own repair of the length counts (`gen_bitlen` is stated exactly); the
leaves are the symbols used, and the ones zlib adds when fewer than two are. Among nodes
of equal frequency and depth the order is zlib's too: the heap routine is stated exactly
(`trees::sift`), and the nodes the builder takes off the heap are those of zlib's heap,
merge by merge, as a function of the frequencies alone (`heap_order::huffman_heap`).

Left open: no bound on the output's length (zlib's `deflateBound`) is stated, and no
inflater is written here: that any RFC 1951 inflater reads the output is stated through
the block formats, the prefix-free codes and the symbols that rebuild the input.

## Layout

- `src/bitwriter.rs`: the least-significant-bit-first bit accumulator and its model, the
  sequence of bits written.
- `src/tables.rs`: tree elements, the length and distance code maps, the fixed trees,
  bit reversal and canonical code generation.
- `src/trees.rs`: Huffman tree construction, the code-length run-length coding, symbol
  emission and the block encodings.
- `src/kraft.rs`: the shape of the tree that the builder leaves in its heap, node depths,
  and the sums behind the Kraft equality of the code lengths, length limiting included.
- `src/heap_order.rs`: zlib's heap replayed on the part of the state it reads, which fixes
  the order of the merges.
- `src/longest_match.rs`: the hash chains and the match finder.
- `src/deflate.rs`: the sliding window, lazy matching and the one-shot drive.
- `tests/`: known outputs, round trips through an independent decoder, and the building
  blocks on concrete values.
