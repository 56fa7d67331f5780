//! The match finder: zlib's hash chains (`UPDATE_HASH`, `INSERT_STRING`) and
//! `longest_match`, which walks the chain of earlier strings with the same hash and keeps the
//! longest match, preferring the nearer of two equally long ones.
//!
//! The hash of three bytes is `(b0 << 10) ^ (b1 << 5) ^ b2` over 15 bits, so two strings
//! with the same hash and the same first two bytes have the same third byte: the match
//! finder never compares the third byte.
use vstd::prelude::*;
use crate::deflate::{DeflateState, WINDOW_SIZE, W_SIZE, HASH_SIZE, MIN_LOOKAHEAD, GOOD_MATCH, NICE_MATCH};
use crate::tables::{MIN_MATCH, MAX_MATCH};

verus! {

/// zlib's rolling hash: shift the previous value and mix in the next byte (`UPDATE_HASH`).
pub open spec fn next_hash(h: u32, c: u8) -> u32 {
    ((h << 5u32) ^ (c as u32)) & 32767u32
}

/// The 15-bit hash of three bytes.
pub open spec fn hash_of(b0: u8, b1: u8, b2: u8) -> u32 {
    (((b0 as u32) << 10u32) ^ ((b1 as u32) << 5u32) ^ (b2 as u32)) & 32767u32
}

/// The hash of the three bytes of `w` at `p`.
pub open spec fn hash3(w: Seq<u8>, p: int) -> u32 {
    hash_of(w[p], w[p + 1], w[p + 2])
}

/// The running hash `h` has hashed `b0` and `b1` last: rolling in a third byte gives the
/// hash of the three.
pub open spec fn hash_prefix(h: u32, b0: u8, b1: u8) -> bool {
    h & 1023u32 == (((b0 as u32) << 5u32) ^ (b1 as u32)) & 1023u32
}

/// The chain link stored for the string at `c` is `NIL` or an earlier string with the same
/// hash.
pub open spec fn chain_ok(w: Seq<u8>, prev: Seq<u16>, c: int) -> bool {
    let v = prev[c % 32768] as int;
    v == 0 || (v < c && hash3(w, v) == hash3(w, c))
}

/// The `len` bytes at `start` (fewer than `MAX_DIST` bytes back, and not at the window's
/// first byte) are the `len` bytes at `strstart`.
pub open spec fn match_found(w: Seq<u8>, strstart: int, start: int, len: int) -> bool {
    &&& 0 < start < strstart
    &&& strstart - start <= W_SIZE - MIN_LOOKAHEAD
    &&& forall|i: int| 0 <= i < len ==> #[trigger] w[start + i] == w[strstart + i]
}

/// The length of the common prefix of the strings at `a` and `b`, counted on from `k` (the
/// bytes before `k` are taken as equal), and at most `MAX_MATCH`.
pub open spec fn common_len(w: Seq<u8>, a: int, b: int, k: int) -> int
    decreases MAX_MATCH - k,
{
    if k >= MAX_MATCH || w[a + k] != w[b + k] {
        k
    } else {
        common_len(w, a, b, k + 1)
    }
}

/// The walk of `longest_match` along a hash chain: from candidate `c`, with `chain`
/// candidates allowed, the best match so far being `best` bytes at `start`. A candidate
/// replaces the best only with a longer match; the walk stops at a match of `nice` bytes,
/// at a link at or below `limit`, or when no candidate is left. Returns the best length and
/// where that match starts.
pub open spec fn chain_walk(
    w: Seq<u8>,
    prev: Seq<u16>,
    s: int,
    c: int,
    chain: int,
    best: int,
    start: int,
    nice: int,
    limit: int,
) -> (int, int)
    decreases chain,
{
    let l = common_len(w, c, s, 0);
    let best1 = if l > best { l } else { best };
    let start1 = if l > best { c } else { start };
    if l > best && l >= nice {
        (best1, start1)
    } else {
        let next = prev[c % 32768] as int;
        if next <= limit || chain <= 1 {
            (best1, start1)
        } else {
            chain_walk(w, prev, s, next, chain - 1, best1, start1, nice, limit)
        }
    }
}

/// Bytes that agree do not change the common prefix.
pub proof fn lemma_common_skip(w: Seq<u8>, a: int, b: int, k: int, j: int)
    requires
        0 <= k <= j <= MAX_MATCH,
        forall|i: int| k <= i < j ==> #[trigger] w[a + i] == w[b + i],
    ensures
        common_len(w, a, b, k) == common_len(w, a, b, j),
    decreases j - k,
{
    if k < j {
        assert(w[a + k] == w[b + k]);
        lemma_common_skip(w, a, b, k + 1, j);
    }
}

/// A byte that differs bounds the common prefix.
pub proof fn lemma_common_mismatch(w: Seq<u8>, a: int, b: int, k: int, j: int)
    requires
        0 <= k <= j < MAX_MATCH,
        w[a + j] != w[b + j],
    ensures
        common_len(w, a, b, k) <= j,
    decreases j - k,
{
    if k < j && w[a + k] == w[b + k] {
        lemma_common_mismatch(w, a, b, k + 1, j);
    }
}

/// The common prefix is common.
pub proof fn lemma_common_prefix(w: Seq<u8>, a: int, b: int, k: int)
    requires
        0 <= k <= MAX_MATCH,
    ensures
        k <= common_len(w, a, b, k) <= MAX_MATCH,
        forall|i: int| k <= i < common_len(w, a, b, k) ==> #[trigger] w[a + i] == w[b + i],
    decreases MAX_MATCH - k,
{
    if k < MAX_MATCH && w[a + k] == w[b + k] {
        lemma_common_prefix(w, a, b, k + 1);
    }
}

/// Rolling a byte into a running hash that has hashed `b0` and `b1` gives the hash of the
/// three bytes, and a running hash that has hashed `b1` and `c`.
pub proof fn lemma_next_hash(h: u32, b0: u8, b1: u8, c: u8)
    requires
        hash_prefix(h, b0, b1),
    ensures
        next_hash(h, c) == hash_of(b0, b1, c),
        hash_prefix(next_hash(h, c), b1, c),
{
    assert(((h << 5u32) ^ (c as u32)) & 32767u32 == (((b0 as u32) << 10u32) ^ ((b1 as u32) << 5u32) ^ (c as u32))
        & 32767u32) by (bit_vector)
        requires
            h & 1023u32 == (((b0 as u32) << 5u32) ^ (b1 as u32)) & 1023u32,
    ;
    assert((((h << 5u32) ^ (c as u32)) & 32767u32) & 1023u32 == (((b1 as u32) << 5u32) ^ (c as u32)) & 1023u32)
        by (bit_vector)
        requires
            h & 1023u32 == (((b0 as u32) << 5u32) ^ (b1 as u32)) & 1023u32,
    ;
}

/// Starting the running hash with `b0` and rolling in `b1` gives a hash that has hashed
/// `b0` and `b1`.
pub proof fn lemma_hash_start(b0: u8, b1: u8)
    ensures
        hash_prefix(next_hash(b0 as u32, b1), b0, b1),
{
    assert((((b0 as u32) << 5u32) ^ (b1 as u32)) & 32767u32 & 1023u32 == (((b0 as u32) << 5u32) ^ (b1 as u32))
        & 1023u32) by (bit_vector);
}

/// Two strings with the same hash and the same first two bytes have the same third byte.
pub proof fn lemma_hash_third(a0: u8, a1: u8, a2: u8, b2: u8)
    requires
        hash_of(a0, a1, a2) == hash_of(a0, a1, b2),
    ensures
        a2 == b2,
{
    assert(a2 == b2) by (bit_vector)
        requires
            (((a0 as u32) << 10u32) ^ ((a1 as u32) << 5u32) ^ (a2 as u32)) & 32767u32 == (((a0 as u32) << 10u32)
                ^ ((a1 as u32) << 5u32) ^ (b2 as u32)) & 32767u32,
    ;
}

/// The hash table and chains of a window whose strings before `s` have been inserted, with
/// the data ending at `end`: a chain head is an earlier string, whose three bytes are in the
/// data and have the head's hash; the link of each recent string of the data is `NIL` or an
/// earlier string with the same hash; and the running hash has hashed the two bytes at `s`.
pub open spec fn hash_chains_ok(w: Seq<u8>, head: Seq<u16>, prev: Seq<u16>, ins_h: u32, s: int, end: int) -> bool {
    &&& forall|h: int|
        0 <= h < HASH_SIZE && #[trigger] head[h] != 0 ==> head[h] < s && head[h] + MIN_MATCH <= end && hash3(
            w,
            head[h] as int,
        ) == h
    &&& forall|c: int|
        0 < c < s && s - c <= W_SIZE - MIN_LOOKAHEAD && c + MIN_MATCH <= end ==> #[trigger] chain_ok(w, prev, c)
    &&& s + MIN_MATCH <= end ==> hash_prefix(ins_h, w[s], w[s + 1])
}

/// Inserting the string at `s` (`INSERT_STRING`) keeps the chains consistent, now with the
/// strings before `s + 1`; the previous chain head it returns is `NIL` or an earlier string
/// with the same hash as the string at `s`.
pub proof fn lemma_insert_hash(w: Seq<u8>, head: Seq<u16>, prev: Seq<u16>, ins_h: u32, s: int, end: int)
    requires
        hash_chains_ok(w, head, prev, ins_h, s, end),
        0 <= s,
        s + MIN_MATCH <= end <= w.len(),
        end <= WINDOW_SIZE,
        head.len() == HASH_SIZE,
        prev.len() == W_SIZE,
    ensures
        ({
            let h = next_hash(ins_h, w[s + 2]);
            let head1 = head.update(h as int, s as u16);
            let prev1 = prev.update(s % 32768, head[h as int]);
            &&& h == hash3(w, s)
            &&& head[h as int] != 0 ==> head[h as int] < s && hash3(w, head[h as int] as int) == hash3(w, s)
            &&& hash_chains_ok(w, head1, prev1, h, s + 1, end)
            &&& forall|c: int|
                0 < c < s && s - c <= W_SIZE - MIN_LOOKAHEAD && c + MIN_MATCH <= end ==> #[trigger] chain_ok(w, prev1, c)
        }),
{
    let h = next_hash(ins_h, w[s + 2]);
    lemma_next_hash(ins_h, w[s], w[s + 1], w[s + 2]);
    let c2 = w[s + 2];
    assert(h < 32768) by (bit_vector)
        requires
            h == ((ins_h << 5u32) ^ (c2 as u32)) & 32767u32,
    ;
    let head1 = head.update(h as int, s as u16);
    let prev1 = prev.update(s % 32768, head[h as int]);
    assert(head[h as int] != 0 ==> head[h as int] < s && hash3(w, head[h as int] as int) == hash3(w, s));
    assert forall|g: int| 0 <= g < HASH_SIZE && #[trigger] head1[g] != 0 implies head1[g] < s + 1 && head1[g]
        + MIN_MATCH <= end && hash3(w, head1[g] as int) == g by {
        if g != h {
            assert(head1[g] == head[g]);
        }
    }
    assert forall|c: int|
        0 < c < s && s - c <= W_SIZE - MIN_LOOKAHEAD && c + MIN_MATCH <= end implies #[trigger] chain_ok(w, prev1, c) by {
        assert(chain_ok(w, prev, c));
        assert(c % 32768 != s % 32768);
    }
    assert forall|c: int|
        0 < c < s + 1 && s + 1 - c <= W_SIZE - MIN_LOOKAHEAD && c + MIN_MATCH <= end implies #[trigger] chain_ok(
        w,
        prev1,
        c,
    ) by {
        if c < s {
            assert(chain_ok(w, prev, c));
            assert(c % 32768 != s % 32768);
        } else {
            assert(prev1[s % 32768] == head[h as int]);
        }
    }
}

/// Passing the string at `s` without inserting it, where its three bytes are not all in
/// the data, keeps the chains consistent.
pub proof fn lemma_skip_hash(w: Seq<u8>, head: Seq<u16>, prev: Seq<u16>, ins_h: u32, s: int, end: int)
    requires
        hash_chains_ok(w, head, prev, ins_h, s, end),
        s + MIN_MATCH > end,
    ensures
        hash_chains_ok(w, head, prev, ins_h, s + 1, end),
{
    assert forall|c: int|
        0 < c < s + 1 && s + 1 - c <= W_SIZE - MIN_LOOKAHEAD && c + MIN_MATCH <= end implies #[trigger] chain_ok(
        w,
        prev,
        c,
    ) by {
        assert(c < s);
    }
}

/// The hash table after inserting the string at `p` (`head`, `prev`, the running hash):
/// the hash rolls in the byte at `p + 2`, `prev` of `p` takes the chain's old head, and the
/// chain's head becomes `p`.
pub open spec fn hash_insert(t: (Seq<u16>, Seq<u16>, u32), w: Seq<u8>, p: int) -> (Seq<u16>, Seq<u16>, u32) {
    let h = next_hash(t.2, w[p + 2]);
    (t.0.update(h as int, p as u16), t.1.update(p % 32768, t.0[h as int]), h)
}

/// The hash table after inserting the strings at `from..to`, in order.
pub open spec fn insert_run(t: (Seq<u16>, Seq<u16>, u32), w: Seq<u8>, from: int, to: int) -> (Seq<u16>, Seq<u16>, u32)
    decreases to - from,
{
    if to <= from {
        t
    } else {
        hash_insert(insert_run(t, w, from, to - 1), w, to - 1)
    }
}

impl DeflateState {
    /// `UPDATE_HASH(s, ins_h, c)`: roll the running hash with the next byte.
    pub fn update_hash(&mut self, c: u8)
        requires
            old(self).config_ok(),
        ensures
            *final(self) == (DeflateState { ins_h: next_hash(old(self).ins_h, c), ..*old(self) }),
            final(self).config_ok(),
    {
        let h0: u32 = self.ins_h;
        let h: u32 = ((h0 << self.hash_shift) ^ (c as u32)) & self.hash_mask;
        assert(h <= 32767) by (bit_vector)
            requires
                h == ((h0 << 5u32) ^ (c as u32)) & 32767u32,
        ;
        self.ins_h = h;
    }

    /// `INSERT_STRING(s, str, match_head)`: hash the three bytes at `str` into `ins_h`, link
    /// `str` in front of its hash chain, and return the previous head of that chain.
    pub fn insert_string(&mut self, str: usize) -> (match_head: usize)
        requires
            old(self).config_ok(),
            str + 2 < WINDOW_SIZE,
        ensures
            final(self).config_ok(),
            final(self).ins_h == next_hash(old(self).ins_h, old(self).window[str + 2]),
            match_head == old(self).head[final(self).ins_h as int],
            *final(self) == (DeflateState {
                ins_h: final(self).ins_h,
                prev: final(self).prev,
                head: final(self).head,
                ..*old(self)
            }),
            final(self).prev@ == old(self).prev@.update((str % 32768) as int, old(self).head[final(self).ins_h as int]),
            final(self).head@ == old(self).head@.update(final(self).ins_h as int, str as u16),
    {
        let c: u8 = self.window[str + MIN_MATCH - 1];
        self.update_hash(c);
        let h: usize = self.ins_h as usize;
        let match_head: u16 = self.head[h];
        let slot: usize = str & self.w_mask;
        assert(slot == str % 32768) by (bit_vector)
            requires
                slot == str & 32767usize,
        ;
        self.prev.set(slot, match_head);
        self.head.set(h, str as u16);
        match_head as usize
    }

    /// `longest_match(cur_match)`: walk the hash chain from `cur_match` and return the length
    /// of the longest match with the string at `strstart` (at most `lookahead`), setting
    /// `match_start` to where it begins. Of equally long matches the first found, the
    /// nearest, is kept; a match no longer than `prev_length` is not taken, and then
    /// `match_start` stays as it was. The walk visits at most `max_chain_length` strings (a
    /// quarter of them when `prev_length` is at least `good_match`), and stops at a match of
    /// `nice_match` bytes (at most `lookahead`) or at a link more than `MAX_DIST` back.
    ///
    /// A match that is taken is real: it begins at most `MAX_DIST` bytes back and its bytes
    /// are those at `strstart`.
    pub fn longest_match(&mut self, cur_match0: usize) -> (len: usize)
        requires
            old(self).config_ok(),
            MIN_MATCH <= old(self).lookahead,
            old(self).strstart + old(self).lookahead <= WINDOW_SIZE,
            old(self).strstart <= WINDOW_SIZE - MIN_LOOKAHEAD,
            MIN_MATCH - 1 <= old(self).prev_length < MAX_MATCH,
            0 < cur_match0 < old(self).strstart,
            old(self).strstart - cur_match0 <= W_SIZE - MIN_LOOKAHEAD,
            hash3(old(self).window@, cur_match0 as int) == hash3(old(self).window@, old(self).strstart as int),
            forall|c: int|
                0 < c < old(self).strstart && old(self).strstart - c <= W_SIZE - MIN_LOOKAHEAD ==> #[trigger] chain_ok(
                    old(self).window@,
                    old(self).prev@,
                    c,
                ),
        ensures
            *final(self) == (DeflateState { match_start: final(self).match_start, ..*old(self) }),
            ({
                let s = old(self).strstart as int;
                let chain: int = if old(self).prev_length >= GOOD_MATCH { 1024 } else { 4096 };
                let nice: int = if old(self).lookahead < NICE_MATCH { old(self).lookahead as int } else { NICE_MATCH as int };
                let limit: int = if s > W_SIZE - MIN_LOOKAHEAD { s - (W_SIZE - MIN_LOOKAHEAD) } else { 0 };
                let r = chain_walk(
                    old(self).window@,
                    old(self).prev@,
                    s,
                    cur_match0 as int,
                    chain,
                    old(self).prev_length as int,
                    old(self).match_start as int,
                    nice,
                    limit,
                );
                &&& len == if r.0 <= old(self).lookahead { r.0 } else { old(self).lookahead as int }
                &&& final(self).match_start == r.1
            }),
            MIN_MATCH - 1 <= len <= MAX_MATCH,
            len <= old(self).lookahead,
            final(self).match_start != old(self).match_start || len > old(self).prev_length ==> match_found(
                old(self).window@,
                old(self).strstart as int,
                final(self).match_start as int,
                len as int,
            ),
    {
        let mut chain_length: usize = self.max_chain_length;
        let strstart: usize = self.strstart;
        let mut best_len: usize = self.prev_length;
        let mut nice_match: usize = self.nice_match;
        let max_dist: usize = self.max_dist();
        // `strstart > MAX_DIST ? strstart - MAX_DIST : NIL`
        let limit: usize = strstart.saturating_sub(max_dist);
        let w_mask: usize = self.w_mask;
        let strend: usize = strstart + MAX_MATCH;
        let mut cur_match: usize = cur_match0;
        let ghost w = self.window@;

        let mut scan_end1: u8 = self.window[strstart + best_len - 1];
        let mut scan_end: u8 = self.window[strstart + best_len];

        // Do not waste too much time if we already have a good match.
        if self.prev_length >= self.good_match {
            assert(4096usize >> 2usize == 1024usize) by (bit_vector);
            chain_length = chain_length >> 2;
        }
        // Do not look for matches beyond the end of the input.
        if nice_match > self.lookahead {
            nice_match = self.lookahead;
        }
        let ghost res = chain_walk(
            w,
            self.prev@,
            strstart as int,
            cur_match0 as int,
            chain_length as int,
            best_len as int,
            self.match_start as int,
            nice_match as int,
            limit as int,
        );

        loop
            invariant_except_break
                1 <= chain_length <= 4096,
                best_len < MAX_MATCH,
                scan_end1 == w[strstart + best_len - 1],
                scan_end == w[strstart + best_len],
                0 < cur_match < strstart,
                strstart - cur_match <= W_SIZE - MIN_LOOKAHEAD,
                hash3(w, cur_match as int) == hash3(w, strstart as int),
                chain_walk(
                    w,
                    self.prev@,
                    strstart as int,
                    cur_match as int,
                    chain_length as int,
                    best_len as int,
                    self.match_start as int,
                    nice_match as int,
                    limit as int,
                ) == res,
            invariant
                *self == (DeflateState { match_start: self.match_start, ..*old(self) }),
                w == self.window@,
                self.config_ok(),
                strstart == self.strstart,
                strend == strstart + MAX_MATCH,
                strstart <= WINDOW_SIZE - MIN_LOOKAHEAD,
                limit == if strstart >= W_SIZE - MIN_LOOKAHEAD { strstart - (W_SIZE - MIN_LOOKAHEAD) } else { 0 },
                w_mask == 32767,
                self.prev_length <= best_len <= MAX_MATCH,
                MIN_MATCH - 1 <= self.prev_length,
                nice_match <= MAX_MATCH,
                forall|c: int|
                    0 < c < strstart && strstart - c <= W_SIZE - MIN_LOOKAHEAD ==> #[trigger] chain_ok(w, self.prev@, c),
                self.match_start != old(self).match_start || best_len > self.prev_length ==> match_found(
                    w,
                    strstart as int,
                    self.match_start as int,
                    best_len as int,
                ),
            ensures
                (best_len as int, self.match_start as int) == res,
            decreases chain_length,
        {
            let m: usize = cur_match;
            proof {
                lemma_common_prefix(w, m as int, strstart as int, 0);
            }
            if self.window[m + best_len] != scan_end || self.window[m + best_len - 1] != scan_end1
                || self.window[m] != self.window[strstart] || self.window[m + 1] != self.window[strstart + 1] {
                // The match cannot be longer, or its first two bytes differ.
                proof {
                    let a = m as int;
                    let b = strstart as int;
                    if w[a + best_len] != w[b + best_len] {
                        lemma_common_mismatch(w, a, b, 0, best_len as int);
                    } else if w[a + best_len - 1] != w[b + best_len - 1] {
                        lemma_common_mismatch(w, a, b, 0, best_len - 1);
                    } else if w[a + 0] != w[b + 0] {
                        lemma_common_mismatch(w, a, b, 0, 0);
                    } else {
                        lemma_common_mismatch(w, a, b, 0, 1);
                    }
                }
            } else {
                // The first two bytes match, and so does the third (same hash); compare
                // the rest eight at a time, checking the end only after each eight.
                proof {
                    lemma_hash_third(w[m as int], w[m + 1], w[m + 2], w[strstart + 2]);
                }
                let mut scan_i: usize = strstart + 2;
                let mut match_i: usize = m + 2;
                let mut go: bool = true;
                while go
                    invariant
                        w == self.window@,
                        self.window.len() == WINDOW_SIZE,
                        strend == strstart + MAX_MATCH,
                        strstart <= WINDOW_SIZE - MIN_LOOKAHEAD,
                        m < strstart,
                        strstart + 2 <= scan_i <= strend,
                        match_i == m + (scan_i - strstart),
                        go ==> (scan_i - strstart - 2) % 8 == 0 && scan_i < strend,
                        forall|j: int| 3 <= j < scan_i - strstart ==> #[trigger] w[m + j] == w[strstart + j],
                        go ==> scan_i == strstart + 2 || w[match_i as int] == w[scan_i as int],
                        !go ==> scan_i == strend || w[match_i as int] != w[scan_i as int],
                    decreases strend - scan_i + (if go { 1int } else { 0 }),
                {
                    let ghost top: int = scan_i as int;
                    let mut k: usize = 0;
                    let mut matched: bool = true;
                    while k < 8 && matched
                        invariant
                            w == self.window@,
                            self.window.len() == WINDOW_SIZE,
                            strend == strstart + MAX_MATCH,
                            strstart <= WINDOW_SIZE - MIN_LOOKAHEAD,
                            m < strstart,
                            k <= 8,
                            scan_i == top + k,
                            top + 8 <= strend,
                            strstart + 2 <= top,
                            match_i == m + (scan_i - strstart),
                            forall|j: int| 3 <= j < scan_i - strstart ==> #[trigger] w[m + j] == w[strstart + j],
                            matched ==> scan_i == strstart + 2 || w[match_i as int] == w[scan_i as int],
                            !matched ==> w[match_i as int] != w[scan_i as int],
                        decreases 8 - k,
                    {
                        proof {
                            if scan_i != strstart + 2 {
                                assert(w[m + (scan_i - strstart)] == w[strstart + (scan_i - strstart)]);
                            }
                        }
                        scan_i += 1;
                        match_i += 1;
                        if self.window[scan_i] != self.window[match_i] {
                            matched = false;
                        }
                        k += 1;
                    }
                    go = matched && scan_i < strend;
                }

                let len: usize = MAX_MATCH - (strend - scan_i);
                proof {
                    let a = m as int;
                    let b = strstart as int;
                    assert forall|i: int| 0 <= i < 3 implies #[trigger] w[a + i] == w[b + i] by {
                        if i == 2 {
                            assert(w[a + 2] == w[b + 2]);
                        }
                    }
                    lemma_common_skip(w, a, b, 0, 3);
                    lemma_common_skip(w, a, b, 3, len as int);
                    assert(common_len(w, a, b, 0) == len);
                }

                if len > best_len {
                    self.match_start = cur_match;
                    best_len = len;
                    if len >= nice_match {
                        break;
                    }
                    scan_end1 = self.window[strstart + best_len - 1];
                    scan_end = self.window[strstart + best_len];
                }
            }

            // while ((cur_match = prev[cur_match & wmask]) > limit && --chain_length != 0)
            let slot: usize = cur_match & w_mask;
            assert(slot == cur_match % 32768) by (bit_vector)
                requires
                    slot == cur_match & 32767usize,
            ;
            proof {
                assert(chain_ok(w, self.prev@, cur_match as int));
            }
            cur_match = self.prev[slot] as usize;
            if cur_match <= limit {
                break;
            }
            chain_length -= 1;
            if chain_length == 0 {
                break;
            }
        }

        if best_len <= self.lookahead {
            best_len
        } else {
            self.lookahead
        }
    }
}

} // verus!
