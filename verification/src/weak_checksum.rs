//! The weak rolling checksum of the rsync algorithm: a 32-bit value made of
//! two 16-bit partial sums over a byte window, cheap to advance by one byte.
//!
//! It does not guarantee that two equal checksums come from equal blocks; it
//! is a first-pass filter, and only windows that pass it are compared with
//! the strong checksum.

use vstd::prelude::*;
use vstd::arithmetic::div_mod::{
    lemma_add_mod_noop_right, lemma_mod_bound, lemma_mod_multiples_vanish,
};
use crate::{block_count, block_end, rolling_count, rolling_window, ChecksumConfig, Checksums};

verus! {

/// Sum of the bytes of `s`.
pub open spec fn sum_bytes(s: Seq<u8>) -> int
    decreases s.len(),
{
    if s.len() == 0 {
        0
    } else {
        sum_bytes(s.drop_last()) + s.last()
    }
}

/// Sum of `(s.len() - i) * s[i]` over all positions `i` of `s`: each byte
/// weighted by its distance to the end of the window, the last byte counting
/// once.
pub open spec fn weighted_sum(s: Seq<u8>) -> int
    decreases s.len(),
{
    if s.len() == 0 {
        0
    } else {
        weighted_sum(s.drop_last()) + sum_bytes(s)
    }
}

/// The low half of the weak checksum over the window `[k, l]` of `buf`:
/// the byte sum, reduced modulo `m`.
pub open spec fn weak_a(buf: Seq<u8>, k: int, l: int, m: int) -> int {
    sum_bytes(buf.subrange(k, l + 1)) % m
}

/// The high half of the weak checksum over the window `[k, l]` of `buf`:
/// the weighted sum `sum of (l - i + 1) * buf[i]`, reduced modulo `m`.
pub open spec fn weak_b(buf: Seq<u8>, k: int, l: int, m: int) -> int {
    weighted_sum(buf.subrange(k, l + 1)) % m
}

/// The composite 32-bit weak checksum over the window `[k, l]`: the high
/// half shifted into the upper 16 bits above the low half (the sum
/// `a + b * 2^16`, truncated to 32 bits).
pub open spec fn weak_checksum(buf: Seq<u8>, k: int, l: int, m: int) -> u32 {
    ((weak_a(buf, k, l, m) + weak_b(buf, k, l, m) * 0x10000) % 0x1_0000_0000) as u32
}

/// Sum of the bytes, taken from the front: peeling the first byte off a
/// non-empty sequence removes exactly its value from the sum.
pub proof fn lemma_sum_bytes_drop_first(s: Seq<u8>)
    requires
        s.len() > 0,
    ensures
        sum_bytes(s) == s[0] + sum_bytes(s.drop_first()),
    decreases s.len(),
{
    if s.len() == 1 {
        assert(s.drop_last() =~= Seq::<u8>::empty());
        assert(s.drop_first() =~= Seq::<u8>::empty());
    } else {
        lemma_sum_bytes_drop_first(s.drop_last());
        assert(s.drop_last().drop_first() =~= s.drop_first().drop_last());
        assert(s.drop_first().last() == s.last());
    }
}

/// Weighted sum, taken from the front: the first byte of a window of width
/// `n` carries weight `n`.
pub proof fn lemma_weighted_sum_drop_first(s: Seq<u8>)
    requires
        s.len() > 0,
    ensures
        weighted_sum(s) == s.len() * s[0] + weighted_sum(s.drop_first()),
    decreases s.len(),
{
    if s.len() == 1 {
        assert(s.drop_last() =~= Seq::<u8>::empty());
        assert(s.drop_first() =~= Seq::<u8>::empty());
        assert(sum_bytes(Seq::<u8>::empty()) == 0);
        assert(weighted_sum(Seq::<u8>::empty()) == 0);
        assert(sum_bytes(s) == s[0]);
    } else {
        let dl = s.drop_last();
        let df = s.drop_first();
        lemma_weighted_sum_drop_first(dl);
        lemma_sum_bytes_drop_first(s);
        assert(df.drop_last() =~= dl.drop_first());
        assert(weighted_sum(s) == weighted_sum(dl) + sum_bytes(s));
        assert(weighted_sum(df) == weighted_sum(df.drop_last()) + sum_bytes(df));
        assert(weighted_sum(s) == (s.len() - 1) * s[0] + weighted_sum(df) + s[0]);
        assert((s.len() - 1) * s[0] + s[0] == s.len() * s[0]) by (nonlinear_arith);
    }
}

/// The configuration of the weak checksum: the modulus of both partial sums
/// (typically `2^16`) and the width of the window.
#[derive(Debug, Clone, Copy)]
pub struct WeakCheckSum {
    modulus: u32,
    block_size: usize,
}

/// Step-by-step constructor for a [`WeakCheckSum`]; unset parameters fall
/// back to the defaults (modulus `2^16`, block size 1000).
#[derive(Debug)]
pub struct WeakCheckSumBuilder {
    modulus: Option<u32>,
    block_size: Option<usize>,
}

impl WeakCheckSumBuilder {
    pub closed spec fn spec_modulus(self) -> Option<u32> {
        self.modulus
    }

    pub closed spec fn spec_block_size(self) -> Option<usize> {
        self.block_size
    }

    pub fn new() -> (r: Self)
        ensures
            r.spec_modulus() is None,
            r.spec_block_size() is None,
    {
        Self { modulus: None, block_size: None }
    }

    pub fn modulus(self, modulus: u32) -> (r: Self)
        ensures
            r.spec_modulus() == Some(modulus),
            r.spec_block_size() == self.spec_block_size(),
    {
        Self { modulus: Some(modulus), ..self }
    }

    pub fn block_size(self, block_size: usize) -> (r: Self)
        ensures
            r.spec_block_size() == Some(block_size),
            r.spec_modulus() == self.spec_modulus(),
    {
        Self { block_size: Some(block_size), ..self }
    }

    pub fn build(self) -> (r: WeakCheckSum)
        ensures
            r.spec_modulus() == if self.spec_modulus() is Some {
                self.spec_modulus()->0
            } else {
                0x10000u32
            },
            r.spec_block_size() == if self.spec_block_size() is Some {
                self.spec_block_size()->0
            } else {
                1000usize
            },
    {
        WeakCheckSum {
            modulus: self.modulus.unwrap_or(0x10000),
            block_size: self.block_size.unwrap_or(1000),
        }
    }
}

impl Default for WeakCheckSum {
    fn default() -> (r: Self)
        ensures
            r.spec_modulus() == 0x10000u32,
            r.spec_block_size() == 1000usize,
    {
        Self { modulus: 0x10000, block_size: 1000 }
    }
}

impl WeakCheckSum {
    pub closed spec fn spec_modulus(self) -> u32 {
        self.modulus
    }

    pub closed spec fn spec_block_size(self) -> usize {
        self.block_size
    }

    pub fn new() -> (r: Self)
        ensures
            r.spec_modulus() == 0x10000u32,
            r.spec_block_size() == 1000usize,
    {
        Self::default()
    }

    pub fn with_config(config: &ChecksumConfig) -> (r: Self)
        ensures
            r.spec_modulus() == config.modulus,
            r.spec_block_size() == config.block_size,
    {
        Self { block_size: config.block_size, modulus: config.modulus }
    }

    /// The width of the window.
    pub fn block_size(&self) -> (r: usize)
        ensures
            r == self.spec_block_size(),
    {
        self.block_size
    }

    /// The modulus of both partial sums.
    pub fn modulus(&self) -> (r: u32)
        ensures
            r == self.spec_modulus(),
    {
        self.modulus
    }

    /// The low half of the weak checksum of `buffer[left..=right]`, computed
    /// from its closed form: the plain byte sum, reduced modulo `modulus` at
    /// every step. Returns 0 when `right` lies outside the buffer.
    pub fn a_expanded(modulus: u32, left: usize, right: usize, buffer: &[u8]) -> (r: u32)
        requires
            modulus >= 1,
        ensures
            right < buffer@.len() && left <= right + 1 ==> r == weak_a(
                buffer@,
                left as int,
                right as int,
                modulus as int,
            ),
            right >= buffer@.len() || left > right + 1 ==> r == 0,
    {
        if right >= buffer.len() {
            return 0;
        }
        if left > right {
            proof {
                if left == right + 1 {
                    assert(buffer@.subrange(left as int, left as int) =~= Seq::<u8>::empty());
                    vstd::arithmetic::div_mod::lemma_small_mod(0, modulus as nat);
                }
            }
            return 0;
        }
        proof {
            assert(buffer@.subrange(left as int, left as int) =~= Seq::<u8>::empty());
            vstd::arithmetic::div_mod::lemma_small_mod(0, modulus as nat);
        }
        let mut sum: u32 = 0;
        let mut i: usize = left;
        while i <= right
            invariant
                modulus >= 1,
                left <= i <= right + 1,
                right < buffer@.len(),
                sum < modulus,
                sum == sum_bytes(buffer@.subrange(left as int, i as int)) % (modulus as int),
            decreases right + 1 - i,
        {
            let ghost pre = buffer@.subrange(left as int, i as int);
            let ghost post = buffer@.subrange(left as int, i as int + 1);
            proof {
                assert(post.drop_last() =~= pre);
                lemma_add_mod_noop_right(
                    buffer@[i as int] as int,
                    sum_bytes(pre),
                    modulus as int,
                );
                lemma_mod_bound(sum_bytes(pre) + buffer@[i as int], modulus as int);
            }
            let s64: u64 = (sum as u64 + buffer[i] as u64) % (modulus as u64);
            sum = s64 as u32;
            i = i + 1;
        }
        assert(buffer@.subrange(left as int, right + 1) =~= buffer@.subrange(
            left as int,
            i as int,
        ));
        sum
    }

    /// The high half of the weak checksum of `buffer[left..=right]`, computed
    /// from its closed form: each byte weighted by its distance to the end of
    /// the window, reduced modulo `modulus` at every step. Returns 0 when
    /// `right` lies outside the buffer.
    pub fn b_expanded(modulus: u32, left: usize, right: usize, buffer: &[u8]) -> (r: u32)
        requires
            modulus >= 1,
        ensures
            right < buffer@.len() && left <= right + 1 ==> r == weak_b(
                buffer@,
                left as int,
                right as int,
                modulus as int,
            ),
            right >= buffer@.len() || left > right + 1 ==> r == 0,
    {
        if right >= buffer.len() {
            return 0;
        }
        if left > right {
            proof {
                if left == right + 1 {
                    assert(buffer@.subrange(left as int, left as int) =~= Seq::<u8>::empty());
                    vstd::arithmetic::div_mod::lemma_small_mod(0, modulus as nat);
                }
            }
            return 0;
        }
        proof {
            assert(buffer@.subrange(left as int, left as int) =~= Seq::<u8>::empty());
            vstd::arithmetic::div_mod::lemma_small_mod(0, modulus as nat);
        }
        let mut sum: u32 = 0;
        let mut i: usize = left;
        while i <= right
            invariant
                modulus >= 1,
                left <= i <= right + 1,
                right < buffer@.len(),
                sum < modulus,
                sum == (weighted_sum(buffer@.subrange(left as int, i as int)) + (right + 1
                    - i) * sum_bytes(buffer@.subrange(left as int, i as int))) % (modulus as int),
            decreases right + 1 - i,
        {
            let ghost pre = buffer@.subrange(left as int, i as int);
            let ghost post = buffer@.subrange(left as int, i as int + 1);
            let ghost byte = buffer@[i as int] as int;
            let ghost w = right + 1 - i;
            let ghost total = weighted_sum(pre) + w * sum_bytes(pre);
            let ghost total_post = weighted_sum(post) + (w - 1) * sum_bytes(post);
            proof {
                assert(post.drop_last() =~= pre);
                assert(weighted_sum(post) == weighted_sum(pre) + sum_bytes(post));
                assert(sum_bytes(post) == sum_bytes(pre) + byte);
                assert(total_post == total + w * byte) by (nonlinear_arith)
                    requires
                        total == weighted_sum(pre) + w * sum_bytes(pre),
                        total_post == weighted_sum(post) + (w - 1) * sum_bytes(post),
                        weighted_sum(post) == weighted_sum(pre) + sum_bytes(post),
                        sum_bytes(post) == sum_bytes(pre) + byte,
                ;
                lemma_add_mod_noop_right(w * byte, total, modulus as int);
                lemma_mod_bound(total + w * byte, modulus as int);
                vstd::arithmetic::mul::lemma_mul_upper_bound(w, usize::MAX as int + 1, byte, 255);
            }
            let weight: u128 = (right - i) as u128 + 1;
            let summand: u128 = weight * (buffer[i] as u128);
            let s128: u128 = (sum as u128 + summand) % (modulus as u128);
            sum = s128 as u32;
            i = i + 1;
        }
        assert(buffer@.subrange(left as int, right + 1) =~= buffer@.subrange(
            left as int,
            i as int,
        ));
        proof {
            vstd::arithmetic::mul::lemma_mul_basics(
                sum_bytes(buffer@.subrange(left as int, i as int)),
            );
        }
        sum
    }
}

/// Advancing the window by one byte changes the byte sum by exactly the byte
/// that enters minus the byte that leaves.
pub proof fn lemma_a_recurrence(buf: Seq<u8>, k: int, l: int)
    requires
        0 <= k <= l,
        l + 1 < buf.len(),
    ensures
        sum_bytes(buf.subrange(k + 1, l + 2)) == sum_bytes(buf.subrange(k, l + 1)) + buf[l + 1]
            - buf[k],
{
    let wide = buf.subrange(k, l + 2);
    assert(wide.drop_last() =~= buf.subrange(k, l + 1));
    assert(wide.last() == buf[l + 1]);
    lemma_sum_bytes_drop_first(wide);
    assert(wide.drop_first() =~= buf.subrange(k + 1, l + 2));
    assert(wide[0] == buf[k]);
}

/// Advancing the window by one byte changes the weighted sum by the new
/// window's byte sum, minus the leaving byte once per position of the old
/// window.
pub proof fn lemma_b_recurrence(buf: Seq<u8>, k: int, l: int)
    requires
        0 <= k <= l,
        l + 1 < buf.len(),
    ensures
        weighted_sum(buf.subrange(k + 1, l + 2)) == weighted_sum(buf.subrange(k, l + 1))
            + sum_bytes(buf.subrange(k + 1, l + 2)) - (l - k + 1) * buf[k],
{
    let wide = buf.subrange(k, l + 2);
    assert(wide.drop_last() =~= buf.subrange(k, l + 1));
    assert(weighted_sum(wide) == weighted_sum(buf.subrange(k, l + 1)) + sum_bytes(wide));
    lemma_weighted_sum_drop_first(wide);
    lemma_sum_bytes_drop_first(wide);
    assert(wide.drop_first() =~= buf.subrange(k + 1, l + 2));
    assert(wide[0] == buf[k]);
    assert(wide.len() * buf[k] == (l - k + 1) * buf[k] + buf[k]) by (nonlinear_arith)
        requires
            wide.len() == l + 2 - k,
    ;
}

/// Packs the two halves into the composite 32-bit value `a + b * 2^16`,
/// truncated to 32 bits.
fn compose(a: u32, b: u32) -> (r: u32)
    ensures
        r == ((a + b * 0x10000) % 0x1_0000_0000) as u32,
{
    proof {
        lemma_mod_bound(a + b * 0x10000, 0x1_0000_0000);
    }
    ((a as u64 + b as u64 * 0x10000) % 0x1_0000_0000) as u32
}

/// Yields the weak checksum of every window of the buffer in turn, advancing
/// one byte at a time by the rolling recurrence rather than recomputing the
/// sums. The window is `block_size` wide, or the whole buffer when that is
/// shorter.
pub struct WeakCheckSumRollingIterator<'buf> {
    buffer: &'buf [u8],
    modulus: u32,
    previous_k: usize,
    previous_l: usize,
    a_k_l: u32,
    b_k_l: u32,
    ended: bool,
}

impl<'buf> WeakCheckSumRollingIterator<'buf> {
    /// The buffer the iterator walks.
    pub closed spec fn buf(self) -> Seq<u8> {
        self.buffer@
    }

    /// The modulus of both partial sums.
    pub closed spec fn mod_spec(self) -> u32 {
        self.modulus
    }

    /// The left edge of the current window; also how many values have been
    /// yielded so far.
    pub closed spec fn pos(self) -> int {
        self.previous_k as int
    }

    /// The right (inclusive) edge of the current window.
    pub closed spec fn window_end(self) -> int {
        self.previous_l as int
    }

    /// Whether the iterator has yielded its last value.
    pub closed spec fn done(self) -> bool {
        self.ended
    }

    /// The iterator's invariant: while values remain, the two running sums
    /// are exactly the two halves of the weak checksum of the current window.
    pub closed spec fn wf(self) -> bool {
        &&& self.modulus >= 1
        &&& !self.ended ==> {
            &&& 0 <= self.pos() <= self.window_end() < self.buf().len()
            &&& self.a_k_l == weak_a(self.buf(), self.pos(), self.window_end(), self.modulus as int)
            &&& self.b_k_l == weak_b(self.buf(), self.pos(), self.window_end(), self.modulus as int)
        }
    }

    /// Starts a rolling pass over `buffer`. An empty buffer has no window at
    /// all; a buffer shorter than the block size has a single window covering
    /// all of it.
    pub fn new(buffer: &'buf [u8], modulus: u32, block_size: usize) -> (r: Self)
        requires
            modulus >= 1,
            block_size >= 1,
        ensures
            r.wf(),
            r.buf() == buffer@,
            r.mod_spec() == modulus,
            buffer@.len() == 0 ==> r.done(),
            buffer@.len() > 0 ==> !r.done() && r.pos() == 0 && r.window_end() == rolling_window(
                buffer@.len() as int,
                block_size as int,
            ) - 1,
    {
        if buffer.len() == 0 {
            return Self {
                buffer,
                modulus,
                previous_k: 0,
                previous_l: 0,
                a_k_l: 0,
                b_k_l: 0,
                ended: true,
            };
        }
        let last: usize = if buffer.len() < block_size {
            buffer.len() - 1
        } else {
            block_size - 1
        };
        Self {
            buffer,
            modulus,
            previous_k: 0,
            previous_l: last,
            a_k_l: WeakCheckSum::a_expanded(modulus, 0, last, buffer),
            b_k_l: WeakCheckSum::b_expanded(modulus, 0, last, buffer),
            ended: false,
        }
    }

    /// Whether the iterator has yielded its last value.
    pub fn is_ended(&self) -> (r: bool)
        ensures
            r == self.done(),
    {
        self.ended
    }

    /// Yields the checksum of the current window, then slides the window one
    /// byte to the right by the rolling recurrence; ends after the window
    /// touches the end of the buffer.
    pub fn next(&mut self) -> (r: Option<u32>)
        requires
            old(self).wf(),
        ensures
            final(self).wf(),
            final(self).buf() == old(self).buf(),
            final(self).mod_spec() == old(self).mod_spec(),
            old(self).done() ==> r is None && final(self).done(),
            !old(self).done() ==> {
                &&& r == Some(
                    weak_checksum(
                        old(self).buf(),
                        old(self).pos(),
                        old(self).window_end(),
                        old(self).mod_spec() as int,
                    ),
                )
                &&& if old(self).window_end() + 1 < old(self).buf().len() {
                    &&& !final(self).done()
                    &&& final(self).pos() == old(self).pos() + 1
                    &&& final(self).window_end() == old(self).window_end() + 1
                } else {
                    final(self).done()
                }
            },
    {
        if self.ended {
            return None;
        }
        let n: usize = self.buffer.len();
        let checksum = compose(self.a_k_l, self.b_k_l);
        if self.previous_l + 1 >= n {
            self.ended = true;
            return Some(checksum);
        }
        let ghost buf = self.buffer@;
        let ghost k = self.previous_k as int;
        let ghost l = self.previous_l as int;
        let ghost m = self.modulus as int;
        let ghost asum = sum_bytes(buf.subrange(k, l + 1));
        let ghost asum_next = sum_bytes(buf.subrange(k + 1, l + 2));
        let ghost bsum = weighted_sum(buf.subrange(k, l + 1));
        let ghost bsum_next = weighted_sum(buf.subrange(k + 1, l + 2));

        let m64: u64 = self.modulus as u64;
        let new_byte: u64 = self.buffer[self.previous_l + 1] as u64;
        let old_byte: u64 = self.buffer[self.previous_k] as u64;
        let new_a: u32 = ((self.a_k_l as u64 + new_byte + 256 * m64 - old_byte) % m64) as u32;
        proof {
            lemma_a_recurrence(buf, k, l);
            lemma_add_mod_noop_right(
                new_byte + 256 * m - old_byte,
                asum,
                m,
            );
            lemma_mod_multiples_vanish(256, asum + new_byte - old_byte, m);
            lemma_mod_bound(asum_next, m);
            assert(m * 256 == 256 * m) by (nonlinear_arith);
            assert(new_a == weak_a(buf, k + 1, l + 1, m));
        }
        let win_len: usize = self.previous_l - self.previous_k + 1;
        proof {
            vstd::arithmetic::mul::lemma_mul_upper_bound(
                win_len as int,
                usize::MAX as int,
                old_byte as int,
                255,
            );
            vstd::arithmetic::mul::lemma_mul_upper_bound(
                256 * m,
                0x100_0000_0000 as int,
                win_len as int,
                usize::MAX as int,
            );
            assert((256 * m) * win_len >= 256 * win_len && 256 * win_len >= win_len * old_byte)
                by (nonlinear_arith)
                requires
                    m >= 1,
                    win_len >= 1,
                    0 <= old_byte <= 255,
            ;
        }
        let t: u128 = self.b_k_l as u128 + new_a as u128 + 256u128 * (self.modulus as u128) * (
        win_len as u128) - (win_len as u128) * (old_byte as u128);
        let new_b: u32 = (t % (self.modulus as u128)) as u32;
        proof {
            lemma_b_recurrence(buf, k, l);
            assert(t == (256 * win_len) * m + ((bsum % m) + (asum_next % m) - win_len * old_byte))
                by (nonlinear_arith)
                requires
                    t == (bsum % m) + (asum_next % m) + (256 * m) * win_len - win_len * old_byte,
            ;
            lemma_add_mod_noop_right(
                (256 * win_len) * m + (bsum % m) - win_len * old_byte,
                asum_next,
                m,
            );
            lemma_add_mod_noop_right(
                (256 * win_len) * m + asum_next - win_len * old_byte,
                bsum,
                m,
            );
            lemma_mod_multiples_vanish(
                256 * win_len as int,
                bsum + asum_next - win_len * old_byte,
                m,
            );
            lemma_mod_bound(bsum_next, m);
            assert(m * (256 * win_len) == (256 * win_len) * m) by (nonlinear_arith);
            assert(new_b == weak_b(buf, k + 1, l + 1, m));
        }
        self.previous_k += 1;
        self.previous_l += 1;
        self.a_k_l = new_a;
        self.b_k_l = new_b;
        Some(checksum)
    }
}

/// The whole rolling stream of weak checksums over `buf`: one value per
/// window offset, the window `b` wide (or the whole buffer when shorter).
pub open spec fn weak_rolling(buf: Seq<u8>, b: int, m: int) -> Seq<u32> {
    Seq::new(
        rolling_count(buf.len() as int, b) as nat,
        |k: int| weak_checksum(buf, k, k + rolling_window(buf.len() as int, b) - 1, m),
    )
}

/// The weak checksums of the non-overlapping blocks of `buf`: one value per
/// block, the final partial tail included.
pub open spec fn weak_blocks(buf: Seq<u8>, b: int, m: int) -> Seq<u32> {
    Seq::new(
        block_count(buf.len() as int, b) as nat,
        |i: int| weak_checksum(buf, i * b, block_end(i, b, buf.len() as int) - 1, m),
    )
}

/// Yields the weak checksum of each non-overlapping block of the buffer in
/// turn, the final partial tail included, each computed from the closed
/// form.
pub struct WeakChecksumNonOverlappingIterator<'buf> {
    buffer: &'buf [u8],
    modulus: u32,
    left: usize,
    window_size: usize,
}

impl<'buf> WeakChecksumNonOverlappingIterator<'buf> {
    /// The buffer the iterator walks.
    pub closed spec fn buf(self) -> Seq<u8> {
        self.buffer@
    }

    /// The modulus of both partial sums.
    pub closed spec fn mod_spec(self) -> u32 {
        self.modulus
    }

    /// The left edge of the next block to yield.
    pub closed spec fn spec_left(self) -> int {
        self.left as int
    }

    /// The block size.
    pub closed spec fn spec_window(self) -> int {
        self.window_size as int
    }

    /// The iterator's invariant: the modulus admits a remainder and the
    /// window is non-empty.
    pub closed spec fn wf(self) -> bool {
        self.modulus >= 1 && self.window_size >= 1
    }

    /// Starts a non-overlapping pass over `buffer` at its first block.
    pub fn new(buffer: &'buf [u8], modulus: u32, window_size: usize) -> (r: Self)
        requires
            modulus >= 1,
            window_size >= 1,
        ensures
            r.wf(),
            r.buf() == buffer@,
            r.mod_spec() == modulus,
            r.spec_left() == 0,
            r.spec_window() == window_size,
    {
        Self { buffer, modulus, left: 0, window_size }
    }

    /// Whether a block remains to be yielded.
    pub fn has_more(&self) -> (r: bool)
        ensures
            r == (self.spec_left() < self.buf().len()),
    {
        self.left < self.buffer.len()
    }

    /// Yields the weak checksum of the block starting at the current left
    /// edge, covering one block size or whatever remains of the buffer, and
    /// moves the edge past it.
    pub fn next(&mut self) -> (r: Option<u32>)
        requires
            old(self).wf(),
        ensures
            final(self).wf(),
            final(self).buf() == old(self).buf(),
            final(self).mod_spec() == old(self).mod_spec(),
            final(self).spec_window() == old(self).spec_window(),
            old(self).spec_left() >= old(self).buf().len() ==> r is None && final(self).spec_left()
                == old(self).spec_left(),
            old(self).spec_left() < old(self).buf().len() ==> {
                let end = if old(self).spec_left() + old(self).spec_window() < old(
                    self,
                ).buf().len() {
                    old(self).spec_left() + old(self).spec_window()
                } else {
                    old(self).buf().len() as int
                };
                &&& r == Some(
                    weak_checksum(
                        old(self).buf(),
                        old(self).spec_left(),
                        end - 1,
                        old(self).mod_spec() as int,
                    ),
                )
                &&& final(self).spec_left() == end
            },
    {
        let n: usize = self.buffer.len();
        if self.left >= n {
            return None;
        }
        let end: usize = if n - self.left > self.window_size {
            self.left + self.window_size
        } else {
            n
        };
        let a = WeakCheckSum::a_expanded(self.modulus, self.left, end - 1, self.buffer);
        let b = WeakCheckSum::b_expanded(self.modulus, self.left, end - 1, self.buffer);
        let checksum = compose(a, b);
        self.left = end;
        Some(checksum)
    }
}

impl Checksums for WeakCheckSum {
    type Output = u32;

    /// The configuration is usable: the modulus admits a remainder and the
    /// window is non-empty.
    open spec fn valid(&self) -> bool {
        self.spec_modulus() >= 1 && self.spec_block_size() >= 1
    }

    open spec fn rolling_spec(&self, data: Seq<u8>) -> Seq<u32> {
        weak_rolling(data, self.spec_block_size() as int, self.spec_modulus() as int)
    }

    open spec fn blocks_spec(&self, data: Seq<u8>) -> Seq<u32> {
        weak_blocks(data, self.spec_block_size() as int, self.spec_modulus() as int)
    }

    fn checksums(&self, data: &[u8]) -> (r: Vec<u32>) {
        let ghost n = data@.len() as int;
        let ghost b = self.spec_block_size() as int;
        let ghost m = self.spec_modulus() as int;
        let ghost w = rolling_window(n, b);
        let mut it = WeakCheckSumRollingIterator::new(data, self.modulus, self.block_size);
        let mut out: Vec<u32> = Vec::new();
        while !it.is_ended()
            invariant
                it.wf(),
                it.buf() == data@,
                it.mod_spec() == self.spec_modulus(),
                m == self.spec_modulus() as int,
                b == self.spec_block_size() as int,
                m >= 1,
                b >= 1,
                n == data@.len(),
                w == rolling_window(n, b),
                !it.done() ==> it.pos() == out@.len() && it.window_end() == it.pos() + w - 1,
                it.done() ==> out@.len() == rolling_count(n, b),
                forall|j: int|
                    0 <= j < out@.len() ==> out@[j] == weak_checksum(data@, j, j + w - 1, m),
            decreases (if it.done() {
                0int
            } else {
                n - it.pos() + 1
            }),
        {
            let ghost prev_len = out@.len() as int;
            let ghost prev_pos = it.pos();
            let ghost prev_end = it.window_end();
            let v = it.next();
            out.push(v.unwrap());
            proof {
                assert(out@[prev_len] == weak_checksum(data@, prev_pos, prev_end, m));
                assert(forall|j: int|
                    0 <= j < prev_len ==> out@[j] == weak_checksum(data@, j, j + w - 1, m));
            }
        }
        assert(out@ =~= weak_rolling(data@, b, m));
        out
    }

    fn checksums_non_overlapping(&self, data: &[u8]) -> (r: Vec<u32>) {
        let ghost n = data@.len() as int;
        let ghost b = self.spec_block_size() as int;
        let ghost m = self.spec_modulus() as int;
        let mut it = WeakChecksumNonOverlappingIterator::new(data, self.modulus, self.block_size);
        let mut out: Vec<u32> = Vec::new();
        while it.has_more()
            invariant
                it.wf(),
                it.buf() == data@,
                it.mod_spec() == self.spec_modulus(),
                it.spec_window() == b,
                m == self.spec_modulus() as int,
                m >= 1,
                b >= 1,
                n == data@.len(),
                out@.len() <= block_count(n, b),
                out@.len() < block_count(n, b) ==> it.spec_left() == out@.len() * b
                    && it.spec_left() < n,
                out@.len() == block_count(n, b) ==> it.spec_left() >= n,
                forall|j: int|
                    0 <= j < out@.len() ==> out@[j] == weak_checksum(
                        data@,
                        j * b,
                        block_end(j, b, n) - 1,
                        m,
                    ),
            decreases n - it.spec_left(),
        {
            let ghost i = out@.len() as int;
            proof {
                lemma_block_step(i, b, n);
            }
            let v = it.next();
            out.push(v.unwrap());
            proof {
                assert(out@[i] == weak_checksum(data@, i * b, block_end(i, b, n) - 1, m));
                assert(forall|j: int|
                    0 <= j < i ==> out@[j] == weak_checksum(data@, j * b, block_end(j, b, n) - 1, m));
            }
        }
        assert(out@ =~= weak_blocks(data@, b, m));
        out
    }
}

/// Stepping from block `i` to block `i + 1`: whether the next block start
/// still lies inside the buffer decides whether block `i` was the last.
pub proof fn lemma_block_step(i: int, b: int, n: int)
    requires
        b >= 1,
        0 <= i,
        i * b < n,
    ensures
        i + 1 <= block_count(n, b),
        (i + 1) * b == i * b + b,
        (i + 1) * b < n ==> i + 1 < block_count(n, b),
        (i + 1) * b >= n ==> i + 1 == block_count(n, b),
{
    assert((i + 1) * b == i * b + b) by (nonlinear_arith);
    if (i + 1) * b < n {
        vstd::arithmetic::div_mod::lemma_div_is_ordered((i + 1) * b, n - 1, b);
        vstd::arithmetic::div_mod::lemma_div_by_multiple(i + 1, b);
        assert(b * (i + 1) == (i + 1) * b) by (nonlinear_arith);
    } else {
        vstd::arithmetic::div_mod::lemma_fundamental_div_mod_converse(n - 1, b, i, n - 1 - i * b);
    }
}

/// The non-overlapping blocks of `buf`, laid end to end: the first `count`
/// of them, in order.
pub open spec fn blocks_concat(buf: Seq<u8>, b: int, count: int) -> Seq<u8>
    decreases count,
{
    if count <= 0 {
        Seq::empty()
    } else {
        blocks_concat(buf, b, count - 1) + buf.subrange(
            (count - 1) * b,
            block_end(count - 1, b, buf.len() as int),
        )
    }
}

/// Law: the non-overlapping blocks tile the buffer. Laid end to end, all
/// `ceil(len / b)` of them give back exactly the buffer.
pub proof fn lemma_blocks_tile(buf: Seq<u8>, b: int)
    requires
        b >= 1,
    ensures
        blocks_concat(buf, b, block_count(buf.len() as int, b)) == buf,
{
    let n = buf.len() as int;
    lemma_blocks_concat_prefix(buf, b, block_count(n, b));
    if n == 0 {
        assert(buf.subrange(0, 0) =~= buf);
    } else {
        let q = (n - 1) / b;
        vstd::arithmetic::div_mod::lemma_fundamental_div_mod(n - 1, b);
        vstd::arithmetic::div_mod::lemma_mod_bound(n - 1, b);
        assert((q + 1) * b == b * q + b) by (nonlinear_arith);
        assert(block_count(n, b) * b >= n);
        assert(buf.subrange(0, n) =~= buf);
    }
}

/// The first `count` blocks, laid end to end, are the buffer's prefix up to
/// where block `count` would begin.
proof fn lemma_blocks_concat_prefix(buf: Seq<u8>, b: int, count: int)
    requires
        b >= 1,
        0 <= count <= block_count(buf.len() as int, b),
    ensures
        blocks_concat(buf, b, count) == buf.subrange(
            0,
            if count * b < buf.len() {
                count * b
            } else {
                buf.len() as int
            },
        ),
    decreases count,
{
    let n = buf.len() as int;
    if count == 0 {
        assert(buf.subrange(0, 0) =~= Seq::<u8>::empty());
    } else {
        lemma_blocks_concat_prefix(buf, b, count - 1);
        assert((count - 1) * b == count * b - b && (count - 1) * b >= 0) by (nonlinear_arith)
            requires
                b >= 1,
                count >= 1,
        ;
        assert(count - 1 <= (n - 1) / b);
        vstd::arithmetic::div_mod::lemma_fundamental_div_mod(n - 1, b);
        vstd::arithmetic::div_mod::lemma_mod_bound(n - 1, b);
        assert((count - 1) * b <= ((n - 1) / b) * b && ((n - 1) / b) * b == b * ((n - 1) / b))
            by (nonlinear_arith)
            requires
                b >= 1,
                count - 1 <= (n - 1) / b,
        ;
        assert((count - 1) * b < n);
        let prev_end: int = (count - 1) * b;
        let this_end: int = if count * b < n {
            count * b
        } else {
            n
        };
        assert(block_end(count - 1, b, n) == this_end);
        assert(buf.subrange(0, prev_end) + buf.subrange(prev_end, this_end) =~= buf.subrange(
            0,
            this_end,
        ));
    }
}

/// Computes the rolling weak checksums of a whole buffer with the default
/// configuration (modulus `2^16`, block size 1000).
pub fn rolling_checksum(buffer: &[u8]) -> (r: Vec<u32>)
    ensures
        r@ == weak_rolling(buffer@, 1000, 0x10000),
{
    let rolling = WeakCheckSum::new();
    rolling.checksums(buffer)
}

} // verus!
