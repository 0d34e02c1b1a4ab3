//! The strong block checksum: a 128-bit MD4 digest of a block's bytes. Two
//! blocks whose weak checksums collide are told apart by this one.

use vstd::prelude::*;
use crate::{block_count, block_end, ChecksumConfig, Checksums};

verus! {

/// The 128-bit strong checksum of a byte sequence: its MD4 digest, read as a
/// little-endian integer. What the digest is on given bytes is known only to
/// the hash implementation; this name stands for it in contracts.
pub uninterp spec fn md4_of(bytes: Seq<u8>) -> u128;

/// Relies on md4::Md4 (RustCrypto): the digest is 16 bytes and a function of
/// the input bytes alone; the result is those bytes read little-endian.
#[verifier::external_body]
pub fn hash(data: &[u8]) -> (r: u128)
    ensures
        r == md4_of(data@),
{
    let digest = <md4::Md4 as md4::Digest>::digest(data);
    let mut bytes = [0u8; 16];
    bytes.copy_from_slice(&digest);
    u128::from_le_bytes(bytes)
}

/// The rolling stream of strong checksums over `buf`: one digest per window
/// whose right edge stays strictly inside the buffer. Only full windows are
/// hashed; the partial tail is the non-overlapping stream's business.
pub open spec fn strong_rolling(buf: Seq<u8>, b: int) -> Seq<u128> {
    Seq::new(
        if buf.len() > b {
            (buf.len() - b) as nat
        } else {
            0
        },
        |k: int| md4_of(buf.subrange(k, k + b)),
    )
}

/// The strong checksums of the non-overlapping blocks of `buf`: one digest
/// per block, the final partial tail included.
pub open spec fn strong_blocks(buf: Seq<u8>, b: int) -> Seq<u128> {
    Seq::new(
        block_count(buf.len() as int, b) as nat,
        |i: int| md4_of(buf.subrange(i * b, block_end(i, b, buf.len() as int))),
    )
}

/// The strong checksum of the block starting at byte `o`: one block size of
/// bytes, or whatever remains of the buffer when it ends sooner.
pub open spec fn block_hash(data: Seq<u8>, o: int, b: int) -> u128 {
    md4_of(
        data.subrange(
            o,
            if o + b < data.len() {
                o + b
            } else {
                data.len() as int
            },
        ),
    )
}

/// The configuration of the strong checksum: the width of a block.
#[derive(Debug, Clone, Copy)]
pub struct StrongCheckSum {
    block_size: usize,
}

impl Default for StrongCheckSum {
    fn default() -> (r: Self)
        ensures
            r.spec_block_size() == 1000usize,
    {
        Self { block_size: 1000 }
    }
}

impl StrongCheckSum {
    pub closed spec fn spec_block_size(self) -> usize {
        self.block_size
    }

    pub fn new() -> (r: Self)
        ensures
            r.spec_block_size() == 1000usize,
    {
        Self::default()
    }

    pub fn with_config(config: &ChecksumConfig) -> (r: Self)
        ensures
            r.spec_block_size() == config.block_size,
    {
        Self { block_size: config.block_size }
    }

    /// The width of a block.
    pub fn block_size(&self) -> (r: usize)
        ensures
            r == self.spec_block_size(),
    {
        self.block_size
    }

    /// The strong checksum of the block starting at `idx`: one block size of
    /// bytes, or whatever remains of the buffer when it ends sooner.
    pub fn checksum_for_block(&self, idx: usize, data: &[u8]) -> (r: u128)
        requires
            idx <= data@.len(),
        ensures
            r == block_hash(data@, idx as int, self.spec_block_size() as int),
    {
        let n: usize = data.len();
        let end: usize = if n - idx > self.block_size {
            idx + self.block_size
        } else {
            n
        };
        hash(&data[idx..end])
    }
}

/// Yields the strong checksum of one window after another, each advanced by
/// a fixed shift; yields nothing once the window's right edge reaches the end
/// of the buffer.
pub struct StrongCheckSumIterator<'buf> {
    data: &'buf [u8],
    left_index: usize,
    right_index: usize,
    shift: usize,
}

impl<'buf> StrongCheckSumIterator<'buf> {
    /// The buffer the iterator walks.
    pub closed spec fn buf(self) -> Seq<u8> {
        self.data@
    }

    /// The left edge of the current window.
    pub closed spec fn left(self) -> int {
        self.left_index as int
    }

    /// The right (exclusive) edge of the current window.
    pub closed spec fn right(self) -> int {
        self.right_index as int
    }

    /// How far each step moves the window.
    pub closed spec fn spec_shift(self) -> int {
        self.shift as int
    }

    /// The iterator's invariant: the window never runs backwards.
    pub closed spec fn wf(self) -> bool {
        self.left_index <= self.right_index
    }

    /// Starts a pass whose first window is `[left, right)`, each later one
    /// `shift` bytes further.
    pub fn new(data: &'buf [u8], left: usize, right: usize, shift: usize) -> (r: Self)
        requires
            left <= right,
        ensures
            r.wf(),
            r.buf() == data@,
            r.left() == left,
            r.right() == right,
            r.spec_shift() == shift,
    {
        Self { data, left_index: left, right_index: right, shift }
    }

    /// Whether the current window still lies inside the buffer, so that a
    /// digest remains to be yielded.
    pub fn has_more(&self) -> (r: bool)
        ensures
            r == (self.right() < self.buf().len()),
    {
        self.right_index < self.data.len()
    }

    /// Yields the digest of the current window and advances it by the shift;
    /// yields nothing when the window's right edge has reached the end.
    pub fn next(&mut self) -> (r: Option<u128>)
        requires
            old(self).wf(),
        ensures
            final(self).wf(),
            final(self).buf() == old(self).buf(),
            final(self).spec_shift() == old(self).spec_shift(),
            old(self).right() >= old(self).buf().len() ==> r is None && *final(self) == *old(self),
            old(self).right() < old(self).buf().len() ==> {
                &&& r == Some(md4_of(old(self).buf().subrange(old(self).left(), old(self).right())))
                &&& old(self).right() + old(self).spec_shift() < old(self).buf().len()
                    ==> final(self).left() == old(self).left() + old(self).spec_shift()
                        && final(self).right() == old(self).right() + old(self).spec_shift()
                &&& old(self).right() + old(self).spec_shift() >= old(self).buf().len()
                    ==> final(self).right() == old(self).buf().len()
            },
    {
        let n: usize = self.data.len();
        if self.right_index >= n {
            return None;
        }
        let result = hash(&self.data[self.left_index..self.right_index]);
        if self.shift < n - self.right_index {
            self.left_index = self.left_index + self.shift;
            self.right_index = self.right_index + self.shift;
        } else {
            self.left_index = n;
            self.right_index = n;
        }
        Some(result)
    }
}

impl Checksums for StrongCheckSum {
    type Output = u128;

    /// The configuration is usable: the block is non-empty.
    open spec fn valid(&self) -> bool {
        self.spec_block_size() >= 1
    }

    open spec fn rolling_spec(&self, data: Seq<u8>) -> Seq<u128> {
        strong_rolling(data, self.spec_block_size() as int)
    }

    open spec fn blocks_spec(&self, data: Seq<u8>) -> Seq<u128> {
        strong_blocks(data, self.spec_block_size() as int)
    }

    fn checksums(&self, data: &[u8]) -> (r: Vec<u128>) {
        let ghost n = data@.len() as int;
        let ghost b = self.spec_block_size() as int;
        let n_exec: usize = data.len();
        let first_right: usize = if n_exec < self.block_size {
            n_exec
        } else {
            self.block_size
        };
        let mut it = StrongCheckSumIterator::new(data, 0, first_right, 1);
        let mut out: Vec<u128> = Vec::new();
        while it.has_more()
            invariant
                it.wf(),
                it.buf() == data@,
                it.spec_shift() == 1,
                b == self.spec_block_size() as int,
                b >= 1,
                n == data@.len(),
                it.right() < n ==> n > b && it.left() == out@.len() && it.right() == it.left() + b,
                it.right() >= n ==> out@.len() == strong_rolling(data@, b).len(),
                forall|j: int|
                    0 <= j < out@.len() ==> out@[j] == md4_of(data@.subrange(j, j + b)),
            decreases n - it.right(),
        {
            let v = it.next();
            out.push(v.unwrap());
        }
        assert(out@ =~= strong_rolling(data@, b));
        out
    }

    fn checksums_non_overlapping(&self, data: &[u8]) -> (r: Vec<u128>) {
        let ghost n = data@.len() as int;
        let ghost b = self.spec_block_size() as int;
        let n_exec: usize = data.len();
        let mut left: usize = 0;
        let mut out: Vec<u128> = Vec::new();
        while left < n_exec
            invariant
                b == self.spec_block_size() as int,
                b >= 1,
                n == data@.len(),
                n_exec == n,
                left <= n_exec,
                out@.len() <= block_count(n, b),
                out@.len() < block_count(n, b) ==> left == out@.len() * b && left < n,
                out@.len() == block_count(n, b) ==> left >= n,
                forall|j: int|
                    0 <= j < out@.len() ==> out@[j] == md4_of(
                        data@.subrange(j * b, block_end(j, b, n)),
                    ),
            decreases n_exec - left,
        {
            let ghost i = out@.len() as int;
            proof {
                crate::weak_checksum::lemma_block_step(i, b, n);
            }
            let end: usize = if n_exec - left > self.block_size {
                left + self.block_size
            } else {
                n_exec
            };
            let digest = hash(&data[left..end]);
            out.push(digest);
            left = end;
            proof {
                assert(out@[i] == md4_of(data@.subrange(i * b, block_end(i, b, n))));
                assert(forall|j: int|
                    0 <= j < i ==> out@[j] == md4_of(data@.subrange(j * b, block_end(j, b, n))));
            }
        }
        assert(out@ =~= strong_blocks(data@, b));
        out
    }
}

} // verus!
