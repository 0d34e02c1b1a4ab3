//! Core of an rsync-style delta-transfer engine.
//!
//! The updater endpoint holds a stale copy of a file; the source endpoint
//! holds the authoritative content. The updater sends weak checksums of its
//! non-overlapping blocks; the source rolls a weak checksum over its own
//! bytes at every offset, confirms candidate matches with a strong (MD4)
//! checksum, and emits a list of reconstruction instructions that rebuild
//! the source file from updater-local blocks plus literal inserts.

use vstd::prelude::*;

pub mod multisearch;
pub mod network;
pub mod session;
pub mod strong_checksum;
pub mod weak_checksum;

verus! {

/// The two parameters both sides of a session must share: the block size
/// (window width in bytes) and the modulus of the weak checksum.
pub struct ChecksumConfig {
    pub block_size: usize,
    pub modulus: u32,
}

impl ChecksumConfig {
    /// A configuration is usable when the window is non-empty and the
    /// modulus admits a remainder.
    pub open spec fn valid(self) -> bool {
        self.block_size >= 1 && self.modulus >= 1
    }
}

impl Default for ChecksumConfig {
    fn default() -> (r: Self)
        ensures
            r.block_size == 1000,
            r.modulus == 0x10000,
    {
        Self { block_size: 1000, modulus: 0x10000 }
    }
}

/// Why a session or its connection failed; any of these ends the session.
#[derive(Debug, Clone, Copy, PartialEq, Eq, Structural)]
pub enum SyncrError {
    UnexpectedEndOfFileWhileReadingWeakChecksums,
    UnexpectedEndOfFileWhileReadingFileName,
    IoError,
    InvalidFileName,
    SerializationError,
    DeserializationError,
    ConnectionResetByPeer,
    SendError,
}

/// Width of every rolling window over a buffer of length `n` with block size
/// `b`: the full block size, or the whole buffer when it is shorter.
pub open spec fn rolling_window(n: int, b: int) -> int {
    if n < b {
        n
    } else {
        b
    }
}

/// How many values the rolling stream yields over a buffer of length `n`:
/// one per offset `k` in `[0, n - b]`, a single one when `0 < n < b`, none
/// when the buffer is empty.
pub open spec fn rolling_count(n: int, b: int) -> int {
    if n == 0 {
        0
    } else if n < b {
        1
    } else {
        n - b + 1
    }
}

/// How many non-overlapping blocks a buffer of length `n` splits into with
/// block size `b`: `ceil(n / b)`, counting a final partial tail.
pub open spec fn block_count(n: int, b: int) -> int {
    if n == 0 {
        0
    } else {
        (n - 1) / b + 1
    }
}

/// Exclusive end of block `i`: one block size further, clipped to the
/// buffer's length for the final partial tail.
pub open spec fn block_end(i: int, b: int, n: int) -> int {
    if (i + 1) * b < n {
        (i + 1) * b
    } else {
        n
    }
}

/// A weak and a strong checksum configured over the same block size,
/// streamed together: each window yields its 32-bit weak value paired with
/// its 128-bit strong digest.
#[derive(Debug, Clone, Copy)]
pub struct CheckSum {
    pub weak: weak_checksum::WeakCheckSum,
    pub strong: strong_checksum::StrongCheckSum,
}

impl Default for CheckSum {
    fn default() -> (r: Self)
        ensures
            r.weak.spec_modulus() == 0x10000u32,
            r.weak.spec_block_size() == 1000usize,
            r.strong.spec_block_size() == 1000usize,
    {
        Self { weak: weak_checksum::WeakCheckSum::new(), strong: strong_checksum::StrongCheckSum::new() }
    }
}

impl CheckSum {
    pub fn new() -> (r: Self)
        ensures
            r.weak.spec_modulus() == 0x10000u32,
            r.weak.spec_block_size() == 1000usize,
            r.strong.spec_block_size() == 1000usize,
    {
        Self::default()
    }

    pub fn with_config(config: &ChecksumConfig) -> (r: Self)
        ensures
            r.weak.spec_modulus() == config.modulus,
            r.weak.spec_block_size() == config.block_size,
            r.strong.spec_block_size() == config.block_size,
    {
        Self {
            weak: weak_checksum::WeakCheckSum::with_config(config),
            strong: strong_checksum::StrongCheckSum::with_config(config),
        }
    }
}

impl Checksums for CheckSum {
    type Output = (u32, u128);

    /// The configuration is usable: both halves are, and they agree on the
    /// block size.
    open spec fn valid(&self) -> bool {
        &&& self.weak.valid()
        &&& self.strong.valid()
        &&& self.weak.spec_block_size() == self.strong.spec_block_size()
    }

    /// The two rolling streams zipped: as many pairs as the strong stream
    /// has digests, since it ends one window short of the weak stream.
    open spec fn rolling_spec(&self, data: Seq<u8>) -> Seq<(u32, u128)> {
        Seq::new(
            self.strong.rolling_spec(data).len(),
            |k: int| (self.weak.rolling_spec(data)[k], self.strong.rolling_spec(data)[k]),
        )
    }

    /// The two non-overlapping streams zipped, one pair per block.
    open spec fn blocks_spec(&self, data: Seq<u8>) -> Seq<(u32, u128)> {
        Seq::new(
            self.weak.blocks_spec(data).len(),
            |i: int| (self.weak.blocks_spec(data)[i], self.strong.blocks_spec(data)[i]),
        )
    }

    fn checksums(&self, data: &[u8]) -> (r: Vec<(u32, u128)>) {
        let weak_stream = self.weak.checksums(data);
        let strong_stream = self.strong.checksums(data);
        zip_streams(weak_stream, strong_stream)
    }

    fn checksums_non_overlapping(&self, data: &[u8]) -> (r: Vec<(u32, u128)>) {
        let weak_stream = self.weak.checksums_non_overlapping(data);
        let strong_stream = self.strong.checksums_non_overlapping(data);
        zip_streams(weak_stream, strong_stream)
    }
}

/// Pairs the two checksum streams position by position, ending with the
/// shorter of the two.
fn zip_streams(weak_stream: Vec<u32>, strong_stream: Vec<u128>) -> (r: Vec<(u32, u128)>)
    ensures
        r@.len() == if weak_stream@.len() < strong_stream@.len() {
            weak_stream@.len()
        } else {
            strong_stream@.len()
        },
        forall|k: int|
            0 <= k < r@.len() ==> r@[k] == (weak_stream@[k], strong_stream@[k]),
{
    let count: usize = if weak_stream.len() < strong_stream.len() {
        weak_stream.len()
    } else {
        strong_stream.len()
    };
    let mut out: Vec<(u32, u128)> = Vec::new();
    let mut k: usize = 0;
    while k < count
        invariant
            count <= weak_stream@.len(),
            count <= strong_stream@.len(),
            k <= count,
            out@.len() == k,
            forall|j: int| 0 <= j < k ==> out@[j] == (weak_stream@[j], strong_stream@[j]),
        decreases count - k,
    {
        out.push((weak_stream[k], strong_stream[k]));
        k = k + 1;
    }
    out
}

/// A producer of checksum streams over a byte buffer: one value per byte
/// offset (rolling) or one per non-overlapping block. The two spec functions
/// name the exact stream each implementation yields.
pub trait Checksums {
    /// The output type for each item in the stream of checksums.
    type Output;

    /// When the configuration carried by the implementation is usable.
    spec fn valid(&self) -> bool;

    /// The rolling stream this implementation yields over `data`.
    spec fn rolling_spec(&self, data: Seq<u8>) -> Seq<Self::Output>;

    /// The non-overlapping stream this implementation yields over `data`.
    spec fn blocks_spec(&self, data: Seq<u8>) -> Seq<Self::Output>;

    /// Returns the rolling checksums of the data, one per window offset.
    fn checksums(&self, data: &[u8]) -> (r: Vec<Self::Output>)
        requires
            self.valid(),
        ensures
            r@ == self.rolling_spec(data@),
    ;

    /// Returns the checksums of the non-overlapping blocks of the data,
    /// the final partial tail included.
    fn checksums_non_overlapping(&self, data: &[u8]) -> (r: Vec<Self::Output>)
        requires
            self.valid(),
        ensures
            r@ == self.blocks_spec(data@),
    ;
}

} // verus!
