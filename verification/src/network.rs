//! The wire protocol: the tagged messages the two endpoints exchange, the
//! reconstruction instructions, and the length-prefixed framing that lets a
//! reader recognize one complete message in a byte buffer and leave the rest
//! for the next.

use vstd::prelude::*;
use vstd::arithmetic::div_mod::{
    lemma_div_is_ordered, lemma_mod_bound, lemma_mod_breakdown, lemma_small_mod,
};
use crate::SyncrError;

verus! {

/// One step of the reconstruction program the source emits: either literal
/// bytes to place at an offset of the rebuilt file, or a back-reference that
/// copies a range of the updater's local file there.
#[derive(Debug, Clone, PartialEq)]
pub enum Instruction {
    NewData { offset: usize, length: usize, bytes: Vec<u8> },
    Replicate { from_offset: usize, length: usize, new_offset: usize },
}

/// The mathematical shape of an [`Instruction`]: the same two variants over
/// unbounded integers and a byte sequence.
pub enum InstrModel {
    NewData { offset: int, length: int, bytes: Seq<u8> },
    Replicate { from_offset: int, length: int, new_offset: int },
}

impl View for Instruction {
    type V = InstrModel;

    open spec fn view(&self) -> InstrModel {
        match self {
            Instruction::NewData { offset, length, bytes } => InstrModel::NewData {
                offset: *offset as int,
                length: *length as int,
                bytes: bytes@,
            },
            Instruction::Replicate { from_offset, length, new_offset } => InstrModel::Replicate {
                from_offset: *from_offset as int,
                length: *length as int,
                new_offset: *new_offset as int,
            },
        }
    }
}

/// A message of the wire protocol, self-describing by its tag.
#[derive(Debug, Clone, PartialEq)]
pub enum Message {
    FileName(String),
    WeakChecksums(Vec<u32>),
    StrongChecksumRequest(Vec<usize>),
    StrongChecksums(Vec<(usize, u128)>),
    Matches(Vec<(usize, usize)>),
    Instructions(Vec<Instruction>),
}

impl Message {
    /// The name of the message's variant.
    pub fn kind(&self) -> (r: &'static str)
        ensures
            self is FileName ==> r@ == "FileName"@,
            self is WeakChecksums ==> r@ == "WeakChecksums"@,
            self is StrongChecksumRequest ==> r@ == "StrongChecksumRequest"@,
            self is StrongChecksums ==> r@ == "StrongChecksums"@,
            self is Matches ==> r@ == "Matches"@,
            self is Instructions ==> r@ == "Instructions"@,
    {
        match self {
            Message::FileName { .. } => "FileName",
            Message::WeakChecksums { .. } => "WeakChecksums",
            Message::StrongChecksumRequest { .. } => "StrongChecksumRequest",
            Message::StrongChecksums { .. } => "StrongChecksums",
            Message::Matches { .. } => "Matches",
            Message::Instructions { .. } => "Instructions",
        }
    }
}

/// A frame length written as four big-endian bytes.
pub open spec fn be32_bytes(n: int) -> Seq<u8> {
    seq![
        (((n / 0x1000000) % 256) as u8),
        (((n / 0x10000) % 256) as u8),
        (((n / 0x100) % 256) as u8),
        ((n % 256) as u8),
    ]
}

/// Four big-endian bytes read back as an integer.
pub open spec fn be32_val(s: Seq<u8>) -> int {
    s[0] * 0x1000000 + s[1] * 0x10000 + s[2] * 0x100 + s[3]
}

/// A framed payload: its length as four big-endian bytes, then the payload
/// itself.
pub open spec fn frame_of(payload: Seq<u8>) -> Seq<u8> {
    be32_bytes(payload.len() as int) + payload
}

/// Writing a length as four big-endian bytes and reading them back returns
/// the length: the framing's length prefix loses nothing.
pub proof fn lemma_be32_round_trip(n: int)
    requires
        0 <= n <= u32::MAX,
    ensures
        be32_val(be32_bytes(n)) == n,
{
    lemma_small_mod(n as nat, 0x1_0000_0000);
    lemma_mod_breakdown(n, 0x1000000, 0x100);
    lemma_mod_breakdown(n, 0x10000, 0x100);
    lemma_mod_breakdown(n, 0x100, 0x100);
    lemma_mod_bound(n / 0x1000000, 0x100);
    lemma_mod_bound(n / 0x10000, 0x100);
    lemma_mod_bound(n / 0x100, 0x100);
    lemma_mod_bound(n, 0x100);
    assert((n / 0x1000000) % 256 == n / 0x1000000) by {
        lemma_div_is_ordered(n, u32::MAX as int, 0x1000000);
        lemma_small_mod((n / 0x1000000) as nat, 256);
    }
}

/// A frame laid in front of any trailing bytes starts with its own length
/// and carries its payload unchanged: what the decoder relies on.
pub proof fn lemma_frame_round_trip(payload: Seq<u8>, rest: Seq<u8>)
    requires
        payload.len() <= u32::MAX,
    ensures
        (frame_of(payload) + rest).len() == 4 + payload.len() + rest.len(),
        be32_val((frame_of(payload) + rest).subrange(0, 4)) == payload.len(),
        (frame_of(payload) + rest).subrange(4, 4 + payload.len() as int) == payload,
{
    let framed = frame_of(payload) + rest;
    lemma_be32_round_trip(payload.len() as int);
    assert(framed.subrange(0, 4) =~= be32_bytes(payload.len() as int));
    assert(framed.subrange(4, 4 + payload.len() as int) =~= payload);
}

/// Wraps a payload in a frame: four big-endian length bytes, then the
/// payload.
pub fn encode_frame(payload: &Vec<u8>) -> (r: Vec<u8>)
    requires
        payload@.len() <= u32::MAX,
    ensures
        r@ == frame_of(payload@),
{
    let n: u32 = payload.len() as u32;
    let mut out: Vec<u8> = Vec::new();
    proof {
        lemma_div_is_ordered(n as int, u32::MAX as int, 0x1000000);
        lemma_mod_bound(n as int / 0x10000, 0x100);
        lemma_mod_bound(n as int / 0x100, 0x100);
        lemma_mod_bound(n as int, 0x100);
        lemma_small_mod((n as int / 0x1000000) as nat, 256);
    }
    out.push((n / 0x1000000) as u8);
    out.push(((n / 0x10000) % 256) as u8);
    out.push(((n / 0x100) % 256) as u8);
    out.push((n % 256) as u8);
    proof {
        assert(out@.subrange(0, 4) =~= be32_bytes(payload@.len() as int));
        assert(out@.subrange(4, out@.len() as int) =~= payload@.subrange(0, 0));
    }
    let mut i: usize = 0;
    while i < payload.len()
        invariant
            i <= payload@.len(),
            out@.len() == 4 + i,
            out@.subrange(0, 4) == be32_bytes(payload@.len() as int),
            out@.subrange(4, out@.len() as int) == payload@.subrange(0, i as int),
        decreases payload@.len() - i,
    {
        out.push(payload[i]);
        proof {
            assert(out@.subrange(0, 4) =~= be32_bytes(payload@.len() as int));
            assert(out@.subrange(4, out@.len() as int) =~= payload@.subrange(0, i as int + 1));
        }
        i = i + 1;
    }
    proof {
        assert(payload@.subrange(0, payload@.len() as int) =~= payload@);
        assert(out@ =~= frame_of(payload@));
    }
    out
}

/// Tries to recognize one complete frame at the front of the buffer. Returns
/// the payload and how many bytes the frame took, or nothing while the
/// buffer does not yet hold a whole frame; trailing bytes are left for the
/// next message.
pub fn decode_frame(buf: &Vec<u8>) -> (r: Option<(Vec<u8>, usize)>)
    ensures
        buf@.len() < 4 ==> r is None,
        buf@.len() >= 4 ==> {
            let n = be32_val(buf@.subrange(0, 4));
            &&& buf@.len() < 4 + n ==> r is None
            &&& buf@.len() >= 4 + n ==> {
                let decoded = r->0;
                &&& r is Some
                &&& decoded.0@ == buf@.subrange(4, 4 + n)
                &&& decoded.1 == 4 + n
            }
        },
{
    if buf.len() < 4 {
        return None;
    }
    let b0: u32 = buf[0] as u32;
    let b1: u32 = buf[1] as u32;
    let b2: u32 = buf[2] as u32;
    let b3: u32 = buf[3] as u32;
    let n32: u32 = b0 * 0x1000000 + b1 * 0x10000 + b2 * 0x100 + b3;
    let n: usize = n32 as usize;
    assert(n == be32_val(buf@.subrange(0, 4)));
    if n > buf.len() - 4 {
        return None;
    }
    let consumed: usize = 4 + n;
    let mut payload: Vec<u8> = Vec::new();
    let mut i: usize = 4;
    while i < consumed
        invariant
            4 <= i <= consumed,
            consumed == 4 + n,
            consumed <= buf@.len(),
            payload@ == buf@.subrange(4, i as int),
        decreases consumed - i,
    {
        payload.push(buf[i]);
        proof {
            assert(payload@ =~= buf@.subrange(4, i as int + 1));
        }
        i = i + 1;
    }
    Some((payload, consumed))
}

/// What the framing loop decides at end of stream: an empty read buffer is a
/// clean shutdown, while leftover bytes mean the peer closed its socket in
/// the middle of a frame.
pub fn classify_eof(buffered: usize) -> (r: Result<(), SyncrError>)
    ensures
        buffered == 0 <==> r is Ok,
        buffered != 0 ==> r == Result::<(), SyncrError>::Err(SyncrError::ConnectionResetByPeer),
{
    if buffered == 0 {
        Ok(())
    } else {
        Err(SyncrError::ConnectionResetByPeer)
    }
}

} // verus!
